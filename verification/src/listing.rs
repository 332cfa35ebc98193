//! Directory listings: one value-typed record per filesystem child, a
//! visibility filter for dot-files, and the presentation order — every
//! directory before every file, and case-insensitive name order within
//! each group.

use vstd::prelude::*;
use vstd::string::*;
use vstd::seq_lib::*;

verus! {

/// What kind of filesystem object an entry is.
#[derive(Clone, Copy, PartialEq, Eq, Structural, Debug)]
pub enum EntryKind {
    Directory,
    File,
}

/// One immutable snapshot of a filesystem child, taken at scan time.
/// `size` is present only for files whose metadata could be read;
/// `modified` is seconds since the Unix epoch, absent on a read failure.
pub struct DirectoryEntry {
    pub name: String,
    pub kind: EntryKind,
    pub size: Option<u64>,
    pub modified: Option<i64>,
}

/// ASCII-case-folded code point of `c`: letters `A`..`Z` map to their
/// lower-case counterparts, everything else is left alone.
pub open spec fn fold_char(c: char) -> u32 {
    if 65 <= c as u32 && c as u32 <= 90 {
        (c as u32 + 32) as u32
    } else {
        c as u32
    }
}

/// Case-insensitive lexicographic order on names: `a` is at or before `b`.
pub open spec fn name_le(a: Seq<char>, b: Seq<char>) -> bool
    decreases a.len(),
{
    if a.len() == 0 {
        true
    } else if b.len() == 0 {
        false
    } else if fold_char(a[0]) < fold_char(b[0]) {
        true
    } else if fold_char(a[0]) > fold_char(b[0]) {
        false
    } else {
        name_le(a.drop_first(), b.drop_first())
    }
}

pub open spec fn is_dir(e: DirectoryEntry) -> bool {
    e.kind is Directory
}

/// The listing order: directories before files; within one kind,
/// case-insensitive name order.
pub open spec fn entry_le(a: DirectoryEntry, b: DirectoryEntry) -> bool {
    if is_dir(a) != is_dir(b) {
        is_dir(a)
    } else {
        name_le(a.name@, b.name@)
    }
}

/// A listing in presentation order.
pub open spec fn listing_sorted(s: Seq<DirectoryEntry>) -> bool {
    forall|i: int, j: int| 0 <= i < j < s.len() ==> entry_le(#[trigger] s[i], #[trigger] s[j])
}

/// An entry whose name begins with a dot.
pub open spec fn is_hidden(e: DirectoryEntry) -> bool {
    e.name@.len() > 0 && e.name@[0] == '.'
}

/// Whether an entry belongs in the listing under the given toggle.
pub open spec fn visible(e: DirectoryEntry, show_hidden: bool) -> bool {
    show_hidden || !is_hidden(e)
}

/// The visibility test as a predicate, for filtering a listing.
pub open spec fn visible_pred(show_hidden: bool) -> spec_fn(DirectoryEntry) -> bool {
    |e: DirectoryEntry| visible(e, show_hidden)
}

/// Filtering one more element keeps the filtered prefix and appends the
/// element exactly when the predicate holds of it.
pub proof fn lemma_filter_push(s: Seq<DirectoryEntry>, pred: spec_fn(DirectoryEntry) -> bool, e: DirectoryEntry)
    ensures
        s.push(e).filter(pred) == if pred(e) {
            s.filter(pred).push(e)
        } else {
            s.filter(pred)
        },
{
    reveal(Seq::filter);
    assert(s.push(e).drop_last() =~= s);
    assert(s.push(e).last() == e);
}

/// Any two names are comparable.
pub proof fn lemma_name_le_total(a: Seq<char>, b: Seq<char>)
    ensures
        name_le(a, b) || name_le(b, a),
    decreases a.len(),
{
    if a.len() == 0 {
    } else if b.len() == 0 {
    } else if fold_char(a[0]) == fold_char(b[0]) {
        lemma_name_le_total(a.drop_first(), b.drop_first());
    }
}

/// The name order is transitive.
pub proof fn lemma_name_le_trans(a: Seq<char>, b: Seq<char>, c: Seq<char>)
    requires
        name_le(a, b),
        name_le(b, c),
    ensures
        name_le(a, c),
    decreases a.len(),
{
    if a.len() == 0 {
    } else {
        assert(b.len() > 0);
        assert(c.len() > 0);
        if fold_char(a[0]) == fold_char(b[0]) && fold_char(b[0]) == fold_char(c[0]) {
            lemma_name_le_trans(a.drop_first(), b.drop_first(), c.drop_first());
        }
    }
}

/// Any two entries are comparable in the listing order.
pub proof fn lemma_entry_le_total(a: DirectoryEntry, b: DirectoryEntry)
    ensures
        entry_le(a, b) || entry_le(b, a),
{
    if is_dir(a) == is_dir(b) {
        lemma_name_le_total(a.name@, b.name@);
    }
}

/// The listing order is transitive.
pub proof fn lemma_entry_le_trans(a: DirectoryEntry, b: DirectoryEntry, c: DirectoryEntry)
    requires
        entry_le(a, b),
        entry_le(b, c),
    ensures
        entry_le(a, c),
{
    if is_dir(a) == is_dir(b) && is_dir(b) == is_dir(c) {
        lemma_name_le_trans(a.name@, b.name@, c.name@);
    }
}

fn fold_char_exec(c: char) -> (r: u32)
    ensures
        r == fold_char(c),
{
    let u = c as u32;
    if 65 <= u && u <= 90 {
        u + 32
    } else {
        u
    }
}

/// Compares two names in case-insensitive lexicographic order.
pub fn name_le_exec(a: &str, b: &str) -> (r: bool)
    ensures
        r == name_le(a@, b@),
{
    let la = a.unicode_len();
    let lb = b.unicode_len();
    let mut i: usize = 0;
    proof {
        assert(a@.skip(0) =~= a@);
        assert(b@.skip(0) =~= b@);
    }
    while i < la && i < lb
        invariant
            0 <= i <= la,
            0 <= i <= lb,
            la == a@.len(),
            lb == b@.len(),
            name_le(a@, b@) == name_le(a@.skip(i as int), b@.skip(i as int)),
        decreases la - i,
    {
        let fa = fold_char_exec(a.get_char(i));
        let fb = fold_char_exec(b.get_char(i));
        proof {
            assert(a@.skip(i as int)[0] == a@[i as int]);
            assert(b@.skip(i as int)[0] == b@[i as int]);
        }
        if fa < fb {
            return true;
        }
        if fa > fb {
            return false;
        }
        proof {
            assert(a@.skip(i as int).drop_first() =~= a@.skip(i + 1));
            assert(b@.skip(i as int).drop_first() =~= b@.skip(i + 1));
        }
        i = i + 1;
    }
    if i >= la {
        proof {
            assert(a@.skip(i as int).len() == 0);
        }
        true
    } else {
        proof {
            assert(b@.skip(i as int).len() == 0);
            assert(a@.skip(i as int).len() > 0);
        }
        false
    }
}

/// Compares two entries in the listing order.
pub fn entry_le_exec(a: &DirectoryEntry, b: &DirectoryEntry) -> (r: bool)
    ensures
        r == entry_le(*a, *b),
{
    let ad = match a.kind {
        EntryKind::Directory => true,
        EntryKind::File => false,
    };
    let bd = match b.kind {
        EntryKind::Directory => true,
        EntryKind::File => false,
    };
    if ad != bd {
        ad
    } else {
        name_le_exec(a.name.as_str(), b.name.as_str())
    }
}

/// Whether an entry's name begins with a dot.
pub fn is_hidden_exec(e: &DirectoryEntry) -> (r: bool)
    ensures
        r == is_hidden(*e),
{
    let n = e.name.as_str();
    n.unicode_len() > 0 && n.get_char(0) == '.'
}

/// Places `e` into a sorted listing, after every entry at or before it in
/// the listing order, and returns the position it was placed at.
fn insert_sorted(out: &mut Vec<DirectoryEntry>, e: DirectoryEntry) -> (j: usize)
    requires
        listing_sorted(old(out)@),
    ensures
        j <= old(out)@.len(),
        final(out)@ == old(out)@.insert(j as int, e),
        listing_sorted(final(out)@),
{
    let ghost orig = out@;
    let mut j: usize = 0;
    while j < out.len() && entry_le_exec(&out[j], &e)
        invariant
            0 <= j <= out@.len(),
            out@ == orig,
            forall|k: int| 0 <= k < j ==> entry_le(#[trigger] out@[k], e),
        decreases out@.len() - j,
    {
        j = j + 1;
    }
    proof {
        if (j as int) < orig.len() {
            lemma_entry_le_total(orig[j as int], e);
            assert(entry_le(e, orig[j as int]));
        }
        assert forall|k: int| j <= k < orig.len() implies entry_le(e, #[trigger] orig[k]) by {
            if j < k {
                assert(entry_le(orig[j as int], orig[k]));
                lemma_entry_le_trans(e, orig[j as int], orig[k]);
            }
        }
    }
    out.insert(j, e);
    proof {
        let now = out@;
        assert forall|p: int, q: int| 0 <= p < q < now.len() implies entry_le(
            #[trigger] now[p],
            #[trigger] now[q],
        ) by {
            if q < j {
                assert(now[p] == orig[p] && now[q] == orig[q]);
            } else if q == j {
                assert(now[p] == orig[p] && now[q] == e);
            } else {
                assert(now[q] == orig[q - 1]);
                if p < j {
                    assert(now[p] == orig[p]);
                    if p == q - 1 {
                        assert(entry_le(e, orig[q - 1]));
                        assert(entry_le(orig[p], e));
                        lemma_entry_le_trans(orig[p], e, orig[q - 1]);
                    }
                } else if p == j {
                    assert(now[p] == e);
                } else {
                    assert(now[p] == orig[p - 1]);
                }
            }
        }
    }
    j
}

/// Builds the presented listing from the raw children of a directory:
/// entries hidden by the toggle are dropped, and what remains is ordered
/// with every directory before every file and case-insensitive names
/// ascending within each kind.
pub fn scan(entries: Vec<DirectoryEntry>, show_hidden: bool) -> (r: Vec<DirectoryEntry>)
    ensures
        listing_sorted(r@),
        r@.to_multiset() == entries@.filter(visible_pred(show_hidden)).to_multiset(),
        forall|i: int| 0 <= i < r@.len() ==> visible(#[trigger] r@[i], show_hidden),
{
    broadcast use vstd::seq_lib::to_multiset_build;

    let ghost pred = visible_pred(show_hidden);
    let mut src = entries;
    let mut out: Vec<DirectoryEntry> = Vec::new();
    let ghost all = src@;
    let ghost mut done = Seq::<DirectoryEntry>::empty();
    proof {
        reveal(Seq::filter);
        assert(all =~= done + src@);
        assert(done.filter(pred) =~= Seq::<DirectoryEntry>::empty());
        assert(out@.to_multiset() =~= done.filter(pred).to_multiset());
    }
    while src.len() > 0
        invariant
            pred == visible_pred(show_hidden),
            all =~= done + src@,
            listing_sorted(out@),
            out@.to_multiset() == done.filter(pred).to_multiset(),
            forall|i: int| 0 <= i < out@.len() ==> visible(#[trigger] out@[i], show_hidden),
        decreases src@.len(),
    {
        let ghost prev_src = src@;
        let e = src.remove(0);
        proof {
            assert(done.push(e) + src@ =~= done + prev_src);
            lemma_filter_push(done, pred, e);
        }
        let keep = if show_hidden { true } else { !is_hidden_exec(&e) };
        if keep {
            let ghost before = out@;
            let j = insert_sorted(&mut out, e);
            proof {
                broadcast use vstd::seq_lib::to_multiset_insert;

                assert(out@ == before.insert(j as int, e));
                assert(out@.to_multiset() == before.to_multiset().insert(e));
                assert(pred(e));
                assert(done.push(e).filter(pred) == done.filter(pred).push(e));
                to_multiset_build(done.filter(pred), e);
                assert(done.push(e).filter(pred).to_multiset() == done.filter(pred).to_multiset().insert(e));
                assert forall|i: int| 0 <= i < out@.len() implies visible(#[trigger] out@[i], show_hidden) by {
                    if i < j {
                        assert(out@[i] == before[i]);
                    } else if i == j {
                        assert(out@[i] == e);
                    } else {
                        assert(out@[i] == before[i - 1]);
                    }
                }
            }
        } else {
            proof {
                assert(!pred(e));
                assert(done.push(e).filter(pred) == done.filter(pred));
            }
        }
        proof {
            done = done.push(e);
        }
    }
    proof {
        assert(done =~= all);
    }
    out
}

/// What the listing order means, spelled out: in a sorted listing no file
/// stands before any directory, and within one kind the names never
/// decrease under case-insensitive comparison.
pub proof fn lemma_sorted_listing_shape(s: Seq<DirectoryEntry>)
    requires
        listing_sorted(s),
    ensures
        forall|i: int, j: int| 0 <= i < j < s.len() && is_dir(#[trigger] s[j]) ==> is_dir(#[trigger] s[i]),
        forall|i: int, j: int|
            0 <= i < j < s.len() && is_dir(#[trigger] s[i]) == is_dir(#[trigger] s[j])
                ==> name_le(s[i].name@, s[j].name@),
{
    assert forall|i: int, j: int|
        0 <= i < j < s.len() && is_dir(#[trigger] s[j]) implies is_dir(#[trigger] s[i]) by {
        assert(entry_le(s[i], s[j]));
    }
    assert forall|i: int, j: int|
        0 <= i < j < s.len() && is_dir(#[trigger] s[i]) == is_dir(#[trigger] s[j]) implies name_le(
        s[i].name@,
        s[j].name@,
    ) by {
        assert(entry_le(s[i], s[j]));
    }
}

/// With the hidden-files toggle on, the visibility filter keeps everything.
pub proof fn lemma_filter_show_all(s: Seq<DirectoryEntry>)
    ensures
        s.filter(visible_pred(true)) == s,
    decreases s.len(),
{
    reveal(Seq::filter);
    if s.len() > 0 {
        lemma_filter_show_all(s.drop_last());
        assert(s.filter(visible_pred(true)) =~= s.drop_last().push(s.last()));
        assert(s.drop_last().push(s.last()) =~= s);
    }
}

/// Turning the hidden-files toggle on only ever adds entries: every entry of
/// a listing built with the toggle off from some children appears in any
/// listing built with it on from the same children.
pub proof fn lemma_hidden_superset(
    entries: Seq<DirectoryEntry>,
    r_off: Seq<DirectoryEntry>,
    r_on: Seq<DirectoryEntry>,
    x: DirectoryEntry,
)
    requires
        r_off.to_multiset() == entries.filter(visible_pred(false)).to_multiset(),
        r_on.to_multiset() == entries.filter(visible_pred(true)).to_multiset(),
        r_off.contains(x),
    ensures
        r_on.contains(x),
{
    broadcast use vstd::seq_lib::group_to_multiset_ensures;

    lemma_filter_show_all(entries);
    assert(r_off.to_multiset().count(x) > 0);
    assert(entries.filter(visible_pred(false)).contains(x));
    entries.lemma_filter_contains_rev(visible_pred(false), x);
    assert(entries.contains(x));
    assert(r_on.to_multiset().count(x) > 0);
}

/// Builds one entry from a child's name and what its metadata gave, as the
/// scanner records it: an unreadable metadata block yields a file of unknown
/// size and date, and a directory carries no size.
pub fn entry_from_metadata(name: String, meta: Option<(bool, u64, Option<i64>)>) -> (e: DirectoryEntry)
    ensures
        e.name == name,
        match meta {
            Some((d, len, m)) => {
                &&& e.kind == (if d { EntryKind::Directory } else { EntryKind::File })
                &&& e.size == (if d { None::<u64> } else { Some(len) })
                &&& e.modified == m
            },
            None => e.kind == EntryKind::File && e.size is None && e.modified is None,
        },
{
    match meta {
        Some((d, len, m)) => DirectoryEntry {
            name,
            kind: if d { EntryKind::Directory } else { EntryKind::File },
            size: if d { None } else { Some(len) },
            modified: m,
        },
        None => DirectoryEntry { name, kind: EntryKind::File, size: None, modified: None },
    }
}

} // verus!
