//! The navigation engine: the single owner of "where the browser is".
//! It keeps the current location, two bounded-by-memory history stacks
//! (back and forward), and the listing of the current location. Every move
//! either commits fully — location, stacks and listing together — or, when
//! the scan of the target failed, leaves everything as it was and records
//! the error.
//!
//! Reading a directory is the caller's task: each move takes the outcome of
//! scanning the target as an argument, so the engine itself is pure state
//! logic and is verified for every outcome of the scan.

use crate::listing::DirectoryEntry;
use vstd::prelude::*;
use vstd::string::*;

verus! {

/// A directory that could not be opened: the message carries the
/// underlying cause, for the caller to surface.
pub struct ScanError {
    pub message: String,
}

/// The abstract navigation state: the current location and the two
/// history stacks, newest entry last.
#[verifier::ext_equal]
pub ghost struct NavState {
    pub loc: Seq<char>,
    pub back: Seq<Seq<char>>,
    pub fwd: Seq<Seq<char>>,
}

/// A real navigation: the old location is remembered on the back stack and
/// the forward stack is cleared; without recording, only the location moves.
pub open spec fn nav_to(s: NavState, p: Seq<char>, record: bool) -> NavState {
    if record {
        NavState { loc: p, back: s.back.push(s.loc), fwd: Seq::empty() }
    } else {
        NavState { loc: p, back: s.back, fwd: s.fwd }
    }
}

/// One step back: the top of the back stack becomes the location and the
/// old location moves to the forward stack. With no history, no change.
pub open spec fn nav_back(s: NavState) -> NavState {
    if s.back.len() == 0 {
        s
    } else {
        NavState { loc: s.back.last(), back: s.back.drop_last(), fwd: s.fwd.push(s.loc) }
    }
}

/// One step forward, the mirror of `nav_back`.
pub open spec fn nav_forward(s: NavState) -> NavState {
    if s.fwd.len() == 0 {
        s
    } else {
        NavState { loc: s.fwd.last(), back: s.back.push(s.loc), fwd: s.fwd.drop_last() }
    }
}

/// `k` back steps in a row.
pub open spec fn nav_back_k(s: NavState, k: nat) -> NavState
    decreases k,
{
    if k == 0 {
        s
    } else {
        nav_back_k(nav_back(s), (k - 1) as nat)
    }
}

/// `k` forward steps in a row.
pub open spec fn nav_forward_k(s: NavState, k: nat) -> NavState
    decreases k,
{
    if k == 0 {
        s
    } else {
        nav_forward_k(nav_forward(s), (k - 1) as nat)
    }
}

/// One forward step exactly undoes one back step whenever there is history
/// to go back to.
pub proof fn lemma_back_then_forward(s: NavState)
    requires
        s.back.len() > 0,
    ensures
        nav_forward(nav_back(s)) == s,
{
    let t = nav_back(s);
    assert(t.fwd.len() > 0);
    assert(t.fwd.last() == s.loc);
    assert(t.fwd.drop_last() =~= s.fwd);
    assert(t.back.push(t.loc) =~= s.back);
    assert(nav_forward(t) =~= s);
}

/// History symmetry: after any `k` back steps within the depth of the back
/// stack, `k` forward steps restore the location and both stacks exactly.
pub proof fn lemma_history_symmetry(s: NavState, k: nat)
    requires
        k <= s.back.len(),
    ensures
        nav_forward_k(nav_back_k(s, k), k) == s,
    decreases k,
{
    if k > 0 {
        let t = nav_back(s);
        assert(t.back.len() == s.back.len() - 1);
        lemma_history_symmetry(t, (k - 1) as nat);
        assert(nav_back_k(s, k) == nav_back_k(t, (k - 1) as nat));
        assert(nav_forward_k(nav_back_k(t, (k - 1) as nat), (k - 1) as nat) == t);
        lemma_nav_forward_k_unfold_last(nav_back_k(s, k), (k - 1) as nat);
        lemma_back_then_forward(s);
    }
}

/// Peeling the last of `k + 1` forward steps off the end.
proof fn lemma_nav_forward_k_unfold_last(s: NavState, k: nat)
    ensures
        nav_forward_k(s, k + 1) == nav_forward(nav_forward_k(s, k)),
    decreases k,
{
    assert(nav_forward_k(s, k + 1) == nav_forward_k(nav_forward(s), k));
    if k == 0 {
        assert(nav_forward_k(nav_forward(s), 0) == nav_forward(s));
        assert(nav_forward_k(s, 0) == s);
    } else {
        lemma_nav_forward_k_unfold_last(nav_forward(s), (k - 1) as nat);
        assert(nav_forward_k(s, k) == nav_forward_k(nav_forward(s), (k - 1) as nat));
    }
}

/// Forward-clear: a recorded navigation right after a back step leaves
/// nothing to go forward to.
pub proof fn lemma_forward_clear(s: NavState, p: Seq<char>)
    ensures
        nav_to(nav_back(s), p, true).fwd.len() == 0,
{
}

/// Index of the last `'/'` of `p`, if any.
pub open spec fn last_slash(p: Seq<char>) -> Option<int>
    decreases p.len(),
{
    if p.len() == 0 {
        None
    } else if p.last() == '/' {
        Some(p.len() - 1)
    } else {
        last_slash(p.drop_last())
    }
}

/// The parent of a path: the prefix before the last slash, the root for a
/// top-level entry, and nothing for the root itself or a bare name without
/// any slash.
pub open spec fn spec_parent(p: Seq<char>) -> Option<Seq<char>> {
    match last_slash(p) {
        None => None,
        Some(j) => if j == 0 {
            if p.len() == 1 {
                None
            } else {
                Some(seq!['/'])
            }
        } else {
            Some(p.take(j))
        },
    }
}

/// Computes the parent path of `p`, as `spec_parent` describes it.
pub fn parent_of(p: &str) -> (r: Option<String>)
    ensures
        match r {
            None => spec_parent(p@) is None,
            Some(q) => spec_parent(p@) == Some(q@),
        },
{
    let n = p.unicode_len();
    let mut i: usize = n;
    proof {
        assert(p@.take(n as int) =~= p@);
    }
    while i > 0
        invariant
            0 <= i <= n,
            n == p@.len(),
            last_slash(p@) == last_slash(p@.take(i as int)),
        decreases i,
    {
        let c = p.get_char(i - 1);
        proof {
            assert(p@.take(i as int).last() == p@[i - 1]);
            assert(p@.take(i as int).drop_last() =~= p@.take(i - 1));
        }
        if c == '/' {
            if i - 1 == 0 {
                if n == 1 {
                    return None;
                } else {
                    let root = String::from_str("/");
                    proof {
                        reveal_strlit("/");
                        assert(root@ =~= seq!['/']);
                    }
                    return Some(root);
                }
            } else {
                let q = String::from_str(p.substring_char(0, i - 1));
                proof {
                    assert(q@ =~= p@.take(i - 1));
                }
                return Some(q);
            }
        }
        i = i - 1;
    }
    proof {
        assert(p@.take(0) =~= Seq::<char>::empty());
    }
    None
}

/// What a click on a listing entry asks the caller to do: enter the entry
/// as a directory, or hand it to the outside opener.
#[derive(Clone, Copy, PartialEq, Eq, Structural, Debug)]
pub enum Activation {
    Navigate,
    Open,
}

/// What a click on an entry requests: directories are entered, files are
/// handed to the caller's opener.
pub fn activation_of(e: &DirectoryEntry) -> (r: Activation)
    ensures
        r == (if crate::listing::is_dir(*e) { Activation::Navigate } else { Activation::Open }),
{
    match e.kind {
        crate::listing::EntryKind::Directory => Activation::Navigate,
        crate::listing::EntryKind::File => Activation::Open,
    }
}

/// The path of a child of `dir`: the directory, one separating slash, and
/// the child's name.
pub fn child_path(dir: &str, name: &str) -> (r: String)
    ensures
        dir@.len() > 0 && dir@.last() == '/' ==> r@ == dir@ + name@,
        !(dir@.len() > 0 && dir@.last() == '/') ==> r@ == dir@ + seq!['/'] + name@,
{
    let n = dir.unicode_len();
    let mut s = String::from_str(dir);
    if n == 0 || dir.get_char(n - 1) != '/' {
        s.append("/");
    }
    s.append(name);
    proof {
        reveal_strlit("/");
        if dir@.len() > 0 && dir@.last() == '/' {
            assert(s@ =~= dir@ + name@);
        } else {
            assert("/"@ =~= seq!['/']);
            assert(s@ =~= dir@ + seq!['/'] + name@);
        }
    }
    s
}

/// The browser session state. `listing` always belongs to `location`;
/// `last_error` carries the message of the most recent failed scan.
pub struct Browser {
    pub location: String,
    pub back: Vec<String>,
    pub forward: Vec<String>,
    pub listing: Vec<DirectoryEntry>,
    pub last_error: Option<String>,
}

impl Browser {
    /// The abstract navigation state of this browser.
    pub open spec fn nav(self) -> NavState {
        NavState { loc: self.location@, back: self.back.deep_view(), fwd: self.forward.deep_view() }
    }

    /// Opens a session at `start`. The listing is what scanning `start`
    /// gave; a failed scan leaves an empty listing and the error message.
    pub fn new(start: String, scan: Result<Vec<DirectoryEntry>, ScanError>) -> (r: Browser)
        ensures
            r.nav() == (NavState {
                loc: start@,
                back: Seq::<Seq<char>>::empty(),
                fwd: Seq::<Seq<char>>::empty(),
            }),
            match scan {
                Ok(l) => r.listing == l && r.last_error is None,
                Err(e) => r.listing@.len() == 0 && r.last_error == Some(e.message),
            },
    {
        let (listing, last_error) = match scan {
            Ok(l) => (l, None),
            Err(e) => (Vec::new(), Some(e.message)),
        };
        let r = Browser { location: start, back: Vec::new(), forward: Vec::new(), listing, last_error };
        proof {
            assert(r.back.deep_view() =~= Seq::<Seq<char>>::empty());
            assert(r.forward.deep_view() =~= Seq::<Seq<char>>::empty());
        }
        r
    }

    /// Moves to `path`, given the outcome of scanning `path`. On success the
    /// location, stacks and listing commit together; on failure nothing
    /// changes but the recorded error message.
    pub fn navigate_to(&mut self, path: String, record: bool, scan: Result<Vec<DirectoryEntry>, ScanError>)
        ensures
            match scan {
                Ok(l) => {
                    &&& final(self).nav() == nav_to(old(self).nav(), path@, record)
                    &&& final(self).listing == l
                    &&& final(self).last_error is None
                },
                Err(e) => {
                    &&& final(self).nav() == old(self).nav()
                    &&& final(self).listing == old(self).listing
                    &&& final(self).last_error == Some(e.message)
                },
            },
    {
        match scan {
            Ok(l) => {
                if record {
                    let ghost before = self.back.deep_view();
                    self.back.push(self.location.clone());
                    proof {
                        assert(self.back.deep_view() =~= before.push(old(self).location@));
                    }
                    self.forward.clear();
                    proof {
                        assert(self.forward.deep_view() =~= Seq::<Seq<char>>::empty());
                    }
                }
                self.location = path;
                self.listing = l;
                self.last_error = None;
            }
            Err(e) => {
                self.last_error = Some(e.message);
            }
        }
    }

    /// One step back in history, given the outcome of scanning the target
    /// (the top of the back stack). With no history this is a no-op; on a
    /// failed scan nothing changes but the recorded error message.
    pub fn navigate_back(&mut self, scan: Result<Vec<DirectoryEntry>, ScanError>)
        ensures
            old(self).back@.len() == 0 ==> *final(self) == *old(self),
            old(self).back@.len() > 0 ==> match scan {
                Ok(l) => {
                    &&& final(self).nav() == nav_back(old(self).nav())
                    &&& final(self).listing == l
                    &&& final(self).last_error is None
                },
                Err(e) => {
                    &&& final(self).nav() == old(self).nav()
                    &&& final(self).listing == old(self).listing
                    &&& final(self).last_error == Some(e.message)
                },
            },
    {
        if self.back.len() == 0 {
            return;
        }
        match scan {
            Ok(l) => {
                let ghost back_before = self.back.deep_view();
                let ghost fwd_before = self.forward.deep_view();
                let prev = self.back.pop().unwrap();
                self.forward.push(self.location.clone());
                self.location = prev;
                self.listing = l;
                self.last_error = None;
                proof {
                    assert(self.back.deep_view() =~= back_before.drop_last());
                    assert(self.forward.deep_view() =~= fwd_before.push(old(self).location@));
                    assert(self.location@ == back_before.last());
                    assert(final(self).nav() =~= nav_back(old(self).nav()));
                }
            }
            Err(e) => {
                self.last_error = Some(e.message);
            }
        }
    }

    /// One step forward in history, the mirror of `navigate_back`.
    pub fn navigate_forward(&mut self, scan: Result<Vec<DirectoryEntry>, ScanError>)
        ensures
            old(self).forward@.len() == 0 ==> *final(self) == *old(self),
            old(self).forward@.len() > 0 ==> match scan {
                Ok(l) => {
                    &&& final(self).nav() == nav_forward(old(self).nav())
                    &&& final(self).listing == l
                    &&& final(self).last_error is None
                },
                Err(e) => {
                    &&& final(self).nav() == old(self).nav()
                    &&& final(self).listing == old(self).listing
                    &&& final(self).last_error == Some(e.message)
                },
            },
    {
        if self.forward.len() == 0 {
            return;
        }
        match scan {
            Ok(l) => {
                let ghost back_before = self.back.deep_view();
                let ghost fwd_before = self.forward.deep_view();
                let next = self.forward.pop().unwrap();
                self.back.push(self.location.clone());
                self.location = next;
                self.listing = l;
                self.last_error = None;
                proof {
                    assert(self.forward.deep_view() =~= fwd_before.drop_last());
                    assert(self.back.deep_view() =~= back_before.push(old(self).location@));
                    assert(self.location@ == fwd_before.last());
                    assert(final(self).nav() =~= nav_forward(old(self).nav()));
                }
            }
            Err(e) => {
                self.last_error = Some(e.message);
            }
        }
    }

    /// Moves to the parent of the current location, recording history, given
    /// the outcome of scanning that parent. A location without a parent
    /// makes this a no-op, whatever `scan` holds.
    pub fn navigate_up(&mut self, scan: Result<Vec<DirectoryEntry>, ScanError>)
        ensures
            match spec_parent(old(self).location@) {
                None => *final(self) == *old(self),
                Some(pp) => match scan {
                    Ok(l) => {
                        &&& final(self).nav() == nav_to(old(self).nav(), pp, true)
                        &&& final(self).listing == l
                        &&& final(self).last_error is None
                    },
                    Err(e) => {
                        &&& final(self).nav() == old(self).nav()
                        &&& final(self).listing == old(self).listing
                        &&& final(self).last_error == Some(e.message)
                    },
                },
            },
    {
        let parent = parent_of(self.location.as_str());
        match parent {
            None => {},
            Some(pp) => self.navigate_to(pp, true, scan),
        }
    }

    /// The path a back step would move to, if any: what the caller should
    /// scan before calling `navigate_back`.
    pub fn back_target(&self) -> (r: Option<String>)
        ensures
            match r {
                Some(p) => self.back@.len() > 0 && p == self.back@[self.back@.len() - 1],
                None => self.back@.len() == 0,
            },
    {
        if self.back.len() == 0 {
            None
        } else {
            Some(self.back[self.back.len() - 1].clone())
        }
    }

    /// The path a forward step would move to, if any: what the caller
    /// should scan before calling `navigate_forward`.
    pub fn forward_target(&self) -> (r: Option<String>)
        ensures
            match r {
                Some(p) => self.forward@.len() > 0 && p == self.forward@[self.forward@.len() - 1],
                None => self.forward@.len() == 0,
            },
    {
        if self.forward.len() == 0 {
            None
        } else {
            Some(self.forward[self.forward.len() - 1].clone())
        }
    }
}

} // verus!
