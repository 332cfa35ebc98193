//! Decimal text: rendering an integer as its decimal digits, parsing digits
//! back, and plain string comparison. These are the building blocks of the
//! config store and the presentation formatter.

use vstd::prelude::*;
use vstd::string::*;

verus! {

/// Decimal digit character for a value below ten.
pub open spec fn digit_char(d: nat) -> char {
    if d == 0 { '0' }
    else if d == 1 { '1' }
    else if d == 2 { '2' }
    else if d == 3 { '3' }
    else if d == 4 { '4' }
    else if d == 5 { '5' }
    else if d == 6 { '6' }
    else if d == 7 { '7' }
    else if d == 8 { '8' }
    else { '9' }
}

/// The decimal rendering of `n`, most significant digit first, no sign,
/// no leading zeros (a single `'0'` for zero).
pub open spec fn digits_of(n: nat) -> Seq<char>
    decreases n,
{
    if n < 10 {
        seq![digit_char(n)]
    } else {
        digits_of(n / 10).push(digit_char(n % 10))
    }
}

/// Whether `c` is a decimal digit.
pub open spec fn is_digit(c: char) -> bool {
    48 <= c as u32 <= 57
}

/// Numeric value of a digit character.
pub open spec fn digit_val(c: char) -> nat {
    (c as u32 - 48) as nat
}

/// Whether every character of `s` is a decimal digit.
pub open spec fn all_digits(s: Seq<char>) -> bool {
    forall|i: int| 0 <= i < s.len() ==> is_digit(#[trigger] s[i])
}

/// The number denoted by a sequence of digit characters, base ten.
pub open spec fn val_of_digits(s: Seq<char>) -> nat
    decreases s.len(),
{
    if s.len() == 0 {
        0
    } else {
        val_of_digits(s.drop_last()) * 10 + digit_val(s.last())
    }
}

fn digit_str(d: u64) -> (r: &'static str)
    requires
        d < 10,
    ensures
        r@ =~= seq![digit_char(d as nat)],
{
    if d == 0 { proof { reveal_strlit("0"); } "0" }
    else if d == 1 { proof { reveal_strlit("1"); } "1" }
    else if d == 2 { proof { reveal_strlit("2"); } "2" }
    else if d == 3 { proof { reveal_strlit("3"); } "3" }
    else if d == 4 { proof { reveal_strlit("4"); } "4" }
    else if d == 5 { proof { reveal_strlit("5"); } "5" }
    else if d == 6 { proof { reveal_strlit("6"); } "6" }
    else if d == 7 { proof { reveal_strlit("7"); } "7" }
    else if d == 8 { proof { reveal_strlit("8"); } "8" }
    else { proof { reveal_strlit("9"); } "9" }
}

/// Renders `n` in decimal.
pub fn u64_to_string(n: u64) -> (s: String)
    ensures
        s@ == digits_of(n as nat),
    decreases n,
{
    if n < 10 {
        String::from_str(digit_str(n))
    } else {
        let mut s = u64_to_string(n / 10);
        s.append(digit_str(n % 10));
        proof {
            assert(s@ =~= digits_of((n / 10) as nat).push(digit_char((n % 10) as nat)));
        }
        s
    }
}

/// Every character that `digits_of` produces is a digit, the rendering is
/// never empty, and reading it back yields the number it came from.
pub proof fn lemma_digits_of_val(n: nat)
    ensures
        all_digits(digits_of(n)),
        digits_of(n).len() >= 1,
        val_of_digits(digits_of(n)) == n,
    decreases n,
{
    if n < 10 {
        let s = digits_of(n);
        assert(s.len() == 1);
        assert(s.last() == digit_char(n));
        assert(s.drop_last() =~= Seq::<char>::empty());
        assert(val_of_digits(s.drop_last()) == 0);
        assert(val_of_digits(s) == 0 * 10 + digit_val(digit_char(n)));
    } else {
        lemma_digits_of_val(n / 10);
        let s = digits_of(n);
        let p = digits_of(n / 10);
        assert(s == p.push(digit_char(n % 10)));
        assert(s.drop_last() =~= p);
        assert(s.last() == digit_char(n % 10));
        assert(val_of_digits(s) == val_of_digits(p) * 10 + digit_val(digit_char(n % 10)));
        assert(digit_val(digit_char(n % 10)) == n % 10);
        assert(forall|i: int| 0 <= i < s.len() ==> is_digit(#[trigger] s[i])) by {
            assert(forall|i: int| 0 <= i < p.len() ==> is_digit(#[trigger] p[i]));
            assert(forall|i: int| 0 <= i < s.len() ==> s[i] == (if i < p.len() { p[i] } else { digit_char(n % 10) }));
        }
    }
}

/// Appending one digit multiplies the value by ten and adds that digit.
pub proof fn lemma_val_push(s: Seq<char>, c: char)
    ensures
        val_of_digits(s.push(c)) == val_of_digits(s) * 10 + digit_val(c),
{
    assert(s.push(c).drop_last() =~= s);
    assert(s.push(c).last() == c);
}

/// A longer digit string never denotes a smaller number.
pub proof fn lemma_val_prefix_le(s: Seq<char>, i: int)
    requires
        0 <= i <= s.len(),
    ensures
        val_of_digits(s.take(i)) <= val_of_digits(s),
    decreases s.len() - i,
{
    if i < s.len() {
        lemma_val_prefix_le(s, i + 1);
        assert(s.take(i + 1).drop_last() =~= s.take(i));
        assert(val_of_digits(s.take(i + 1))
            == val_of_digits(s.take(i)) * 10 + digit_val(s.take(i + 1).last()));
        assert(val_of_digits(s.take(i)) <= val_of_digits(s.take(i)) * 10);
    } else {
        assert(s.take(i) =~= s);
    }
}

/// Parses a non-empty, all-digit string as a base-ten number. Returns `None`
/// on an empty string, a non-digit character, or a value above `u64::MAX`.
pub fn parse_u64(s: &str) -> (r: Option<u64>)
    ensures
        r is Some <==> s@.len() > 0 && all_digits(s@) && val_of_digits(s@) <= u64::MAX,
        r is Some ==> r->Some_0 as nat == val_of_digits(s@),
{
    let n = s.unicode_len();
    if n == 0 {
        return None;
    }
    let mut acc: u64 = 0;
    let mut i: usize = 0;
    while i < n
        invariant
            0 <= i <= n,
            n == s@.len(),
            all_digits(s@.take(i as int)),
            acc as nat == val_of_digits(s@.take(i as int)),
        decreases n - i,
    {
        let c = s.get_char(i);
        let u = c as u32;
        if u < 48 || u > 57 {
            proof {
                assert(s@[i as int] == c);
                assert(!is_digit(s@[i as int]));
            }
            return None;
        }
        let d = (u - 48) as u64;
        if acc > (u64::MAX - d) / 10 {
            proof {
                lemma_val_push(s@.take(i as int), c);
                assert(s@.take(i as int).push(c) =~= s@.take(i + 1));
                assert(val_of_digits(s@.take(i + 1)) == acc as nat * 10 + d);
                assert(acc as nat * 10 + d > u64::MAX) by (nonlinear_arith)
                    requires acc > (u64::MAX - d) / 10, d <= 9,
                {
                }
                lemma_val_prefix_le(s@, i + 1);
            }
            return None;
        }
        proof {
            lemma_val_push(s@.take(i as int), c);
            assert(s@.take(i as int).push(c) =~= s@.take(i + 1));
            assert(acc as nat * 10 + d <= u64::MAX) by (nonlinear_arith)
                requires acc <= (u64::MAX - d) / 10, d <= 9,
            {
            }
        }
        acc = acc * 10 + d;
        i = i + 1;
    }
    proof {
        assert(s@.take(n as int) =~= s@);
    }
    Some(acc)
}

/// A leading zero does not change the number a digit string denotes.
pub proof fn lemma_val_leading_zero(s: Seq<char>)
    ensures
        val_of_digits(seq!['0'] + s) == val_of_digits(s),
    decreases s.len(),
{
    if s.len() == 0 {
        assert(seq!['0'] + s =~= seq!['0']);
        assert((seq!['0']).len() == 1);
        assert((seq!['0']).last() == '0');
        assert((seq!['0']).drop_last() =~= Seq::<char>::empty());
        assert(val_of_digits(Seq::<char>::empty()) == 0);
        assert(val_of_digits(seq!['0']) == val_of_digits((seq!['0']).drop_last()) * 10 + digit_val((seq!['0']).last()));
        assert(digit_val('0') == 0);
    } else {
        assert((seq!['0'] + s).drop_last() =~= seq!['0'] + s.drop_last());
        assert((seq!['0'] + s).last() == s.last());
        lemma_val_leading_zero(s.drop_last());
    }
}

/// Nothing before `end` in `s` is the character `ch`.
pub open spec fn free_of(s: Seq<char>, ch: char, end: int) -> bool {
    forall|k: int| 0 <= k < end ==> s[k] != ch
}

/// Index of the first occurrence of `ch` in `s`, if any.
pub open spec fn find_first(s: Seq<char>, ch: char) -> Option<int>
    decreases s.len(),
{
    if s.len() == 0 {
        None
    } else if s[0] == ch {
        Some(0)
    } else {
        match find_first(s.drop_first(), ch) {
            None => None,
            Some(k) => Some(k + 1),
        }
    }
}

/// The first occurrence is where the character first stands.
pub proof fn lemma_find_first_at(s: Seq<char>, ch: char, i: int)
    requires
        0 <= i < s.len(),
        s[i] == ch,
        free_of(s, ch, i),
    ensures
        find_first(s, ch) == Some(i),
    decreases i,
{
    if i > 0 {
        assert(s[0] != ch);
        let d = s.drop_first();
        assert(d[i - 1] == ch);
        assert forall|k: int| 0 <= k < i - 1 implies d[k] != ch by {
            assert(d[k] == s[k + 1]);
        }
        lemma_find_first_at(d, ch, i - 1);
    }
}

/// A string without the character has no first occurrence of it.
pub proof fn lemma_find_first_none(s: Seq<char>, ch: char)
    requires
        free_of(s, ch, s.len() as int),
    ensures
        find_first(s, ch) is None,
    decreases s.len(),
{
    if s.len() > 0 {
        let d = s.drop_first();
        assert forall|k: int| 0 <= k < d.len() implies d[k] != ch by {
            assert(d[k] == s[k + 1]);
        }
        lemma_find_first_none(d, ch);
    }
}

/// Finds the first occurrence of `ch` in `s`.
pub fn find_char(s: &str, ch: char) -> (r: Option<usize>)
    ensures
        match r {
            Some(j) => {
                &&& find_first(s@, ch) == Some(j as int)
                &&& 0 <= j < s@.len()
                &&& s@[j as int] == ch
                &&& free_of(s@, ch, j as int)
            },
            None => find_first(s@, ch) is None && free_of(s@, ch, s@.len() as int),
        },
{
    let n = s.unicode_len();
    let mut i: usize = 0;
    while i < n
        invariant
            0 <= i <= n,
            n == s@.len(),
            free_of(s@, ch, i as int),
        decreases n - i,
    {
        if s.get_char(i) == ch {
            proof {
                lemma_find_first_at(s@, ch, i as int);
            }
            return Some(i);
        }
        i = i + 1;
    }
    proof {
        lemma_find_first_none(s@, ch);
    }
    None
}

/// A digit string is free of any character that is not a digit.
pub proof fn lemma_digits_free_of(s: Seq<char>, ch: char)
    requires
        all_digits(s),
        !(48 <= ch as u32 <= 57),
    ensures
        free_of(s, ch, s.len() as int),
{
    assert forall|k: int| 0 <= k < s.len() implies s[k] != ch by {
        assert(is_digit(s[k]));
    }
}

/// Whether two strings hold the same characters.
pub fn str_eq(a: &str, b: &str) -> (r: bool)
    ensures
        r == (a@ == b@),
{
    let na = a.unicode_len();
    let nb = b.unicode_len();
    if na != nb {
        return false;
    }
    let mut i: usize = 0;
    while i < na
        invariant
            0 <= i <= na,
            na == a@.len(),
            na == b@.len(),
            forall|j: int| 0 <= j < i ==> a@[j] == b@[j],
        decreases na - i,
    {
        if a.get_char(i) != b.get_char(i) {
            return false;
        }
        i = i + 1;
    }
    proof {
        assert(a@ =~= b@);
    }
    true
}

} // verus!
