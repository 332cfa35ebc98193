//! The config store: the persisted display preferences, their line-based
//! `key=value` text form, and a tolerant parser. Loading is best-effort:
//! unknown keys are ignored, an unparseable value leaves its field at the
//! default, and an empty or absent text yields the all-defaults config.
//!
//! Fractional preferences (scale and spacing) are held in thousandths and
//! written as plain decimals, so that saving and loading round-trips them
//! exactly.

use crate::text::{
    all_digits, digit_val, digits_of, find_char, find_first, free_of, is_digit, lemma_digits_free_of,
    lemma_digits_of_val, lemma_find_first_at, lemma_find_first_none, lemma_val_leading_zero,
    parse_u64, str_eq, u64_to_string, val_of_digits,
};
use vstd::prelude::*;
use vstd::string::*;

verus! {

/// The persisted user preferences.
#[derive(Clone, Copy, PartialEq, Eq, Structural, Debug)]
pub struct DisplayConfig {
    /// UI scale factor, in thousandths.
    pub ui_scale_milli: u64,
    /// Grid columns, kept between two and five.
    pub max_items_per_row: u8,
    /// Decorative scanline overlay toggle.
    pub show_scanlines: bool,
    /// Whether dot-files are listed.
    pub show_hidden: bool,
    /// Horizontal grid spacing, in thousandths of a pixel.
    pub horizontal_spacing_milli: u64,
    /// Vertical grid spacing, in thousandths of a pixel.
    pub vertical_spacing_milli: u64,
}

/// A config whose column count is within its bounds.
pub open spec fn config_wf(c: DisplayConfig) -> bool {
    2 <= c.max_items_per_row <= 5
}

/// The all-defaults config.
pub open spec fn spec_default_config() -> DisplayConfig {
    DisplayConfig {
        ui_scale_milli: 1000,
        max_items_per_row: 3,
        show_scanlines: false,
        show_hidden: false,
        horizontal_spacing_milli: 16000,
        vertical_spacing_milli: 12000,
    }
}

/// Builds the all-defaults config.
pub fn default_config() -> (c: DisplayConfig)
    ensures
        c == spec_default_config(),
        config_wf(c),
{
    DisplayConfig {
        ui_scale_milli: 1000,
        max_items_per_row: 3,
        show_scanlines: false,
        show_hidden: false,
        horizontal_spacing_milli: 16000,
        vertical_spacing_milli: 12000,
    }
}

impl Default for DisplayConfig {
    /// The all-defaults config.
    fn default() -> (c: Self)
        ensures
            c == spec_default_config(),
    {
        default_config()
    }
}

/// A fraction of a thousand as exactly three zero-padded digits.
pub open spec fn frac3(f: nat) -> Seq<char> {
    if f < 10 {
        seq!['0', '0'] + digits_of(f)
    } else if f < 100 {
        seq!['0'] + digits_of(f)
    } else {
        digits_of(f)
    }
}

/// The decimal text of a value held in thousandths: the whole part, and a
/// point with the three-digit fraction only when the fraction is not zero.
pub open spec fn milli_seq(m: nat) -> Seq<char> {
    if m % 1000 == 0 {
        digits_of(m / 1000)
    } else {
        digits_of(m / 1000) + seq!['.'] + frac3(m % 1000)
    }
}

/// Renders a value held in thousandths as its decimal text.
pub fn format_milli(m: u64) -> (r: String)
    ensures
        r@ == milli_seq(m as nat),
{
    let mut s = u64_to_string(m / 1000);
    let f = m % 1000;
    if f == 0 {
        proof {
            assert(s@ =~= milli_seq(m as nat));
        }
        return s;
    }
    s.append(".");
    if f < 10 {
        s.append("00");
    } else if f < 100 {
        s.append("0");
    }
    let d = u64_to_string(f);
    s.append(d.as_str());
    proof {
        reveal_strlit(".");
        reveal_strlit("00");
        reveal_strlit("0");
        assert("."@ =~= seq!['.']);
        assert("00"@ =~= seq!['0', '0']);
        assert("0"@ =~= seq!['0']);
        assert(s@ =~= milli_seq(m as nat));
    }
    s
}

/// Weight of the last digit of a fraction written with `n` digits.
pub open spec fn frac_scale(n: nat) -> nat {
    if n == 1 {
        100
    } else if n == 2 {
        10
    } else if n == 3 {
        1
    } else {
        0
    }
}

/// What a decimal text denotes in thousandths: a plain digit string, or a
/// digit string, a point, and one to three fraction digits. Anything else,
/// or a value above the range, denotes nothing.
pub open spec fn spec_parse_milli(s: Seq<char>) -> Option<u64> {
    match find_first(s, '.') {
        None => if s.len() > 0 && all_digits(s) && val_of_digits(s) * 1000 <= u64::MAX {
            Some((val_of_digits(s) * 1000) as u64)
        } else {
            None
        },
        Some(j) => {
            let ip = s.take(j);
            let fp = s.skip(j + 1);
            if ip.len() > 0 && all_digits(ip) && 1 <= fp.len() <= 3 && all_digits(fp)
                && val_of_digits(ip) * 1000 + val_of_digits(fp) * frac_scale(fp.len()) <= u64::MAX {
                Some((val_of_digits(ip) * 1000 + val_of_digits(fp) * frac_scale(fp.len())) as u64)
            } else {
                None
            }
        },
    }
}

/// A digit string of at most three digits denotes less than a thousand.
proof fn lemma_val_of_three(s: Seq<char>)
    requires
        all_digits(s),
        s.len() <= 3,
    ensures
        val_of_digits(s) < 1000,
    decreases s.len(),
{
    if s.len() > 0 {
        let d = s.drop_last();
        assert(all_digits(d)) by {
            assert(forall|k: int| 0 <= k < d.len() ==> d[k] == s[k]);
        }
        lemma_val_of_three(d);
        assert(is_digit(s.last()));
        if s.len() == 1 {
            assert(d.len() == 0);
            assert(val_of_digits(d) == 0);
        } else if s.len() == 2 {
            assert(val_of_digits(d) <= 9) by {
                assert(d.len() == 1);
                assert(d.drop_last().len() == 0);
                assert(val_of_digits(d) == val_of_digits(d.drop_last()) * 10 + digit_val(d.last()));
                assert(is_digit(d.last()));
            }
        } else {
            assert(val_of_digits(d) <= 99) by {
                let dd = d.drop_last();
                assert(all_digits(dd)) by {
                    assert(forall|k: int| 0 <= k < dd.len() ==> dd[k] == d[k]);
                }
                assert(dd.len() == 1);
                assert(dd.drop_last().len() == 0);
                assert(val_of_digits(dd) == val_of_digits(dd.drop_last()) * 10 + digit_val(dd.last()));
                assert(is_digit(dd.last()));
                assert(val_of_digits(d) == val_of_digits(dd) * 10 + digit_val(d.last()));
                assert(is_digit(d.last()));
            }
        }
    }
}

/// Reads a decimal text as a value in thousandths.
pub fn parse_milli(s: &str) -> (r: Option<u64>)
    ensures
        r == spec_parse_milli(s@),
{
    let n = s.unicode_len();
    match find_char(s, '.') {
        None => match parse_u64(s) {
            Some(v) => {
                if v <= u64::MAX / 1000 {
                    proof {
                        assert(v * 1000 <= u64::MAX) by (nonlinear_arith)
                            requires v <= u64::MAX / 1000,
                        {
                        }
                    }
                    Some(v * 1000)
                } else {
                    proof {
                        assert(v * 1000 > u64::MAX) by (nonlinear_arith)
                            requires v > u64::MAX / 1000,
                        {
                        }
                    }
                    None
                }
            },
            None => None,
        },
        Some(j) => {
            let ip_str = s.substring_char(0, j);
            let fp_str = s.substring_char(j + 1, n);
            proof {
                assert(ip_str@ =~= s@.take(j as int));
                assert(fp_str@ =~= s@.skip(j + 1));
            }
            let fl = n - (j + 1);
            if fl < 1 || fl > 3 {
                return None;
            }
            match (parse_u64(ip_str), parse_u64(fp_str)) {
                (Some(iv), Some(fv)) => {
                    proof {
                        lemma_val_of_three(fp_str@);
                    }
                    let scale: u64 = if fl == 1 { 100 } else if fl == 2 { 10 } else { 1 };
                    let prod = fv * scale;
                    if iv <= (u64::MAX - prod) / 1000 {
                        proof {
                            assert(iv * 1000 + prod <= u64::MAX) by (nonlinear_arith)
                                requires iv <= (u64::MAX - prod) / 1000, prod <= u64::MAX,
                            {
                            }
                        }
                        Some(iv * 1000 + prod)
                    } else {
                        proof {
                            assert(iv * 1000 + prod > u64::MAX) by (nonlinear_arith)
                                requires iv > (u64::MAX - prod) / 1000, prod <= u64::MAX,
                            {
                            }
                        }
                        None
                    }
                },
                _ => None,
            }
        },
    }
}

/// Saving a value in thousandths and reading it back gives it unchanged.
pub proof fn lemma_milli_round_trip(m: u64)
    ensures
        spec_parse_milli(milli_seq(m as nat)) == Some(m),
{
    let whole = (m as nat) / 1000;
    let f = (m as nat) % 1000;
    let w = digits_of(whole);
    lemma_digits_of_val(whole);
    if f == 0 {
        lemma_digits_free_of(w, '.');
        lemma_find_first_none(w, '.');
        assert(val_of_digits(w) * 1000 == m);
    } else {
        let fs = frac3(f);
        lemma_frac3(f);
        let t = milli_seq(m as nat);
        assert(t =~= w + seq!['.'] + fs);
        let j = w.len() as int;
        lemma_digits_free_of(w, '.');
        assert(free_of(t, '.', j)) by {
            assert(forall|k: int| 0 <= k < j ==> t[k] == w[k]);
        }
        assert(t[j] == '.');
        lemma_find_first_at(t, '.', j);
        assert(t.take(j) =~= w);
        assert(t.skip(j + 1) =~= fs);
        assert(fs.len() == 3);
        assert(frac_scale(3) == 1);
        assert(val_of_digits(w) * 1000 + val_of_digits(fs) * 1 == m);
    }
}

/// The text of a boolean toggle.
pub open spec fn bool_seq(b: bool) -> Seq<char> {
    if b {
        "true"@
    } else {
        "false"@
    }
}

/// Renders a boolean toggle.
pub fn bool_str(b: bool) -> (r: &'static str)
    ensures
        r@ == bool_seq(b),
{
    if b {
        "true"
    } else {
        "false"
    }
}

/// What a boolean text denotes.
pub open spec fn spec_parse_bool(s: Seq<char>) -> Option<bool> {
    if s == "true"@ {
        Some(true)
    } else if s == "false"@ {
        Some(false)
    } else {
        None
    }
}

/// Reads a boolean toggle.
pub fn parse_bool(s: &str) -> (r: Option<bool>)
    ensures
        r == spec_parse_bool(s@),
{
    if str_eq(s, "true") {
        Some(true)
    } else if str_eq(s, "false") {
        Some(false)
    } else {
        None
    }
}

/// What a column-count text denotes, clamped to the bounds: a signed
/// decimal within the range of a 32-bit integer, with anything below two
/// raised to two and anything above five lowered to five.
pub open spec fn spec_parse_row(s: Seq<char>) -> Option<u8> {
    if s.len() > 0 && s[0] == '-' {
        let d = s.skip(1);
        if d.len() > 0 && all_digits(d) && val_of_digits(d) <= 2147483648 {
            Some(2)
        } else {
            None
        }
    } else if s.len() > 0 && all_digits(s) && val_of_digits(s) <= 2147483647 {
        let x = val_of_digits(s);
        Some(if x < 2 { 2 } else if x > 5 { 5 } else { x as u8 })
    } else {
        None
    }
}

/// Reads a column count, clamping it to its bounds.
pub fn parse_row(s: &str) -> (r: Option<u8>)
    ensures
        r == spec_parse_row(s@),
{
    let n = s.unicode_len();
    if n == 0 {
        return None;
    }
    if s.get_char(0) == '-' {
        let rest = s.substring_char(1, n);
        proof {
            assert(rest@ =~= s@.skip(1));
        }
        match parse_u64(rest) {
            Some(v) => if v <= 2147483648 {
                Some(2)
            } else {
                None
            },
            None => None,
        }
    } else {
        match parse_u64(s) {
            Some(v) => if v <= 2147483647 {
                if v < 2 {
                    Some(2)
                } else if v > 5 {
                    Some(5)
                } else {
                    Some(v as u8)
                }
            } else {
                None
            },
            None => None,
        }
    }
}

/// One `key=value` line.
pub open spec fn config_line(key: Seq<char>, v: Seq<char>) -> Seq<char> {
    key + seq!['='] + v
}

/// The lines of the persisted form of a config, in their fixed order.
pub open spec fn config_lines(c: DisplayConfig) -> Seq<Seq<char>> {
    seq![
        config_line("ui_scale"@, milli_seq(c.ui_scale_milli as nat)),
        config_line("max_items_per_row"@, digits_of(c.max_items_per_row as nat)),
        config_line("show_scanlines"@, bool_seq(c.show_scanlines)),
        config_line("show_hidden"@, bool_seq(c.show_hidden)),
        config_line("horizontal_spacing"@, milli_seq(c.horizontal_spacing_milli as nat)),
        config_line("vertical_spacing"@, milli_seq(c.vertical_spacing_milli as nat)),
    ]
}

/// Lines joined into one text, each line closed by a newline.
pub open spec fn join_lines(ls: Seq<Seq<char>>) -> Seq<char>
    decreases ls.len(),
{
    if ls.len() == 0 {
        Seq::empty()
    } else {
        ls[0] + seq!['\n'] + join_lines(ls.drop_first())
    }
}

/// The whole persisted text of a config.
pub open spec fn config_text(c: DisplayConfig) -> Seq<char> {
    join_lines(config_lines(c))
}

/// Serializes a config, one `key=value` line per field, in a fixed order.
#[verifier::rlimit(80)]
pub fn render_config(c: &DisplayConfig) -> (r: String)
    ensures
        r@ == config_text(*c),
{
    let mut s = String::from_str("ui_scale=");
    let v1 = format_milli(c.ui_scale_milli);
    s.append(v1.as_str());
    s.append("\nmax_items_per_row=");
    let v2 = u64_to_string(c.max_items_per_row as u64);
    s.append(v2.as_str());
    s.append("\nshow_scanlines=");
    s.append(bool_str(c.show_scanlines));
    s.append("\nshow_hidden=");
    s.append(bool_str(c.show_hidden));
    s.append("\nhorizontal_spacing=");
    let v5 = format_milli(c.horizontal_spacing_milli);
    s.append(v5.as_str());
    s.append("\nvertical_spacing=");
    let v6 = format_milli(c.vertical_spacing_milli);
    s.append(v6.as_str());
    s.append("\n");
    proof {
        reveal_strlit("ui_scale=");
        reveal_strlit("\nmax_items_per_row=");
        reveal_strlit("\nshow_scanlines=");
        reveal_strlit("\nshow_hidden=");
        reveal_strlit("\nhorizontal_spacing=");
        reveal_strlit("\nvertical_spacing=");
        reveal_strlit("\n");
        reveal_strlit("ui_scale");
        reveal_strlit("max_items_per_row");
        reveal_strlit("show_scanlines");
        reveal_strlit("show_hidden");
        reveal_strlit("horizontal_spacing");
        reveal_strlit("vertical_spacing");
        let ls = config_lines(*c);
        let t2 = join_lines(ls.drop_first());
        let t3 = join_lines(ls.drop_first().drop_first());
        let t4 = join_lines(ls.drop_first().drop_first().drop_first());
        let t5 = join_lines(ls.drop_first().drop_first().drop_first().drop_first());
        let t6 = join_lines(ls.drop_first().drop_first().drop_first().drop_first().drop_first());
        let t7 = join_lines(
            ls.drop_first().drop_first().drop_first().drop_first().drop_first().drop_first(),
        );
        assert(ls.drop_first().drop_first().drop_first().drop_first().drop_first().drop_first()
            =~= Seq::<Seq<char>>::empty());
        assert(t7 =~= Seq::<char>::empty());
        assert(t6 =~= ls[5] + seq!['\n'] + t7);
        assert(t5 =~= ls[4] + seq!['\n'] + t6);
        assert(t4 =~= ls[3] + seq!['\n'] + t5);
        assert(t3 =~= ls[2] + seq!['\n'] + t4);
        assert(t2 =~= ls[1] + seq!['\n'] + t3);
        assert(config_text(*c) =~= ls[0] + seq!['\n'] + t2);
        assert(s@ =~= config_text(*c));
    }
    s
}

/// The lines of a text, split at each newline; a trailing newline closes
/// the last line rather than opening an empty one.
pub open spec fn lines_of(t: Seq<char>) -> Seq<Seq<char>>
    decreases t.len(),
{
    if t.len() == 0 {
        Seq::empty()
    } else if t[0] == '\n' {
        seq![Seq::<char>::empty()] + lines_of(t.drop_first())
    } else {
        let rest = lines_of(t.drop_first());
        if rest.len() == 0 {
            seq![seq![t[0]]]
        } else {
            seq![seq![t[0]] + rest[0]] + rest.drop_first()
        }
    }
}

/// Splitting at the first newline peels off the first line.
pub proof fn lemma_lines_split(t: Seq<char>, k: int)
    requires
        0 <= k < t.len(),
        t[k] == '\n',
        free_of(t, '\n', k),
    ensures
        lines_of(t) == seq![t.take(k)] + lines_of(t.skip(k + 1)),
    decreases k,
{
    if k == 0 {
        assert(t.take(0) =~= Seq::<char>::empty());
        assert(t.skip(1) =~= t.drop_first());
        assert(lines_of(t) =~~= seq![t.take(0)] + lines_of(t.skip(1)));
    } else {
        assert(t[0] != '\n');
        let d = t.drop_first();
        assert(d[k - 1] == '\n');
        assert forall|i: int| 0 <= i < k - 1 implies d[i] != '\n' by {
            assert(d[i] == t[i + 1]);
        }
        lemma_lines_split(d, k - 1);
        let rest = lines_of(d);
        assert(rest == seq![d.take(k - 1)] + lines_of(d.skip(k)));
        assert(rest.len() > 0);
        assert(rest[0] == d.take(k - 1));
        assert(seq![t[0]] + d.take(k - 1) =~= t.take(k));
        assert(rest.drop_first() =~= lines_of(d.skip(k)));
        assert(d.skip(k) =~= t.skip(k + 1));
        assert(lines_of(t) =~~= seq![t.take(k)] + lines_of(t.skip(k + 1)));
    }
}

/// A non-empty text without a newline is one line.
pub proof fn lemma_lines_whole(t: Seq<char>)
    requires
        t.len() > 0,
        free_of(t, '\n', t.len() as int),
    ensures
        lines_of(t) == seq![t],
    decreases t.len(),
{
    assert(t[0] != '\n');
    let d = t.drop_first();
    if d.len() == 0 {
        assert(d =~= Seq::<char>::empty());
        assert(lines_of(d).len() == 0);
        assert(seq![t[0]] =~= t);
        assert(lines_of(t) =~~= seq![t]);
    } else {
        assert forall|i: int| 0 <= i < d.len() implies d[i] != '\n' by {
            assert(d[i] == t[i + 1]);
        }
        lemma_lines_whole(d);
        assert(lines_of(d) == seq![d]);
        assert(seq![t[0]] + d =~= t);
        assert(lines_of(t) =~~= seq![t]);
    }
}

/// Joined newline-free lines split back into themselves.
pub proof fn lemma_lines_of_join(ls: Seq<Seq<char>>)
    requires
        forall|i: int| 0 <= i < ls.len() ==> free_of(#[trigger] ls[i], '\n', ls[i].len() as int),
    ensures
        lines_of(join_lines(ls)) == ls,
    decreases ls.len(),
{
    if ls.len() > 0 {
        let l = ls[0];
        let rest = join_lines(ls.drop_first());
        let t = join_lines(ls);
        assert(t == l + seq!['\n'] + rest);
        let k = l.len() as int;
        assert(t[k] == '\n');
        assert forall|i: int| 0 <= i < k implies t[i] != '\n' by {
            assert(t[i] == l[i]);
        }
        lemma_lines_split(t, k);
        assert(t.take(k) =~= l);
        assert(t.skip(k + 1) =~= rest);
        assert forall|i: int| 0 <= i < ls.drop_first().len() implies free_of(
            #[trigger] ls.drop_first()[i],
            '\n',
            ls.drop_first()[i].len() as int,
        ) by {
            assert(ls.drop_first()[i] == ls[i + 1]);
        }
        lemma_lines_of_join(ls.drop_first());
        assert(lines_of(t) =~~= ls);
    }
}

/// What one `key=value` line does to a config: the recognised keys set
/// their field when the value parses; everything else changes nothing.
pub open spec fn apply_line(l: Seq<char>, c: DisplayConfig) -> DisplayConfig {
    match find_first(l, '=') {
        None => c,
        Some(j) => {
            let key = l.take(j);
            let v = l.skip(j + 1);
            if key == "ui_scale"@ {
                match spec_parse_milli(v) {
                    Some(m) => DisplayConfig { ui_scale_milli: m, ..c },
                    None => c,
                }
            } else if key == "max_items_per_row"@ {
                match spec_parse_row(v) {
                    Some(x) => DisplayConfig { max_items_per_row: x, ..c },
                    None => c,
                }
            } else if key == "show_scanlines"@ {
                match spec_parse_bool(v) {
                    Some(b) => DisplayConfig { show_scanlines: b, ..c },
                    None => c,
                }
            } else if key == "show_hidden"@ {
                match spec_parse_bool(v) {
                    Some(b) => DisplayConfig { show_hidden: b, ..c },
                    None => c,
                }
            } else if key == "horizontal_spacing"@ {
                match spec_parse_milli(v) {
                    Some(m) => DisplayConfig { horizontal_spacing_milli: m, ..c },
                    None => c,
                }
            } else if key == "vertical_spacing"@ {
                match spec_parse_milli(v) {
                    Some(m) => DisplayConfig { vertical_spacing_milli: m, ..c },
                    None => c,
                }
            } else {
                c
            }
        },
    }
}

/// Lines applied in order, each to the config the previous ones left.
pub open spec fn apply_lines(ls: Seq<Seq<char>>, c: DisplayConfig) -> DisplayConfig
    decreases ls.len(),
{
    if ls.len() == 0 {
        c
    } else {
        apply_lines(ls.drop_first(), apply_line(ls[0], c))
    }
}

/// What a whole persisted text denotes: every line applied to the defaults.
pub open spec fn spec_parse_config(t: Seq<char>) -> DisplayConfig {
    apply_lines(lines_of(t), spec_default_config())
}

fn apply_line_exec(l: &str, c: DisplayConfig) -> (r: DisplayConfig)
    ensures
        r == apply_line(l@, c),
{
    let n = l.unicode_len();
    match find_char(l, '=') {
        None => c,
        Some(j) => {
            let key = l.substring_char(0, j);
            let v = l.substring_char(j + 1, n);
            proof {
                assert(key@ =~= l@.take(j as int));
                assert(v@ =~= l@.skip(j + 1));
            }
            if str_eq(key, "ui_scale") {
                match parse_milli(v) {
                    Some(m) => DisplayConfig { ui_scale_milli: m, ..c },
                    None => c,
                }
            } else if str_eq(key, "max_items_per_row") {
                match parse_row(v) {
                    Some(x) => DisplayConfig { max_items_per_row: x, ..c },
                    None => c,
                }
            } else if str_eq(key, "show_scanlines") {
                match parse_bool(v) {
                    Some(b) => DisplayConfig { show_scanlines: b, ..c },
                    None => c,
                }
            } else if str_eq(key, "show_hidden") {
                match parse_bool(v) {
                    Some(b) => DisplayConfig { show_hidden: b, ..c },
                    None => c,
                }
            } else if str_eq(key, "horizontal_spacing") {
                match parse_milli(v) {
                    Some(m) => DisplayConfig { horizontal_spacing_milli: m, ..c },
                    None => c,
                }
            } else if str_eq(key, "vertical_spacing") {
                match parse_milli(v) {
                    Some(m) => DisplayConfig { vertical_spacing_milli: m, ..c },
                    None => c,
                }
            } else {
                c
            }
        },
    }
}

/// Reads a persisted text back into a config, line by line, tolerantly:
/// unknown keys and unparseable values leave their fields alone, and an
/// empty text gives the defaults.
pub fn parse_config(s: &str) -> (c: DisplayConfig)
    ensures
        c == spec_parse_config(s@),
{
    let n = s.unicode_len();
    let mut c = default_config();
    let mut pos: usize = 0;
    proof {
        assert(s@.skip(0) =~= s@);
    }
    while pos < n
        invariant
            0 <= pos <= n,
            n == s@.len(),
            spec_parse_config(s@) == apply_lines(lines_of(s@.skip(pos as int)), c),
        decreases n - pos,
    {
        let ghost u = s@.skip(pos as int);
        let mut e = pos;
        while e < n && s.get_char(e) != '\n'
            invariant
                pos <= e <= n,
                n == s@.len(),
                forall|k: int| pos <= k < e ==> s@[k] != '\n',
            decreases n - e,
        {
            e = e + 1;
        }
        let line = s.substring_char(pos, e);
        proof {
            assert(line@ =~= u.take(e - pos));
            assert forall|k: int| 0 <= k < e - pos implies u[k] != '\n' by {
                assert(u[k] == s@[pos + k]);
            }
        }
        let c2 = apply_line_exec(line, c);
        if e < n {
            proof {
                assert(u[e - pos] == s@[e as int]);
                lemma_lines_split(u, e - pos);
                assert(u.skip(e - pos + 1) =~= s@.skip(e + 1));
                let ls = lines_of(u);
                assert(ls == seq![u.take(e - pos)] + lines_of(s@.skip(e + 1)));
                assert(ls.len() > 0);
                assert(ls[0] == line@);
                assert(ls.drop_first() =~= lines_of(s@.skip(e + 1)));
                assert(apply_lines(ls, c) == apply_lines(ls.drop_first(), apply_line(ls[0], c)));
                assert(apply_lines(ls, c) == apply_lines(lines_of(s@.skip(e + 1)), c2));
            }
            pos = e + 1;
        } else {
            proof {
                assert(u.len() > 0);
                lemma_lines_whole(u);
                assert(line@ =~= u);
                let ls = lines_of(u);
                assert(ls == seq![u]);
                assert(ls[0] == line@);
                assert(ls.drop_first() =~= Seq::<Seq<char>>::empty());
                assert(apply_lines(ls, c) == apply_lines(ls.drop_first(), apply_line(ls[0], c)));
                assert(apply_lines(Seq::<Seq<char>>::empty(), c2) == c2);
                assert(apply_lines(ls, c) == c2);
                assert(s@.skip(n as int) =~= Seq::<char>::empty());
                assert(apply_lines(lines_of(s@.skip(n as int)), c2) == c2);
            }
            pos = n;
        }
        c = c2;
    }
    proof {
        assert(s@.skip(pos as int) =~= Seq::<char>::empty());
        assert(apply_lines(lines_of(s@.skip(pos as int)), c) == c);
    }
    c
}

/// Within a `key=value` line whose key holds no `'='`, the separator is the
/// first `'='`, and the line splits back into the key and the value.
proof fn lemma_config_line_split(key: Seq<char>, v: Seq<char>)
    requires
        free_of(key, '=', key.len() as int),
    ensures
        find_first(config_line(key, v), '=') == Some(key.len() as int),
        config_line(key, v).take(key.len() as int) == key,
        config_line(key, v).skip(key.len() as int + 1) == v,
{
    let l = config_line(key, v);
    let j = key.len() as int;
    assert(l[j] == '=');
    assert forall|k: int| 0 <= k < j implies l[k] != '=' by {
        assert(l[k] == key[k]);
    }
    lemma_find_first_at(l, '=', j);
    assert(l.take(j) =~= key);
    assert(l.skip(j + 1) =~= v);
}

/// A `key=value` line holds no newline when neither part does.
proof fn lemma_config_line_nl(key: Seq<char>, v: Seq<char>)
    requires
        free_of(key, '\n', key.len() as int),
        free_of(v, '\n', v.len() as int),
    ensures
        free_of(config_line(key, v), '\n', config_line(key, v).len() as int),
{
    let l = config_line(key, v);
    assert forall|k: int| 0 <= k < l.len() implies l[k] != '\n' by {
        if k < key.len() {
            assert(l[k] == key[k]);
        } else if k == key.len() {
            assert(l[k] == '=');
        } else {
            assert(l[k] == v[k - key.len() - 1]);
        }
    }
}

/// Every character of a decimal-in-thousandths text is a digit or a point.
proof fn lemma_milli_seq_plain(m: nat)
    ensures
        free_of(milli_seq(m), '\n', milli_seq(m).len() as int),
    decreases m,
{
    let t = milli_seq(m);
    lemma_digits_of_val(m / 1000);
    if m % 1000 != 0 {
        lemma_frac3(m % 1000);
    }
    assert forall|k: int| 0 <= k < t.len() implies t[k] != '\n' by {
        let w = digits_of(m / 1000);
        if m % 1000 == 0 {
            assert(is_digit(t[k]));
        } else {
            let fs = frac3(m % 1000);
            if k < w.len() {
                assert(t[k] == w[k]);
                assert(is_digit(t[k]));
            } else if k == w.len() {
                assert(t[k] == '.');
            } else {
                assert(t[k] == fs[k - w.len() - 1]);
                assert(is_digit(t[k]));
            }
        }
    }
}

/// A digit string denotes no newline.
proof fn lemma_digits_nl(s: Seq<char>)
    requires
        all_digits(s),
    ensures
        free_of(s, '\n', s.len() as int),
{
    lemma_digits_free_of(s, '\n');
}

/// Saving a config and loading the saved text back restores the config
/// field for field, for every config whose column count is within bounds.
#[verifier::rlimit(80)]
pub proof fn lemma_config_round_trip(c: DisplayConfig)
    requires
        config_wf(c),
    ensures
        spec_parse_config(config_text(c)) == c,
{
    reveal_strlit("ui_scale");
    reveal_strlit("max_items_per_row");
    reveal_strlit("show_scanlines");
    reveal_strlit("show_hidden");
    reveal_strlit("horizontal_spacing");
    reveal_strlit("vertical_spacing");
    reveal_strlit("true");
    reveal_strlit("false");
    let ls = config_lines(c);
    let rowd = digits_of(c.max_items_per_row as nat);
    lemma_digits_of_val(c.max_items_per_row as nat);
    lemma_digits_nl(rowd);
    lemma_milli_seq_plain(c.ui_scale_milli as nat);
    lemma_milli_seq_plain(c.horizontal_spacing_milli as nat);
    lemma_milli_seq_plain(c.vertical_spacing_milli as nat);
    assert(free_of(bool_seq(c.show_scanlines), '\n', bool_seq(c.show_scanlines).len() as int));
    assert(free_of(bool_seq(c.show_hidden), '\n', bool_seq(c.show_hidden).len() as int));
    lemma_config_line_nl("ui_scale"@, milli_seq(c.ui_scale_milli as nat));
    lemma_config_line_nl("max_items_per_row"@, rowd);
    lemma_config_line_nl("show_scanlines"@, bool_seq(c.show_scanlines));
    lemma_config_line_nl("show_hidden"@, bool_seq(c.show_hidden));
    lemma_config_line_nl("horizontal_spacing"@, milli_seq(c.horizontal_spacing_milli as nat));
    lemma_config_line_nl("vertical_spacing"@, milli_seq(c.vertical_spacing_milli as nat));
    assert forall|i: int| 0 <= i < ls.len() implies free_of(
        #[trigger] ls[i],
        '\n',
        ls[i].len() as int,
    ) by {
    }
    lemma_lines_of_join(ls);
    assert(lines_of(config_text(c)) == ls);

    lemma_config_line_split("ui_scale"@, milli_seq(c.ui_scale_milli as nat));
    lemma_config_line_split("max_items_per_row"@, rowd);
    lemma_config_line_split("show_scanlines"@, bool_seq(c.show_scanlines));
    lemma_config_line_split("show_hidden"@, bool_seq(c.show_hidden));
    lemma_config_line_split("horizontal_spacing"@, milli_seq(c.horizontal_spacing_milli as nat));
    lemma_config_line_split("vertical_spacing"@, milli_seq(c.vertical_spacing_milli as nat));
    lemma_milli_round_trip(c.ui_scale_milli);
    lemma_milli_round_trip(c.horizontal_spacing_milli);
    lemma_milli_round_trip(c.vertical_spacing_milli);

    let d0 = spec_default_config();
    let c1 = apply_line(ls[0], d0);
    assert(c1 == DisplayConfig { ui_scale_milli: c.ui_scale_milli, ..d0 });
    let c2 = apply_line(ls[1], c1);
    assert(spec_parse_row(rowd) == Some(c.max_items_per_row)) by {
        assert(rowd.len() > 0);
        assert(is_digit(rowd[0]));
        assert(rowd[0] != '-');
        assert(val_of_digits(rowd) == c.max_items_per_row as nat);
    }
    assert(c2 == DisplayConfig { max_items_per_row: c.max_items_per_row, ..c1 });
    let c3 = apply_line(ls[2], c2);
    assert(spec_parse_bool(bool_seq(c.show_scanlines)) == Some(c.show_scanlines));
    assert(c3 == DisplayConfig { show_scanlines: c.show_scanlines, ..c2 });
    let c4 = apply_line(ls[3], c3);
    assert(c4 == DisplayConfig { show_hidden: c.show_hidden, ..c3 });
    let c5 = apply_line(ls[4], c4);
    assert(c5 == DisplayConfig { horizontal_spacing_milli: c.horizontal_spacing_milli, ..c4 });
    let c6 = apply_line(ls[5], c5);
    assert(c6 == DisplayConfig { vertical_spacing_milli: c.vertical_spacing_milli, ..c5 });
    assert(c6 == c);

    let r1 = ls.drop_first();
    let r2 = r1.drop_first();
    let r3 = r2.drop_first();
    let r4 = r3.drop_first();
    let r5 = r4.drop_first();
    let r6 = r5.drop_first();
    assert(r1[0] == ls[1] && r2[0] == ls[2] && r3[0] == ls[3] && r4[0] == ls[4] && r5[0] == ls[5]);
    assert(r6 =~= Seq::<Seq<char>>::empty());
    assert(apply_lines(ls, d0) == apply_lines(r1, c1));
    assert(apply_lines(r1, c1) == apply_lines(r2, c2));
    assert(apply_lines(r2, c2) == apply_lines(r3, c3));
    assert(apply_lines(r3, c3) == apply_lines(r4, c4));
    assert(apply_lines(r4, c4) == apply_lines(r5, c5));
    assert(apply_lines(r5, c5) == apply_lines(r6, c6));
    assert(apply_lines(r6, c6) == c6);
}

/// The three-digit fraction text holds three digits and denotes its value.
proof fn lemma_frac3(f: nat)
    requires
        0 < f < 1000,
    ensures
        frac3(f).len() == 3,
        all_digits(frac3(f)),
        val_of_digits(frac3(f)) == f,
{
    lemma_digits_of_val(f);
    let d = digits_of(f);
    if f < 10 {
        assert(d =~= seq![crate::text::digit_char(f)]);
        assert(frac3(f) =~= seq!['0'] + (seq!['0'] + d));
        lemma_val_leading_zero(seq!['0'] + d);
        lemma_val_leading_zero(d);
        assert(is_digit('0'));
        assert(all_digits(frac3(f))) by {
            assert(forall|k: int| 0 <= k < 3 ==> is_digit(#[trigger] frac3(f)[k]));
        }
    } else if f < 100 {
        assert(d.len() == 2) by {
            assert(d == digits_of(f / 10).push(crate::text::digit_char(f % 10)));
            assert(digits_of(f / 10).len() == 1);
        }
        assert(frac3(f) =~= seq!['0'] + d);
        lemma_val_leading_zero(d);
        assert(is_digit('0'));
        assert(all_digits(frac3(f))) by {
            assert(forall|k: int| 0 <= k < 3 ==> is_digit(#[trigger] frac3(f)[k]));
        }
    } else {
        assert(d.len() == 3) by {
            assert(d == digits_of(f / 10).push(crate::text::digit_char(f % 10)));
            assert(digits_of(f / 10) == digits_of(f / 100).push(crate::text::digit_char(f / 10 % 10)));
            assert(digits_of(f / 100).len() == 1) by {
                assert(f / 100 < 10);
            }
        }
    }
}

} // verus!
