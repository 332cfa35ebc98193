//! Marquee text layout: decides, purely from its arguments, what substring
//! of a label the renderer should draw. A label that fits its slot is drawn
//! whole; an oversized unfocused label is truncated with an ellipsis; an
//! oversized focused label shows a window that scrolls to the end and back
//! once every four seconds, as a pure function of a clock value.
//!
//! Widths and font sizes are in thousandths of a pixel; a character is
//! approximated as six tenths of the font size wide. Time is in
//! milliseconds.

use vstd::prelude::*;
use vstd::string::*;
use vstd::arithmetic::div_mod::{lemma_div_multiples_vanish, lemma_mod_add_multiples_vanish};

verus! {

/// One full scroll cycle: two seconds out, two seconds back.
pub const CYCLE_MILLIS: u64 = 4000;

/// Approximate width of one character: six tenths of the font size.
pub open spec fn char_width(font_milli: nat) -> nat {
    font_milli * 6 / 10
}

/// How many characters fit in the available width.
pub open spec fn fit_count(avail_milli: nat, font_milli: nat) -> nat {
    avail_milli / char_width(font_milli)
}

/// Whether a text fits its slot whole. A font too small to give a character
/// any width at all fits everything.
pub open spec fn text_fits(text: Seq<char>, avail_milli: nat, font_milli: nat) -> bool {
    char_width(font_milli) == 0 || text.len() <= fit_count(avail_milli, font_milli)
}

/// The scroll offset at `t` milliseconds into the cycle: linear from zero
/// to `range` over the first half, and back to zero over the second.
pub open spec fn scroll_offset(range: nat, t: nat) -> nat {
    if t < 2000 {
        t * range / 2000
    } else {
        ((4000 - t) as nat) * range / 2000
    }
}

/// First character of the visible window of an oversized focused text.
pub open spec fn start_index(text_len: nat, avail_milli: nat, font_milli: nat, now_millis: nat) -> nat {
    let cw = char_width(font_milli);
    let mc = fit_count(avail_milli, font_milli);
    let range = ((text_len - mc) as nat) * cw;
    scroll_offset(range, now_millis % 4000) / cw
}

/// A window of `count` characters starting at `start`, read circularly:
/// past the end it continues from the beginning of the text.
pub open spec fn window(text: Seq<char>, start: nat, count: nat) -> Seq<char> {
    if start + count <= text.len() {
        text.subrange(start as int, (start + count) as int)
    } else {
        text.skip(start as int) + text.take((count - (text.len() - start)) as int)
    }
}

/// The first characters that fit, less three, with an ellipsis appended.
pub open spec fn truncated(text: Seq<char>, count: nat) -> Seq<char> {
    text.take((if count >= 3 { count - 3 } else { 0 }) as int) + seq!['.', '.', '.']
}

/// What the renderer should draw for a label: the text itself when it fits,
/// the scrolled window when focused, the ellipsis truncation otherwise.
pub open spec fn layout_spec(
    text: Seq<char>,
    avail_milli: nat,
    font_milli: nat,
    now_millis: nat,
    focused: bool,
) -> Seq<char> {
    if text_fits(text, avail_milli, font_milli) {
        text
    } else if focused {
        window(text, start_index(text.len(), avail_milli, font_milli, now_millis), fit_count(avail_milli, font_milli))
    } else {
        truncated(text, fit_count(avail_milli, font_milli))
    }
}

/// Fit passthrough: a text whose rendered width is at most the available
/// width is returned unchanged, whatever the time and focus are.
pub proof fn lemma_fit_passthrough(
    text: Seq<char>,
    avail_milli: nat,
    font_milli: nat,
    now_millis: nat,
    focused: bool,
)
    requires
        text.len() * char_width(font_milli) <= avail_milli,
    ensures
        layout_spec(text, avail_milli, font_milli, now_millis, focused) == text,
{
    let cw = char_width(font_milli);
    if cw > 0 {
        assert(text.len() <= avail_milli / cw) by (nonlinear_arith)
            requires text.len() * cw <= avail_milli, cw > 0,
        {
        }
    }
}

/// Cycle boundary: the layout is periodic in time with a period of one full
/// cycle, four seconds.
pub proof fn lemma_cycle_periodic(
    text: Seq<char>,
    avail_milli: nat,
    font_milli: nat,
    now_millis: nat,
    focused: bool,
)
    ensures
        layout_spec(text, avail_milli, font_milli, now_millis + 4000, focused)
            == layout_spec(text, avail_milli, font_milli, now_millis, focused),
{
    lemma_mod_add_multiples_vanish(now_millis as int, 4000);
    assert((now_millis + 4000) % 4000 == now_millis % 4000);
}

/// Lays a label out for its slot, as `layout_spec` describes. The one bound
/// asked of the caller is that the label's total rendered width not exceed
/// the width type's range.
pub fn layout(text: &str, avail_milli: u64, font_milli: u64, now_millis: u64, focused: bool) -> (r: String)
    requires
        text@.len() * char_width(font_milli as nat) <= u64::MAX,
    ensures
        r@ == layout_spec(text@, avail_milli as nat, font_milli as nat, now_millis as nat, focused),
{
    let ghost gcw = char_width(font_milli as nat);
    let cw: u128 = font_milli as u128 * 6 / 10;
    proof {
        assert(cw == gcw);
    }
    let len = text.unicode_len();
    if cw == 0 {
        return String::from_str(text);
    }
    let mc: u128 = avail_milli as u128 / cw;
    proof {
        assert(mc == fit_count(avail_milli as nat, font_milli as nat));
    }
    if len as u128 <= mc {
        return String::from_str(text);
    }
    // Oversized: mc < len, so the window arithmetic stays within the text.
    let mcu: usize = mc as usize;
    if !focused {
        let keep: usize = if mcu >= 3 { mcu - 3 } else { 0 };
        let mut s = String::from_str(text.substring_char(0, keep));
        s.append("...");
        proof {
            reveal_strlit("...");
            assert("..."@ =~= seq!['.', '.', '.']);
            assert(s@ =~= truncated(text@, mc as nat));
        }
        return s;
    }
    proof {
        assert((len as int - mc as int) * (cw as int) <= (len as int) * (cw as int)) by (nonlinear_arith)
            requires 0 <= (mc as int) && (mc as int) < (len as int) && (cw as int) > 0,
        {
        }
        assert((len as int) * (cw as int) <= u64::MAX);
    }
    let range: u128 = (len as u128 - mc) * cw;
    let t: u128 = (now_millis % 4000) as u128;
    proof {
        lemma_div_multiples_vanish(range as int, 2000);
        assert(2000 * (range as int) / 2000 == range as int);
    }
    let offset: u128;
    if t < 2000 {
        proof {
            assert((t as int) * (range as int) <= 2000 * (range as int)) by (nonlinear_arith)
                requires 0 <= (t as int) && (t as int) <= 2000 && (range as int) >= 0,
            {
            }
            vstd::arithmetic::div_mod::lemma_div_is_ordered(
                (t as int) * (range as int),
                2000 * (range as int),
                2000,
            );
        }
        offset = t * range / 2000;
    } else {
        proof {
            assert((4000 - t as int) * (range as int) <= 2000 * (range as int)) by (nonlinear_arith)
                requires 2000 <= (t as int) && (t as int) < 4000 && (range as int) >= 0,
            {
            }
            vstd::arithmetic::div_mod::lemma_div_is_ordered(
                (4000 - t as int) * (range as int),
                2000 * (range as int),
                2000,
            );
        }
        offset = (4000 - t) * range / 2000;
    }
    proof {
        assert(offset <= range);
        assert(offset == scroll_offset(range as nat, t as nat));
    }
    let start128: u128 = offset / cw;
    proof {
        let spread: int = len - mc;
        lemma_div_multiples_vanish(spread, cw as int);
        assert((cw as int) * spread / (cw as int) == spread);
        assert((cw as int) * spread == range) by (nonlinear_arith)
            requires range == spread * (cw as int),
        {
        }
        assert(start128 <= range / cw) by (nonlinear_arith)
            requires offset <= range, cw > 0, start128 == offset / cw,
        {
        }
        assert(start128 <= spread);
        assert(start128 == start_index(text@.len(), avail_milli as nat, font_milli as nat, now_millis as nat));
    }
    let start: usize = start128 as usize;
    if start + mcu <= len {
        let s = String::from_str(text.substring_char(start, start + mcu));
        proof {
            assert(s@ =~= window(text@, start as nat, mc as nat));
        }
        s
    } else {
        // Circular read past the end: the tail of the text, then its head.
        let mut s = String::from_str(text.substring_char(start, len));
        s.append(text.substring_char(0, mcu - (len - start)));
        proof {
            assert(s@ =~= window(text@, start as nat, mc as nat));
        }
        s
    }
}

} // verus!
