//! The presentation formatter: pure renderings of byte counts and
//! timestamps into the strings the browser displays.

use crate::text::{digits_of, u64_to_string};
use chrono::Datelike;
use chrono::Timelike;
use vstd::prelude::*;
use vstd::string::*;

verus! {

/// A byte count rendered with binary scaling: the largest unit among
/// B, KB, MB and GB that is at most the value, magnitude truncated.
pub open spec fn spec_format_size(bytes: nat) -> Seq<char> {
    if bytes >= 0x40000000 {
        digits_of(bytes / 0x40000000) + seq![' ', 'G', 'B']
    } else if bytes >= 0x100000 {
        digits_of(bytes / 0x100000) + seq![' ', 'M', 'B']
    } else if bytes >= 1024 {
        digits_of(bytes / 1024) + seq![' ', 'K', 'B']
    } else {
        digits_of(bytes) + seq![' ', 'B']
    }
}

/// Renders a byte count as `spec_format_size` describes.
pub fn format_size(bytes: u64) -> (r: String)
    ensures
        r@ == spec_format_size(bytes as nat),
{
    if bytes >= 0x40000000 {
        let mut s = u64_to_string(bytes / 0x40000000);
        s.append(" GB");
        proof {
            reveal_strlit(" GB");
            assert(s@ =~= spec_format_size(bytes as nat));
        }
        s
    } else if bytes >= 0x100000 {
        let mut s = u64_to_string(bytes / 0x100000);
        s.append(" MB");
        proof {
            reveal_strlit(" MB");
            assert(s@ =~= spec_format_size(bytes as nat));
        }
        s
    } else if bytes >= 1024 {
        let mut s = u64_to_string(bytes / 1024);
        s.append(" KB");
        proof {
            reveal_strlit(" KB");
            assert(s@ =~= spec_format_size(bytes as nat));
        }
        s
    } else {
        let mut s = u64_to_string(bytes);
        s.append(" B");
        proof {
            reveal_strlit(" B");
            assert(s@ =~= spec_format_size(bytes as nat));
        }
        s
    }
}

/// The calendar fields of one point in time, in the host's local zone.
pub struct DateParts {
    pub year: i64,
    pub month: u8,
    pub day: u8,
    pub hour: u8,
    pub minute: u8,
}

/// Calendar fields within their ranges.
pub open spec fn date_parts_wf(p: DateParts) -> bool {
    &&& 1 <= p.month <= 12
    &&& 1 <= p.day <= 31
    &&& p.hour < 24
    &&& p.minute < 60
    &&& -300000 <= p.year <= 300000
}

/// The three-letter English abbreviation of a month.
pub open spec fn month_abbrev(m: nat) -> Seq<char> {
    if m == 1 { seq!['J', 'a', 'n'] }
    else if m == 2 { seq!['F', 'e', 'b'] }
    else if m == 3 { seq!['M', 'a', 'r'] }
    else if m == 4 { seq!['A', 'p', 'r'] }
    else if m == 5 { seq!['M', 'a', 'y'] }
    else if m == 6 { seq!['J', 'u', 'n'] }
    else if m == 7 { seq!['J', 'u', 'l'] }
    else if m == 8 { seq!['A', 'u', 'g'] }
    else if m == 9 { seq!['S', 'e', 'p'] }
    else if m == 10 { seq!['O', 'c', 't'] }
    else if m == 11 { seq!['N', 'o', 'v'] }
    else { seq!['D', 'e', 'c'] }
}

/// A number zero-padded to two digits.
pub open spec fn pad2(n: nat) -> Seq<char> {
    if n < 10 {
        seq!['0'] + digits_of(n)
    } else {
        digits_of(n)
    }
}

/// A year zero-padded to four digits, signed when negative.
pub open spec fn year_text(y: int) -> Seq<char> {
    if y < 0 {
        seq!['-'] + pad4((-y) as nat)
    } else {
        pad4(y as nat)
    }
}

/// A number zero-padded to four digits.
pub open spec fn pad4(n: nat) -> Seq<char> {
    if n < 10 {
        seq!['0', '0', '0'] + digits_of(n)
    } else if n < 100 {
        seq!['0', '0'] + digits_of(n)
    } else if n < 1000 {
        seq!['0'] + digits_of(n)
    } else {
        digits_of(n)
    }
}

/// A timestamp rendered as month abbreviation, zero-padded day, full year,
/// and zero-padded 24-hour time.
pub open spec fn spec_render_date(p: DateParts) -> Seq<char> {
    month_abbrev(p.month as nat) + seq![' '] + pad2(p.day as nat) + seq![',', ' ']
        + year_text(p.year as int) + seq![' '] + pad2(p.hour as nat) + seq![':']
        + pad2(p.minute as nat)
}

fn month_str(m: u8) -> (r: &'static str)
    requires
        1 <= m <= 12,
    ensures
        r@ =~= month_abbrev(m as nat),
{
    if m == 1 { proof { reveal_strlit("Jan"); } "Jan" }
    else if m == 2 { proof { reveal_strlit("Feb"); } "Feb" }
    else if m == 3 { proof { reveal_strlit("Mar"); } "Mar" }
    else if m == 4 { proof { reveal_strlit("Apr"); } "Apr" }
    else if m == 5 { proof { reveal_strlit("May"); } "May" }
    else if m == 6 { proof { reveal_strlit("Jun"); } "Jun" }
    else if m == 7 { proof { reveal_strlit("Jul"); } "Jul" }
    else if m == 8 { proof { reveal_strlit("Aug"); } "Aug" }
    else if m == 9 { proof { reveal_strlit("Sep"); } "Sep" }
    else if m == 10 { proof { reveal_strlit("Oct"); } "Oct" }
    else if m == 11 { proof { reveal_strlit("Nov"); } "Nov" }
    else { proof { reveal_strlit("Dec"); } "Dec" }
}

fn pad2_exec(n: u64) -> (r: String)
    ensures
        r@ == pad2(n as nat),
{
    if n < 10 {
        let mut s = String::from_str("0");
        proof {
            reveal_strlit("0");
        }
        let d = u64_to_string(n);
        s.append(d.as_str());
        proof {
            assert(s@ =~= pad2(n as nat));
        }
        s
    } else {
        u64_to_string(n)
    }
}

fn pad4_exec(n: u64) -> (r: String)
    ensures
        r@ == pad4(n as nat),
{
    if n < 10 {
        let mut s = String::from_str("000");
        proof {
            reveal_strlit("000");
        }
        let d = u64_to_string(n);
        s.append(d.as_str());
        proof {
            assert(s@ =~= pad4(n as nat));
        }
        s
    } else if n < 100 {
        let mut s = String::from_str("00");
        proof {
            reveal_strlit("00");
        }
        let d = u64_to_string(n);
        s.append(d.as_str());
        proof {
            assert(s@ =~= pad4(n as nat));
        }
        s
    } else if n < 1000 {
        let mut s = String::from_str("0");
        proof {
            reveal_strlit("0");
        }
        let d = u64_to_string(n);
        s.append(d.as_str());
        proof {
            assert(s@ =~= pad4(n as nat));
        }
        s
    } else {
        u64_to_string(n)
    }
}

/// Renders calendar fields exactly as `spec_render_date` describes.
pub fn render_date(p: &DateParts) -> (r: String)
    requires
        date_parts_wf(*p),
    ensures
        r@ == spec_render_date(*p),
{
    let mut s = String::from_str(month_str(p.month));
    s.append(" ");
    let day = pad2_exec(p.day as u64);
    s.append(day.as_str());
    s.append(", ");
    if p.year < 0 {
        s.append("-");
        let y = pad4_exec((-p.year) as u64);
        s.append(y.as_str());
    } else {
        let y = pad4_exec(p.year as u64);
        s.append(y.as_str());
    }
    s.append(" ");
    let hour = pad2_exec(p.hour as u64);
    s.append(hour.as_str());
    s.append(":");
    let minute = pad2_exec(p.minute as u64);
    s.append(minute.as_str());
    proof {
        reveal_strlit(" ");
        reveal_strlit(", ");
        reveal_strlit("-");
        reveal_strlit(":");
        assert(" "@ =~= seq![' ']);
        assert(", "@ =~= seq![',', ' ']);
        assert("-"@ =~= seq!['-']);
        assert(":"@ =~= seq![':']);
        assert(s@ =~= spec_render_date(*p));
    }
    s
}

/// The metadata line shown under an entry: a directory shows only its
/// date; a file joins date and size with a dot when both are known, and
/// shows whichever is there otherwise.
pub open spec fn spec_meta_line(dir: bool, date: Seq<char>, size: Seq<char>) -> Seq<char> {
    if dir {
        date
    } else if date.len() > 0 && size.len() > 0 {
        date + seq![' ', ' ', '\u{b7}', ' ', ' '] + size
    } else {
        date + size
    }
}

/// Joins an entry's formatted date and size into its metadata line, as
/// `spec_meta_line` describes.
pub fn meta_line(dir: bool, date: &str, size: &str) -> (r: String)
    ensures
        r@ == spec_meta_line(dir, date@, size@),
{
    if dir {
        return String::from_str(date);
    }
    let mut s = String::from_str(date);
    if date.unicode_len() > 0 && size.unicode_len() > 0 {
        s.append("  \u{b7}  ");
        proof {
            reveal_strlit("  \u{b7}  ");
            assert("  \u{b7}  "@ =~= seq![' ', ' ', '\u{b7}', ' ', ' ']);
        }
    }
    s.append(size);
    proof {
        assert(s@ =~= spec_meta_line(dir, date@, size@));
    }
    s
}

/// A timestamp far enough inside the clock library's representable range
/// that converting it to a local calendar date cannot fail: about eight
/// million million seconds, two hundred odd millennia, either side of the
/// Unix epoch.
pub open spec fn timestamp_in_range(secs: i64) -> bool {
    -8000000000000 <= secs <= 8000000000000
}

/// Relies on chrono: `DateTime::from_timestamp` accepts every count of
/// seconds this far inside its range, and the `Datelike`/`Timelike`
/// accessors of the local `DateTime` give calendar fields in their
/// documented ranges (month 1 to 12, day 1 to 31, hour below 24, minute
/// below 60, year within chrono's year range).
#[verifier::external_body]
fn local_date_parts(secs: i64) -> (p: DateParts)
    requires
        timestamp_in_range(secs),
    ensures
        date_parts_wf(p),
{
    let utc = chrono::DateTime::from_timestamp(secs, 0).unwrap();
    let local = utc.with_timezone(&chrono::Local);
    DateParts {
        year: local.year() as i64,
        month: local.month() as u8,
        day: local.day() as u8,
        hour: local.hour() as u8,
        minute: local.minute() as u8,
    }
}

/// Renders a timestamp (seconds since the Unix epoch) in the host's local
/// zone. Which calendar fields a moment falls on is the clock library's
/// and the host zone's affair, so the contract promises their shape: for
/// every in-range timestamp, some well-formed fields rendered exactly by
/// `spec_render_date`; an out-of-range timestamp gives an empty string.
pub fn format_date(secs: i64) -> (r: String)
    ensures
        timestamp_in_range(secs) ==> exists|p: DateParts|
            date_parts_wf(p) && r@ == spec_render_date(p),
        !timestamp_in_range(secs) ==> r@ =~= Seq::<char>::empty(),
{
    if secs < -8000000000000 || secs > 8000000000000 {
        return String::new();
    }
    let p = local_date_parts(secs);
    let r = render_date(&p);
    proof {
        assert(date_parts_wf(p) && r@ == spec_render_date(p));
    }
    r
}

} // verus!
