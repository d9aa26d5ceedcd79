//! Dates of the Gregorian calendar, in universal time.
use vstd::prelude::*;
use crate::text;

verus! {

/// Whether a year has 366 days.
pub open spec fn leap(y: nat) -> bool {
    (y % 4 == 0 && y % 100 != 0) || y % 400 == 0
}

/// The days of a year.
pub open spec fn year_len(y: nat) -> nat {
    if leap(y) {
        366
    } else {
        365
    }
}

/// The days of a month, counted from 1.
pub open spec fn month_len(y: nat, m: nat) -> nat {
    if m == 2 {
        if leap(y) {
            29
        } else {
            28
        }
    } else if m == 4 || m == 6 || m == 9 || m == 11 {
        30
    } else {
        31
    }
}

/// The days from the start of 1970 to that of a year.
pub open spec fn days_before_year(y: nat) -> nat
    decreases y,
{
    if y <= 1970 {
        0
    } else {
        days_before_year((y - 1) as nat) + year_len((y - 1) as nat)
    }
}

/// The days from the start of a year to that of a month.
pub open spec fn days_before_month(y: nat, m: nat) -> nat
    decreases m,
{
    if m <= 1 {
        0
    } else {
        days_before_month(y, (m - 1) as nat) + month_len(y, (m - 1) as nat)
    }
}

/// Whether there is such a date from 1970 on.
pub open spec fn is_date(y: nat, m: nat, d: nat) -> bool {
    &&& 1970 <= y
    &&& 1 <= m <= 12
    &&& 1 <= d <= month_len(y, m)
}

/// The days from the start of 1970 to a date.
pub open spec fn day_number(y: nat, m: nat, d: nat) -> int {
    days_before_year(y) + days_before_month(y, m) + d - 1
}

/// Whether a year has 366 days.
pub fn is_leap(y: u64) -> (r: bool)
    ensures
        r == leap(y as nat),
{
    (y % 4 == 0 && y % 100 != 0) || y % 400 == 0
}

proof fn lemma_months(y: nat)
    ensures
        days_before_month(y, 13) == year_len(y),
        days_before_month(y, 1) == 0,
{
    reveal_with_fuel(days_before_month, 14);
}

proof fn lemma_before_month_monotone(y: nat, a: nat, b: nat)
    requires
        1 <= a <= b,
    ensures
        days_before_month(y, a) <= days_before_month(y, b),
    decreases b,
{
    if a < b {
        lemma_before_month_monotone(y, a, (b - 1) as nat);
    }
}

proof fn lemma_before_year_monotone(a: nat, b: nat)
    requires
        1970 <= a <= b,
    ensures
        days_before_year(a) <= days_before_year(b),
        a < b ==> days_before_year(a) + year_len(a) <= days_before_year(b),
    decreases b,
{
    if a < b {
        lemma_before_year_monotone(a, (b - 1) as nat);
    }
}

/// No two dates have the same number of days before them.
pub proof fn law_dates_are_unique(y: nat, m: nat, d: nat, y2: nat, m2: nat, d2: nat)
    requires
        is_date(y, m, d),
        is_date(y2, m2, d2),
        day_number(y, m, d) == day_number(y2, m2, d2),
    ensures
        y == y2,
        m == m2,
        d == d2,
{
    lemma_in_year(y, m, d);
    lemma_in_year(y2, m2, d2);
    if y < y2 {
        lemma_before_year_monotone(y, y2);
    } else if y2 < y {
        lemma_before_year_monotone(y2, y);
    }
    if m < m2 {
        lemma_before_month_monotone(y, m + 1, m2);
    } else if m2 < m {
        lemma_before_month_monotone(y, m2 + 1, m);
    }
}

proof fn lemma_in_year(y: nat, m: nat, d: nat)
    requires
        is_date(y, m, d),
    ensures
        days_before_month(y, m) + d <= year_len(y),
{
    lemma_months(y);
    lemma_before_month_monotone(y, m + 1, 13);
}

/// The date a number of days after the first of January 1970.
pub fn days_to_ymd(days: u64) -> (r: (u64, u64, u64))
    ensures
        is_date(r.0 as nat, r.1 as nat, r.2 as nat),
        day_number(r.0 as nat, r.1 as nat, r.2 as nat) == days,
{
    let mut left: u64 = days;
    let mut year: u64 = 1970;
    loop
        invariant_except_break
            1970 <= year,
            (year - 1970) * 365 <= days - left,
            days == days_before_year(year as nat) + left,
        ensures
            1970 <= year,
            days == days_before_year(year as nat) + left,
            left < year_len(year as nat),
        decreases left,
    {
        let len: u64 = if is_leap(year) {
            366
        } else {
            365
        };
        if left < len {
            break;
        }
        left = left - len;
        year = year + 1;
    }
    let mut month: u64 = 1;
    proof {
        lemma_months(year as nat);
    }
    let ghost within = left;
    loop
        invariant_except_break
            1 <= month <= 12,
            days_before_month(year as nat, month as nat) + left == within,
            within < year_len(year as nat),
            days_before_month(year as nat, 13) == year_len(year as nat),
        ensures
            1 <= month <= 12,
            days_before_month(year as nat, month as nat) + left == within,
            left < month_len(year as nat, month as nat),
        decreases 13 - month,
    {
        let len: u64 = if month == 2 {
            if is_leap(year) {
                29
            } else {
                28
            }
        } else if month == 4 || month == 6 || month == 9 || month == 11 {
            30
        } else {
            31
        };
        if left < len {
            break;
        }
        left = left - len;
        month = month + 1;
    }
    (year, month, left + 1)
}

/// A number in decimal with zeros before it up to a width.
pub open spec fn padded(n: nat, width: nat) -> Seq<char> {
    let d = text::decimal(n);
    if d.len() >= width {
        d
    } else {
        Seq::new((width - d.len()) as nat, |i: int| '0') + d
    }
}

/// Whether `s` is the text of a time in milliseconds since 1970: date and time
/// of day in universal time, with a fraction of nine zeros.
pub open spec fn is_iso(ms: u64, s: Seq<char>) -> bool {
    let secs = ms as nat / 1000;
    exists|y: nat, m: nat, d: nat| #[trigger]
        is_date(y, m, d) && day_number(y, m, d) == secs / 86400 && s == iso_text(
            y,
            m,
            d,
            (secs / 3600) % 24,
            (secs / 60) % 60,
            secs % 60,
        )
}

/// The text of a time in milliseconds since 1970.
pub open spec fn iso_of(ms: u64) -> Seq<char> {
    choose|s: Seq<char>| is_iso(ms, s)
}

/// The text of a date and a time of day.
pub open spec fn iso_text(y: nat, mo: nat, d: nat, h: nat, m: nat, s: nat) -> Seq<char> {
    padded(y, 4) + seq!['-'] + padded(mo, 2) + seq!['-'] + padded(d, 2) + seq!['T'] + padded(h, 2)
        + seq![':'] + padded(m, 2) + seq![':'] + padded(s, 2) + ".000000000Z"@
}

fn push_padded(out: &mut Vec<char>, n: u64, width: usize)
    ensures
        final(out)@ == old(out)@ + padded(n as nat, width as nat),
{
    let d: Vec<char> = text::decimal_chars(n);
    let ghost start = out@;
    let mut k: usize = d.len();
    while k < width
        invariant
            d@.len() <= k,
            k <= width || d@.len() > width,
            d@.len() <= width ==> out@ == start + Seq::new((k - d@.len()) as nat, |i: int| '0'),
            d@.len() > width ==> out@ == start && k == d@.len(),
            d@.len() == width ==> out@ == start,
        decreases width - k,
    {
        let ghost before = out@;
        out.push('0');
        k = k + 1;
        assert(out@ =~= start + Seq::new((k - d@.len()) as nat, |i: int| '0'));
    }
    text::push_chars(out, d.as_slice());
    assert(out@ =~= start + padded(n as nat, width as nat));
}

/// The text of a time in milliseconds since 1970, such as
/// `1970-01-01T00:00:00.000000000Z`.
pub fn ms_to_iso(ms: u64) -> (r: String)
    ensures
        is_iso(ms, r@),
        r@ == iso_of(ms),
{
    let secs: u64 = ms / 1000;
    let (y, mo, d): (u64, u64, u64) = days_to_ymd(secs / 86400);
    let mut t: Vec<char> = Vec::new();
    push_padded(&mut t, y, 4);
    t.push('-');
    push_padded(&mut t, mo, 2);
    t.push('-');
    push_padded(&mut t, d, 2);
    t.push('T');
    push_padded(&mut t, (secs / 3600) % 24, 2);
    t.push(':');
    push_padded(&mut t, (secs / 60) % 60, 2);
    t.push(':');
    push_padded(&mut t, secs % 60, 2);
    text::push_text(&mut t, ".000000000Z");
    proof {
        assert(t@ =~= iso_text(
            y as nat,
            mo as nat,
            d as nat,
            (secs as nat / 3600) % 24,
            (secs as nat / 60) % 60,
            secs as nat % 60,
        ));
        assert(is_date(y as nat, mo as nat, d as nat));
        assert(is_iso(ms, t@));
        law_iso_is_unique(ms, t@, iso_of(ms));
    }
    text::string_of(t.as_slice())
}

/// A time has one text.
pub proof fn law_iso_is_unique(ms: u64, a: Seq<char>, b: Seq<char>)
    requires
        is_iso(ms, a),
        is_iso(ms, b),
    ensures
        a == b,
{
    let secs = ms as nat / 1000;
    let (y, m, d): (nat, nat, nat) = choose|y: nat, m: nat, d: nat| #[trigger]
        is_date(y, m, d) && day_number(y, m, d) == secs / 86400 && a == iso_text(
            y,
            m,
            d,
            (secs / 3600) % 24,
            (secs / 60) % 60,
            secs % 60,
        );
    let (y2, m2, d2): (nat, nat, nat) = choose|y: nat, m: nat, d: nat| #[trigger]
        is_date(y, m, d) && day_number(y, m, d) == secs / 86400 && b == iso_text(
            y,
            m,
            d,
            (secs / 3600) % 24,
            (secs / 60) % 60,
            secs % 60,
        );
    law_dates_are_unique(y, m, d, y2, m2, d2);
}

} // verus!
