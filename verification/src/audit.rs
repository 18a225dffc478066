//! What the journal audit reports, in the words it reports it.

use vstd::prelude::*;

pub mod report;

use crate::text::{padded, push_padded};

verus! {

/// Day of the 400-year era, year of the era and day of the (March-based)
/// year, for day `doe` of an era.
pub open spec fn year_of_era(doe: int) -> int {
    (doe - doe / 1460 + doe / 36_524 - doe / 146_096) / 365
}

pub open spec fn day_of_year(doe: int) -> int {
    let yoe = year_of_era(doe);
    doe - (365 * yoe + yoe / 4 - yoe / 100)
}

/// The proleptic Gregorian `(year, month, day)` of day `days` counted from
/// 1970-01-01: the standard civil-from-days computation, in 400-year eras
/// starting on March 1st.
pub open spec fn civil_from_days(days: int) -> (int, int, int) {
    let z = days + 719_468;
    let era = z / 146_097;
    let doe = z - era * 146_097;
    let yoe = year_of_era(doe);
    let y = yoe + era * 400;
    let doy = day_of_year(doe);
    let mp = (5 * doy + 2) / 153;
    let d = doy - (153 * mp + 2) / 5 + 1;
    let m = if mp < 10 { mp + 3 } else { mp - 9 };
    (if m <= 2 { y + 1 } else { y }, m, d)
}

proof fn lemma_day_of_year(doe: int)
    requires
        0 <= doe < 146_097,
    ensures
        0 <= year_of_era(doe) <= 399,
        0 <= day_of_year(doe) <= 365,
{
}

/// The Unix seconds a FILETIME stands for (ticks of 100 ns since 1601).
pub open spec fn unix_of_ticks(ft: i64) -> int {
    ft / 10_000_000 - 11_644_473_600
}

/// How the audit names the hour a FILETIME falls in: `YYYY-MM-DD HHh`, in
/// UTC; `?` for anything at or before 1970, never a date from 1601.
pub open spec fn filetime_label(ft: i64) -> Seq<char> {
    let unix = unix_of_ticks(ft);
    if ft < 0 || unix <= 0 {
        seq!['?']
    } else {
        let (y, m, d) = civil_from_days(unix / 86_400);
        let hour = (unix % 86_400) / 3600;
        padded(y as nat, 4) + seq!['-'] + padded(m as nat, 2) + seq!['-'] + padded(d as nat, 2) + seq![' ']
            + padded(hour as nat, 2) + seq!['h']
    }
}

/// The date of a day number, with every part non-negative.
fn civil(days: i64) -> (r: (u64, u64, u64))
    requires
        0 <= days <= 1_000_000_000,
    ensures
        r.0 as int == civil_from_days(days as int).0,
        r.1 as int == civil_from_days(days as int).1,
        r.2 as int == civil_from_days(days as int).2,
{
    let z = days + 719_468;
    let era = z / 146_097;
    let doe = z - era * 146_097;
    proof {
        lemma_day_of_year(doe as int);
    }
    let yoe = (doe - doe / 1460 + doe / 36_524 - doe / 146_096) / 365;
    let y = yoe + era * 400;
    let doy = doe - (365 * yoe + yoe / 4 - yoe / 100);
    let mp = (5 * doy + 2) / 153;
    let d = doy - (153 * mp + 2) / 5 + 1;
    let m = if mp < 10 { mp + 3 } else { mp - 9 };
    let y = if m <= 2 { y + 1 } else { y };
    (y as u64, m as u64, d as u64)
}

/// Windows FILETIME to a `YYYY-MM-DD HHh` string.
pub fn filetime_day(ft: i64) -> (r: String)
    ensures
        r@ == filetime_label(ft),
{
    if ft < 0 {
        return crate::text::string_of_char('?');
    }
    let unix: i64 = ft / 10_000_000 - 11_644_473_600;
    if unix <= 0 {
        return crate::text::string_of_char('?');
    }
    let days = unix / 86_400;
    let hour = (unix % 86_400) / 3600;
    let (y, m, d) = civil(days);
    let mut out: Vec<char> = Vec::new();
    push_padded(&mut out, y, 4);
    out.push('-');
    push_padded(&mut out, m, 2);
    out.push('-');
    push_padded(&mut out, d, 2);
    out.push(' ');
    push_padded(&mut out, hour as u64, 2);
    out.push('h');
    assert(out@ =~= filetime_label(ft));
    crate::text::string_from_chars(out.as_slice())
}

} // verus!
