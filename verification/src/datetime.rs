//! SQL `DATETIME` text (`YYYY-MM-DD HH:MM:SS`, UTC) of a Unix time, as SQLite's
//! `CURRENT_TIMESTAMP` writes it, for the years 0000 to 9999.

use vstd::prelude::*;
use vstd::string::*;
use crate::text::{digit_char, digit_text};

verus! {

/// Gregorian leap year.
pub open spec fn is_leap(y: int) -> bool {
    y % 4 == 0 && (y % 100 != 0 || y % 400 == 0)
}

/// The number of leap years among the years `0 .. y` (year 0 is one).
pub open spec fn leaps_before(y: int) -> int {
    if y <= 0 {
        0
    } else {
        (y - 1) / 4 - (y - 1) / 100 + (y - 1) / 400 + 1
    }
}

pub open spec fn month_len(y: int, m: int) -> int {
    if m == 2 {
        if is_leap(y) {
            29
        } else {
            28
        }
    } else if m == 4 || m == 6 || m == 9 || m == 11 {
        30
    } else {
        31
    }
}

/// The days of year `y` before month `m`.
pub open spec fn month_start(y: int, m: int) -> int
    decreases m,
{
    if m <= 1 {
        0
    } else {
        month_start(y, m - 1) + month_len(y, m - 1)
    }
}

/// The number of days from 0000-01-01 to `y-m-d`.
pub open spec fn day_number(y: int, m: int, d: int) -> int {
    365 * y + leaps_before(y) + month_start(y, m) + d - 1
}

pub open spec fn valid_date(y: int, m: int, d: int) -> bool {
    0 <= y <= 9999 && 1 <= m <= 12 && 1 <= d <= month_len(y, m)
}

/// The day number of 1970-01-01.
pub open spec fn epoch_day() -> int {
    719528
}

/// The Unix times whose date lies in the years 0000 to 9999.
pub open spec fn in_datetime_range(t: int) -> bool {
    -62167219200 <= t <= 253402300799
}

pub open spec fn digits2(n: int) -> Seq<char> {
    seq![digit_char((n / 10) as nat), digit_char((n % 10) as nat)]
}

pub open spec fn digits4(n: int) -> Seq<char> {
    digits2(n / 100) + digits2(n % 100)
}

pub open spec fn datetime_text(y: int, m: int, d: int, hh: int, mm: int, ss: int) -> Seq<char> {
    digits4(y) + seq!['-'] + digits2(m) + seq!['-'] + digits2(d) + seq![' '] + digits2(hh) + seq![':']
        + digits2(mm) + seq![':'] + digits2(ss)
}

/// `text` is the `DATETIME` text of Unix time `t`: the calendar date of the day holding
/// `t`, then the hour, minute and second within that day.
pub open spec fn is_sql_datetime(t: int, text: Seq<char>) -> bool {
    exists|y: int, m: int, d: int|
        #![trigger day_number(y, m, d)]
        valid_date(y, m, d) && day_number(y, m, d) == t / 86400 + epoch_day() && text == datetime_text(
            y,
            m,
            d,
            (t % 86400) / 3600,
            (t % 3600) / 60,
            t % 60,
        )
}

/// The `DATETIME` text of Unix time `t` (one text at most fits `is_sql_datetime`).
pub open spec fn sql_datetime_text(t: int) -> Seq<char> {
    choose|text: Seq<char>| is_sql_datetime(t, text)
}

proof fn lemma_years_ordered(y1: int, y2: int)
    requires
        0 <= y1 < y2,
    ensures
        day_number(y1 + 1, 1, 1) <= day_number(y2, 1, 1),
    decreases y2 - y1,
{
    lemma_next_year(y2 - 1);
    if y1 + 1 < y2 {
        lemma_years_ordered(y1, y2 - 1);
    }
}

proof fn lemma_months_ordered(y: int, m1: int, m2: int)
    requires
        1 <= m1 < m2,
    ensures
        month_start(y, m1) + month_len(y, m1) <= month_start(y, m2),
    decreases m2 - m1,
{
    if m1 + 1 < m2 {
        lemma_months_ordered(y, m1, m2 - 1);
    }
}

/// A valid date lies within its year.
proof fn lemma_date_within_year(y: int, m: int, d: int)
    requires
        valid_date(y, m, d),
    ensures
        day_number(y, 1, 1) <= day_number(y, m, d) < day_number(y + 1, 1, 1),
{
    lemma_next_year(y);
    lemma_year_len(y);
    if m < 12 {
        lemma_months_ordered(y, m, 13);
    } else {
        assert(month_start(y, 13) == month_start(y, 12) + month_len(y, 12));
    }
    if m > 1 {
        lemma_months_ordered(y, 1, m);
    }
}

/// Different valid dates have different day numbers.
proof fn lemma_day_number_injective(y1: int, m1: int, d1: int, y2: int, m2: int, d2: int)
    requires
        valid_date(y1, m1, d1),
        valid_date(y2, m2, d2),
        day_number(y1, m1, d1) == day_number(y2, m2, d2),
    ensures
        y1 == y2 && m1 == m2 && d1 == d2,
{
    lemma_date_within_year(y1, m1, d1);
    lemma_date_within_year(y2, m2, d2);
    if y1 < y2 {
        lemma_years_ordered(y1, y2);
    } else if y2 < y1 {
        lemma_years_ordered(y2, y1);
    } else if m1 < m2 {
        lemma_months_ordered(y1, m1, m2);
    } else if m2 < m1 {
        lemma_months_ordered(y1, m2, m1);
    }
}

/// A Unix time has at most one `DATETIME` text.
pub proof fn lemma_sql_datetime_unique(t: int, a: Seq<char>, b: Seq<char>)
    requires
        is_sql_datetime(t, a),
        is_sql_datetime(t, b),
    ensures
        a == b,
{
    let (y1, m1, d1) = choose|y: int, m: int, d: int|
        #![trigger day_number(y, m, d)]
        valid_date(y, m, d) && day_number(y, m, d) == t / 86400 + epoch_day() && a == datetime_text(
            y,
            m,
            d,
            (t % 86400) / 3600,
            (t % 3600) / 60,
            t % 60,
        );
    let (y2, m2, d2) = choose|y: int, m: int, d: int|
        #![trigger day_number(y, m, d)]
        valid_date(y, m, d) && day_number(y, m, d) == t / 86400 + epoch_day() && b == datetime_text(
            y,
            m,
            d,
            (t % 86400) / 3600,
            (t % 3600) / 60,
            t % 60,
        );
    lemma_day_number_injective(y1, m1, d1, y2, m2, d2);
}

proof fn lemma_next_year(y: int)
    requires
        y >= 0,
    ensures
        leaps_before(y + 1) == leaps_before(y) + if is_leap(y) {
            1int
        } else {
            0int
        },
{
    if y > 0 {
        assert(y / 4 - (y - 1) / 4 == if y % 4 == 0 { 1int } else { 0int }) by (nonlinear_arith)
            requires
                y > 0,
        ;
        assert(y / 100 - (y - 1) / 100 == if y % 100 == 0 { 1int } else { 0int }) by (nonlinear_arith)
            requires
                y > 0,
        ;
        assert(y / 400 - (y - 1) / 400 == if y % 400 == 0 { 1int } else { 0int }) by (nonlinear_arith)
            requires
                y > 0,
        ;
        assert(y % 400 == 0 ==> y % 100 == 0 && y % 4 == 0) by (nonlinear_arith);
        assert(y % 100 == 0 ==> y % 4 == 0) by (nonlinear_arith);
    }
}

proof fn lemma_year_len(y: int)
    ensures
        month_start(y, 13) == if is_leap(y) {
            366int
        } else {
            365int
        },
{
    reveal_with_fuel(month_start, 13);
}

fn leap_exec(y: u64) -> (r: bool)
    ensures
        r == is_leap(y as int),
{
    y % 4 == 0 && (y % 100 != 0 || y % 400 == 0)
}

fn year_len_exec(y: u64) -> (r: u64)
    ensures
        r == if is_leap(y as int) {
            366int
        } else {
            365int
        },
{
    if leap_exec(y) {
        366
    } else {
        365
    }
}

fn month_len_exec(y: u64, m: u64) -> (r: u64)
    ensures
        r == month_len(y as int, m as int),
{
    if m == 2 {
        if leap_exec(y) {
            29
        } else {
            28
        }
    } else if m == 4 || m == 6 || m == 9 || m == 11 {
        30
    } else {
        31
    }
}

fn push2(out: &mut String, n: u64)
    requires
        n < 100,
    ensures
        final(out)@ == old(out)@ + digits2(n as int),
{
    let ghost before = out@;
    out.append(digit_text(n / 10));
    out.append(digit_text(n % 10));
    assert(out@ =~= before + digits2(n as int));
}

fn push_char(out: &mut String, c: &str)
    ensures
        final(out)@ == old(out)@ + c@,
{
    out.append(c);
}

/// The `DATETIME` text of Unix time `t`, for times in the years 0000 to 9999.
pub fn sql_datetime(t: i64) -> (r: Option<String>)
    ensures
        r is Some <==> in_datetime_range(t as int),
        r matches Some(s) ==> is_sql_datetime(t as int, s@) && s@ == sql_datetime_text(t as int) && s@.len()
            == 19,
{
    if t < -62167219200i64 || t > 253402300799i64 {
        return None;
    }
    let u: u64 = (t + 62167219200i64) as u64;
    let dn: u64 = u / 86400;
    let sod: u64 = u % 86400;
    proof {
        let ti = t as int;
        assert(ti == u as int - 719528 * 86400);
        assert(ti / 86400 == (u as int) / 86400 - 719528 && ti % 86400 == (u as int) % 86400) by (nonlinear_arith)
            requires
                ti == u as int - 719528 * 86400,
                u >= 0,
        ;
        assert(ti % 3600 == (u as int % 86400) % 3600 && ti % 60 == (u as int % 86400) % 60) by (nonlinear_arith)
            requires
                ti == u as int - 719528 * 86400,
                u >= 0,
        ;
        assert(dn <= 3652424);
    }
    let mut y: u64 = 0;
    let mut rem: u64 = dn;
    while rem >= year_len_exec(y)
        invariant
            day_number(y as int, 1, 1) + rem == dn,
            y <= 9999,
            dn <= 3652424,
        decreases rem,
    {
        let len: u64 = year_len_exec(y);
        proof {
            lemma_next_year(y as int);
            if y == 9999 {
                assert(leaps_before(10000) == 2425);
                assert(day_number(10000, 1, 1) == 3652425);
            }
        }
        rem = rem - len;
        y = y + 1;
    }
    let ghost year_rem = rem;
    proof {
        lemma_year_len(y as int);
    }
    let mut m: u64 = 1;
    while rem >= month_len_exec(y, m)
        invariant
            1 <= m <= 12,
            y <= 9999,
            month_start(y as int, m as int) + rem == year_rem,
            year_rem < month_start(y as int, 13),
            day_number(y as int, 1, 1) + year_rem == dn,
        decreases rem,
    {
        let len = month_len_exec(y, m);
        rem = rem - len;
        m = m + 1;
    }
    let d = rem + 1;
    let hh = sod / 3600;
    let mm = (sod % 3600) / 60;
    let ss = sod % 60;
    let mut s = String::new();
    push2(&mut s, y / 100);
    push2(&mut s, y % 100);
    proof {
        reveal_strlit("-");
        reveal_strlit(" ");
        reveal_strlit(":");
    }
    push_char(&mut s, "-");
    push2(&mut s, m);
    push_char(&mut s, "-");
    push2(&mut s, d);
    push_char(&mut s, " ");
    push2(&mut s, hh);
    push_char(&mut s, ":");
    push2(&mut s, mm);
    push_char(&mut s, ":");
    push2(&mut s, ss);
    proof {
        let yi = y as int;
        let mi = m as int;
        let di = d as int;
        assert(valid_date(yi, mi, di));
        assert(day_number(yi, mi, di) == dn);
        assert(s@ =~= datetime_text(yi, mi, di, hh as int, mm as int, ss as int));
        assert(is_sql_datetime(t as int, s@));
        lemma_sql_datetime_unique(t as int, s@, sql_datetime_text(t as int));
    }
    Some(s)
}

} // verus!
