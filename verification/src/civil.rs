//! Calendar dates from day numbers (proleptic Gregorian, days counted from
//! 1970-01-01), as the build date is stamped.
use vstd::prelude::*;
use vstd::arithmetic::div_mod::{lemma_fundamental_div_mod_converse, lemma_mod_multiples_vanish};
use crate::text::{append_chars, dec, decimal_chars, string_of};

verus! {

pub open spec fn leap(y: int) -> bool {
    y % 4 == 0 && (y % 100 != 0 || y % 400 == 0)
}

pub open spec fn month_len(y: int, m: int) -> int {
    if m == 2 {
        if leap(y) { 29 } else { 28 }
    } else if m == 4 || m == 6 || m == 9 || m == 11 {
        30
    } else {
        31
    }
}

pub open spec fn valid_date(y: int, m: int, d: int) -> bool {
    1 <= m <= 12 && 1 <= d <= month_len(y, m)
}

/// Days before year `yoe` of a 400-year era whose years start on 1 March.
pub open spec fn era_days(yoe: int) -> int {
    365 * yoe + yoe / 4 - yoe / 100
}

/// Days of the March-based year from the 1st of month `mp` (0 = March).
pub open spec fn month_start(mp: int) -> int {
    (153 * mp + 2) / 5
}

/// Number of the day `y-m-d`, counting 1970-01-01 as day 0: eras of 400
/// years, years starting on 1 March so that the leap day comes last.
pub open spec fn days_from_civil(y: int, m: int, d: int) -> int {
    let y2 = if m <= 2 { y - 1 } else { y };
    let era = y2 / 400;
    let yoe = y2 - era * 400;
    let mp = if m > 2 { m - 3 } else { m + 9 };
    era * 146097 + era_days(yoe) + month_start(mp) + d - 1 - 719468
}

proof fn lemma_year_of_era(doe: u32)
    by (bit_vector)
    requires
        doe <= 146096,
    ensures
        ({
            let yoe = (doe - doe / 1460 + doe / 36524 - doe / 146096) / 365;
            &&& yoe <= 399
            &&& 365 * yoe + yoe / 4 - yoe / 100 <= doe
            &&& doe - (365 * yoe + yoe / 4 - yoe / 100) < 365 + (if (yoe + 1) % 4 == 0 && ((yoe + 1) % 100
                != 0 || yoe == 399) {
                1u32
            } else {
                0u32
            })
        }),
{
}

proof fn lemma_month_of_year(doy: u32)
    by (bit_vector)
    requires
        doy <= 365,
    ensures
        ({
            let mp = (5 * doy + 2) / 153;
            let d = doy - (153 * mp + 2) / 5 + 1;
            &&& mp <= 11
            &&& (153 * mp + 2) / 5 <= doy
            &&& 1 <= d
            &&& d <= (if mp == 1 || mp == 3 || mp == 6 || mp == 8 {
                30u32
            } else if mp == 11 {
                if doy <= 364 { 28u32 } else { 29u32 }
            } else {
                31u32
            })
        }),
{
}

/// The date of day `days`, counting 1970-01-01 as day 0.
pub fn civil_from_days(days: i64) -> (r: (i64, u32, u32))
    requires
        i64::MIN + 719_468 <= days <= i64::MAX - 719_468,
    ensures
        valid_date(r.0 as int, r.1 as int, r.2 as int),
        days_from_civil(r.0 as int, r.1 as int, r.2 as int) == days,
{
    let z: i64 = days + 719_468;
    let era: i64 = if z >= 0 { z / 146_097 } else { -((146_096 - z) / 146_097) };
    proof {
        if z >= 0 {
            lemma_fundamental_div_mod_converse(z as int, 146097, era as int, z - era * 146097);
        } else {
            let q = (146_096 - z) / 146_097;
            assert(q * 146097 <= 146_096 - z < q * 146097 + 146097) by (nonlinear_arith)
                requires
                    q == (146_096 - z) / 146_097,
                    146_096 - z >= 0,
            ;
        }
        assert(0 <= z - era * 146097 <= 146096);
    }
    let doe: u32 = (z - era * 146_097) as u32;
    proof {
        lemma_year_of_era(doe);
    }
    let yoe: u32 = (doe - doe / 1460 + doe / 36_524 - doe / 146_096) / 365;
    let y: i64 = yoe as i64 + era * 400;
    let doy: u32 = doe - (365 * yoe + yoe / 4 - yoe / 100);
    proof {
        lemma_month_of_year(doy);
    }
    let mp: u32 = (5 * doy + 2) / 153;
    let d: u32 = doy - (153 * mp + 2) / 5 + 1;
    let m: u32 = if mp < 10 { mp + 3 } else { mp - 9 };
    let year: i64 = if m <= 2 { y + 1 } else { y };
    proof {
        let y2 = if m <= 2 { year - 1 } else { year as int };
        assert(y2 == y);
        lemma_fundamental_div_mod_converse(y2, 400, era as int, yoe as int);
        if m == 2 {
            lemma_mod_multiples_vanish(era * 100, yoe + 1, 4);
            lemma_mod_multiples_vanish(era * 4, yoe + 1, 100);
            lemma_mod_multiples_vanish(era as int, yoe + 1, 400);
            assert(year == 400 * era + yoe + 1);
            assert(year % 4 == (yoe + 1) % 4);
            assert(year % 100 == (yoe + 1) % 100);
            assert(year % 400 == (yoe + 1) % 400);
        }
    }
    (year, m, d)
}


/// The day after `y-m-d`.
pub open spec fn next_date(y: int, m: int, d: int) -> (int, int, int) {
    if d < month_len(y, m) {
        (y, m, d + 1)
    } else if m < 12 {
        (y, m + 1, 1)
    } else {
        (y + 1, 1, 1)
    }
}

/// Day 0 is 1970-01-01.
pub proof fn law_epoch()
    ensures
        days_from_civil(1970, 1, 1) == 0,
{
    assert(1969int / 400 == 4);
    assert(era_days(369) == 134774);
    assert(month_start(10) == 306);
}

/// Consecutive dates have consecutive numbers, so the numbering counts days.
pub proof fn law_next_day(y: int, m: int, d: int)
    requires
        valid_date(y, m, d),
    ensures
        ({
            let (y1, m1, d1) = next_date(y, m, d);
            valid_date(y1, m1, d1) && days_from_civil(y1, m1, d1) == days_from_civil(y, m, d) + 1
        }),
{
    let (y1, m1, d1) = next_date(y, m, d);
    if d < month_len(y, m) {
    } else if m < 12 && m != 2 {
        let mp = if m > 2 { m - 3 } else { m + 9 };
        assert(month_start(mp + 1) == month_start(mp) + month_len(y, m)) by {
            if mp == 0 {
            } else if mp == 1 {
            } else if mp == 2 {
            } else if mp == 3 {
            } else if mp == 4 {
            } else if mp == 5 {
            } else if mp == 6 {
            } else if mp == 7 {
            } else if mp == 8 {
            } else {
                assert(mp == 10);
            }
        }
    } else if m == 12 {
        assert(month_start(9) == 275);
        assert(month_start(10) == 306);
    } else {
        // From the last of February to the first of March: the era year turns.
        let y2 = y - 1;
        let era = y2 / 400;
        let yoe = y2 % 400;
        lemma_fundamental_div_mod_converse(y2, 400, era, yoe);
        lemma_mod_multiples_vanish(era * 100, yoe + 1, 4);
        lemma_mod_multiples_vanish(era * 4, yoe + 1, 100);
        lemma_mod_multiples_vanish(era, yoe + 1, 400);
        assert(y == 400 * era + yoe + 1);
        assert(y % 4 == (yoe + 1) % 4);
        assert(y % 100 == (yoe + 1) % 100);
        assert(y % 400 == (yoe + 1) % 400);
        assert(month_start(11) == 337);
        if yoe < 399 {
            lemma_fundamental_div_mod_converse(y, 400, era, yoe + 1);
            let q4 = yoe / 4;
            let q100 = yoe / 100;
            lemma_fundamental_div_mod_converse(yoe, 4, q4, yoe % 4);
            lemma_fundamental_div_mod_converse(yoe, 100, q100, yoe % 100);
            if (yoe + 1) % 4 == 0 {
                lemma_fundamental_div_mod_converse(yoe + 1, 4, q4 + 1, 0);
            } else {
                lemma_fundamental_div_mod_converse(yoe + 1, 4, q4, yoe % 4 + 1);
            }
            if (yoe + 1) % 100 == 0 {
                lemma_fundamental_div_mod_converse(yoe + 1, 100, q100 + 1, 0);
            } else {
                lemma_fundamental_div_mod_converse(yoe + 1, 100, q100, yoe % 100 + 1);
            }
        } else {
            lemma_fundamental_div_mod_converse(y, 400, era + 1, 0);
            assert(era_days(399) == 145731);
        }
    }
}


/// `n` in decimal, padded with zeros on the left to `w` digits.
pub open spec fn zero_padded(n: nat, w: nat) -> Seq<char> {
    let t = dec(n);
    if t.len() < w { Seq::new((w - t.len()) as nat, |i: int| '0') + t } else { t }
}

/// `format!("{:04}", y)`: four digits at least, the sign counting as one.
pub open spec fn year_text(y: int) -> Seq<char> {
    if y < 0 { seq!['-'] + zero_padded((-y) as nat, 3) } else { zero_padded(y as nat, 4) }
}

/// `YYYY-MM-DD` of the day that `secs` seconds after the epoch falls in.
pub open spec fn stamp_of(y: int, m: int, d: int) -> Seq<char> {
    year_text(y) + seq!['-'] + zero_padded(m as nat, 2) + seq!['-'] + zero_padded(d as nat, 2)
}

fn padded_chars(n: u64, w: usize) -> (v: Vec<char>)
    ensures
        v@ == zero_padded(n as nat, w as nat),
{
    let t = decimal_chars(n);
    if t.len() >= w {
        return t;
    }
    let mut v: Vec<char> = Vec::new();
    let pad = w - t.len();
    let mut k: usize = 0;
    while k < pad
        invariant
            k <= pad,
            v@ == Seq::new(k as nat, |i: int| '0'),
        decreases pad - k,
    {
        v.push('0');
        k = k + 1;
        proof {
            assert(v@ =~= Seq::new(k as nat, |i: int| '0'));
        }
    }
    append_chars(&mut v, &t);
    v
}

/// The date of a moment as the build stamps it: `YYYY-MM-DD` of the day
/// `secs` seconds after 1970-01-01 00:00 falls in.
pub fn date_stamp(secs: i64) -> (s: String)
    ensures
        exists|y: int, m: int, d: int|
            #![trigger days_from_civil(y, m, d)]
            valid_date(y, m, d) && days_from_civil(y, m, d) == secs as int / 86400 && s@ == stamp_of(y, m, d),
{
    let days: i64 = if secs >= 0 { secs / 86_400 } else { -((-(secs + 1)) / 86_400 + 1) };
    proof {
        if secs < 0 {
            let q = (-(secs + 1)) / 86_400;
            lemma_fundamental_div_mod_converse(-(secs + 1), 86400, q, (-(secs + 1)) % 86400);
            lemma_fundamental_div_mod_converse(secs as int, 86400, -(q + 1), 86399 - (-(secs + 1)) % 86400);
        }
    }
    let (y, m, d) = civil_from_days(days);
    let mut out: Vec<char> = Vec::new();
    if y < 0 {
        out.push('-');
        let a = padded_chars((-(y + 1)) as u64 + 1, 3);
        append_chars(&mut out, &a);
    } else {
        let a = padded_chars(y as u64, 4);
        append_chars(&mut out, &a);
    }
    out.push('-');
    let mm = padded_chars(m as u64, 2);
    append_chars(&mut out, &mm);
    out.push('-');
    let dd = padded_chars(d as u64, 2);
    append_chars(&mut out, &dd);
    proof {
        assert(out@ =~= stamp_of(y as int, m as int, d as int));
        assert(days_from_civil(y as int, m as int, d as int) == secs as int / 86400);
    }
    string_of(out.as_slice())
}


proof fn lemma_era_fits(yoe: u32, doy: u32, doe: u32)
    by (bit_vector)
    requires
        yoe <= 399,
        doy < 365 || (doy == 365 && yoe % 4 == 3 && (yoe % 100 != 99 || yoe == 399)),
        doe <= 365 * yoe + yoe / 4 - yoe / 100 + doy,
        365 * yoe + yoe / 4 - yoe / 100 + doy <= doe,
    ensures
        doe <= 146096,
        (doe - doe / 1460 + doe / 36524 - doe / 146096) / 365 <= yoe,
        yoe <= (doe - doe / 1460 + doe / 36524 - doe / 146096) / 365,
{
}

proof fn lemma_month_unique(mp: int, d: int)
    requires
        0 <= mp <= 11,
        1 <= d <= 31,
        mp == 1 || mp == 3 || mp == 6 || mp == 8 ==> d <= 30,
        mp == 11 ==> d <= 29,
    ensures
        (5 * (month_start(mp) + d - 1) + 2) / 153 == mp,
        month_start(mp) + d - 1 <= 365,
        mp == 11 && d <= 28 ==> month_start(mp) + d - 1 <= 364,
{
    if mp == 0 {
        assert(month_start(0) == 0);
    } else if mp == 1 {
        assert(month_start(1) == 31);
    } else if mp == 2 {
        assert(month_start(2) == 61);
    } else if mp == 3 {
        assert(month_start(3) == 92);
    } else if mp == 4 {
        assert(month_start(4) == 122);
    } else if mp == 5 {
        assert(month_start(5) == 153);
    } else if mp == 6 {
        assert(month_start(6) == 184);
    } else if mp == 7 {
        assert(month_start(7) == 214);
    } else if mp == 8 {
        assert(month_start(8) == 245);
    } else if mp == 9 {
        assert(month_start(9) == 275);
    } else if mp == 10 {
        assert(month_start(10) == 306);
    } else {
        assert(month_start(11) == 337);
    }
}

/// Parts of the day number of a valid date: its era, its day of the era,
/// its year of the era and its day of the (March-based) year.
proof fn lemma_decompose(y: int, m: int, d: int)
    requires
        valid_date(y, m, d),
    ensures
        ({
            let y2 = if m <= 2 { y - 1 } else { y };
            let era = y2 / 400;
            let yoe = y2 % 400;
            let mp = if m > 2 { m - 3 } else { m + 9 };
            let doy = month_start(mp) + d - 1;
            let doe = era_days(yoe) + doy;
            &&& 0 <= doe <= 146096
            &&& days_from_civil(y, m, d) + 719468 == era * 146097 + doe
            &&& (doe - doe / 1460 + doe / 36524 - doe / 146096) / 365 == yoe
            &&& (5 * doy + 2) / 153 == mp
        }),
{
    let y2 = if m <= 2 { y - 1 } else { y };
    let era = y2 / 400;
    let yoe = y2 % 400;
    let mp = if m > 2 { m - 3 } else { m + 9 };
    lemma_fundamental_div_mod_converse(y2, 400, era, yoe);
    assert(y2 - era * 400 == yoe);
    lemma_month_unique(mp, d);
    if m == 2 {
        lemma_mod_multiples_vanish(era * 100, yoe + 1, 4);
        lemma_mod_multiples_vanish(era * 4, yoe + 1, 100);
        lemma_mod_multiples_vanish(era, yoe + 1, 400);
        assert(y == 400 * era + yoe + 1);
    }
    let doy = month_start(mp) + d - 1;
    lemma_era_fits(yoe as u32, doy as u32, (era_days(yoe) + doy) as u32);
}

/// A day number names one date only.
pub proof fn law_date_unique(y1: int, m1: int, d1: int, y2: int, m2: int, d2: int)
    requires
        valid_date(y1, m1, d1),
        valid_date(y2, m2, d2),
        days_from_civil(y1, m1, d1) == days_from_civil(y2, m2, d2),
    ensures
        y1 == y2 && m1 == m2 && d1 == d2,
{
    lemma_decompose(y1, m1, d1);
    lemma_decompose(y2, m2, d2);
    let a = if m1 <= 2 { y1 - 1 } else { y1 };
    let b = if m2 <= 2 { y2 - 1 } else { y2 };
    let mpa = if m1 > 2 { m1 - 3 } else { m1 + 9 };
    let mpb = if m2 > 2 { m2 - 3 } else { m2 + 9 };
    let doea = era_days(a % 400) + month_start(mpa) + d1 - 1;
    let doeb = era_days(b % 400) + month_start(mpb) + d2 - 1;
    let n = days_from_civil(y1, m1, d1) + 719468;
    lemma_fundamental_div_mod_converse(n, 146097, a / 400, doea);
    lemma_fundamental_div_mod_converse(n, 146097, b / 400, doeb);
    assert(a % 400 == b % 400);
    lemma_fundamental_div_mod_converse(a, 400, a / 400, a % 400);
    lemma_fundamental_div_mod_converse(b, 400, b / 400, b % 400);
    assert(a == b);
    assert(month_start(mpa) + d1 == month_start(mpb) + d2);
    assert(mpa == mpb);
}

} // verus!
