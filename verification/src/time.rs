//! Dates and timestamps.
use vstd::prelude::*;

verus! {

/// Whether the year `y` of the Gregorian calendar is a leap year.
pub open spec fn is_leap(y: int) -> bool {
    y % 4 == 0 && (y % 100 != 0 || y % 400 == 0)
}

/// The days of the months before month `m` of a common year.
pub open spec fn days_before_month(m: int) -> int {
    if m <= 1 {
        0
    } else if m == 2 {
        31
    } else if m == 3 {
        59
    } else if m == 4 {
        90
    } else if m == 5 {
        120
    } else if m == 6 {
        151
    } else if m == 7 {
        181
    } else if m == 8 {
        212
    } else if m == 9 {
        243
    } else if m == 10 {
        273
    } else if m == 11 {
        304
    } else {
        334
    }
}

/// The leap years among the years 1 to `y`, counted on to negative years.
pub open spec fn leap_years_to(y: int) -> int {
    y / 4 - y / 100 + y / 400
}

/// The days from 1970-01-01 to the day `d` of month `m` of year `y`.
pub open spec fn civil_days(y: int, m: int, d: int) -> int {
    365 * (y - 1970) + leap_years_to(y - 1) - leap_years_to(1969) + days_before_month(m) + (
    if m > 2 && is_leap(y) {
        1int
    } else {
        0int
    }) + d - 1
}

/// The days from 1970-01-01 to the day `d` of month `m` of year `y`. A day beyond the end
/// of its month counts on into the next one.
pub fn days_from_civil(y: i64, m: i64, d: i64) -> (r: i64)
    requires
        1 <= m <= 12,
        -0x40_0000_0000_0000 <= y <= 0x40_0000_0000_0000,
        -0x1000_0000_0000_0000 <= d <= 0x1000_0000_0000_0000,
    ensures
        r == civil_days(y as int, m as int, d as int),
{
    // Years are counted from March, so that the leap day is the last of a year.
    let y2: i64 = if m <= 2 {
        y - 1
    } else {
        y
    };
    let era: i64 = if y2 >= 0 {
        y2 / 400
    } else {
        -((399 - y2) / 400)
    };
    let yoe: i64 = y2 - era * 400;
    let mp: i64 = (m + 9) % 12;
    let doy: i64 = (153 * mp + 2) / 5 + d - 1;
    let doe: i64 = yoe * 365 + yoe / 4 - yoe / 100 + doy;
    proof {
        assert(era == y2 as int / 400);
        assert(0 <= yoe < 400);
        march_months(m as int, mp as int);
        era_days(y2 as int, era as int, yoe as int);
        leap_step(y as int);
    }
    era * 146097 + doe - 719468
}

/// The days before a month, counted from March.
proof fn march_months(m: int, mp: int)
    requires
        1 <= m <= 12,
        mp == (m + 9) % 12,
    ensures
        m > 2 ==> (153 * mp + 2) / 5 == days_before_month(m) - 59,
        m <= 2 ==> (153 * mp + 2) / 5 == days_before_month(m) + 306,
{
}

proof fn era_days(y2: int, era: int, yoe: int)
    requires
        era == y2 / 400,
        yoe == y2 - era * 400,
    ensures
        era * 146097 + yoe * 365 + yoe / 4 - yoe / 100 == 365 * y2 + leap_years_to(y2),
{
    assert(y2 / 4 == era * 100 + yoe / 4);
    assert(y2 / 100 == era * 4 + yoe / 100);
}

/// A year adds a leap day to the count exactly if it is a leap year.
proof fn leap_step(y: int)
    ensures
        leap_years_to(y) == leap_years_to(y - 1) + (if is_leap(y) {
            1int
        } else {
            0int
        }),
{
    assert(y / 4 == (y - 1) / 4 + (if y % 4 == 0 { 1int } else { 0int }));
    assert(y / 100 == (y - 1) / 100 + (if y % 100 == 0 { 1int } else { 0int }));
    assert(y / 400 == (y - 1) / 400 + (if y % 400 == 0 { 1int } else { 0int }));
}

// ── Timestamps ──────────────────────────────────────────────────────────────────────────

pub open spec fn is_digit_byte(b: u8) -> bool {
    48 <= b <= 57
}

/// The number that the decimal digits `s` write, where all of it is digits.
pub open spec fn number(s: Seq<u8>) -> Option<int>
    decreases s.len(),
{
    if s.len() == 0 {
        Some(0)
    } else if !is_digit_byte(s.last()) {
        None
    } else {
        match number(s.drop_last()) {
            Some(n) => Some(n * 10 + (s.last() - 48)),
            None => None,
        }
    }
}

/// The digit at position `i`, or 0 where the digits from `from` on do not reach that far.
pub open spec fn fraction_digit(b: Seq<u8>, from: int, i: int) -> int {
    if i < b.len() && (forall|j: int| from <= j <= i ==> is_digit_byte(#[trigger] b[j])) {
        b[i] - 48
    } else {
        0
    }
}

/// The milliseconds after the seconds: the first three digits of the fraction.
pub open spec fn fraction_ms(b: Seq<u8>) -> int {
    if b.len() > 20 && b[19] == 46 {
        fraction_digit(b, 20, 20) * 100 + fraction_digit(b, 20, 21) * 10 + fraction_digit(b, 20, 22)
    } else {
        0
    }
}

/// The milliseconds since 1970 that the bytes of a timestamp `YYYY-MM-DDTHH:MM:SS[.fff]`
/// write. What follows the seconds and their fraction is not looked at.
pub open spec fn iso_ms(b: Seq<u8>) -> Option<int> {
    if b.len() < 19 || b[4] != 45 || b[7] != 45 || (b[10] != 84 && b[10] != 32) || b[13] != 58
        || b[16] != 58 {
        None
    } else {
        match (
            number(b.subrange(0, 4)),
            number(b.subrange(5, 7)),
            number(b.subrange(8, 10)),
            number(b.subrange(11, 13)),
            number(b.subrange(14, 16)),
            number(b.subrange(17, 19)),
        ) {
            (Some(y), Some(mo), Some(d), Some(h), Some(mi), Some(s)) => if 1 <= mo <= 12 && 1 <= d
                <= 31 && h <= 23 && mi <= 59 && s <= 60 {
                Some(
                    (civil_days(y, mo, d) * 86400 + h * 3600 + mi * 60 + s) * 1000 + fraction_ms(b),
                )
            } else {
                None
            },
            _ => None,
        }
    }
}

fn is_digit_at(b: &[u8], i: usize) -> (r: bool)
    requires
        i < b@.len(),
    ensures
        r == is_digit_byte(b@[i as int]),
{
    b[i] >= 48 && b[i] <= 57
}

/// The number that the bytes `i` to `j` of `b` write.
fn number_at(b: &[u8], i: usize, j: usize) -> (r: Option<i64>)
    requires
        i <= j <= b@.len(),
        j - i <= 4,
    ensures
        (match r {
            Some(n) => number(b@.subrange(i as int, j as int)) == Some(n as int) && 0 <= n <= 9999,
            None => number(b@.subrange(i as int, j as int)) is None,
        }),
{
    let ghost part = b@.subrange(i as int, j as int);
    let mut n: i64 = 0;
    let mut k: usize = i;
    assert(part.take(0) =~= Seq::empty());
    while k < j
        invariant
            i <= k <= j <= b@.len(),
            j - i <= 4,
            part == b@.subrange(i as int, j as int),
            number(part.take(k - i)) == Some(n as int),
            k - i == 0 ==> n == 0,
            k - i == 1 ==> 0 <= n <= 9,
            k - i == 2 ==> 0 <= n <= 99,
            k - i == 3 ==> 0 <= n <= 999,
            k - i == 4 ==> 0 <= n <= 9999,
        decreases j - k,
    {
        proof {
            assert(part.take(k - i + 1).drop_last() =~= part.take(k - i));
            assert(part.take(k - i + 1).last() == b@[k as int]);
        }
        if !is_digit_at(b, k) {
            proof {
                number_needs_digits(part, k - i + 1);
            }
            return None;
        }
        n = n * 10 + (b[k] - 48) as i64;
        k += 1;
    }
    assert(part.take(j - i) =~= part);
    Some(n)
}

/// Where a beginning writes no number, the whole writes none.
proof fn number_needs_digits(s: Seq<u8>, k: int)
    requires
        0 <= k <= s.len(),
        number(s.take(k)) is None,
    ensures
        number(s) is None,
    decreases s.len(),
{
    if k == s.len() {
        assert(s.take(k) =~= s);
    } else {
        assert(s.drop_last().take(k) =~= s.take(k));
        number_needs_digits(s.drop_last(), k);
    }
}

fn milliseconds(b: &[u8]) -> (r: i64)
    ensures
        r == fraction_ms(b@),
        0 <= r <= 999,
{
    if b.len() <= 20 || b[19] != 46 {
        return 0;
    }
    let mut ms: i64 = 0;
    if is_digit_at(b, 20) {
        assert(fraction_digit(b@, 20, 20) == b@[20] - 48);
        ms = (b[20] - 48) as i64 * 100;
        if b.len() > 21 && is_digit_at(b, 21) {
            assert(fraction_digit(b@, 20, 21) == b@[21] - 48);
            ms = ms + (b[21] - 48) as i64 * 10;
            if b.len() > 22 && is_digit_at(b, 22) {
                assert(fraction_digit(b@, 20, 22) == b@[22] - 48);
                ms = ms + (b[22] - 48) as i64;
            } else {
                assert(fraction_digit(b@, 20, 22) == 0) by {
                    if b@.len() > 22 {
                        assert(!is_digit_byte(b@[22]));
                    }
                }
            }
        } else {
            assert(fraction_digit(b@, 20, 21) == 0 && fraction_digit(b@, 20, 22) == 0) by {
                if b@.len() > 21 {
                    assert(!is_digit_byte(b@[21]));
                }
            }
        }
    } else {
        assert(!is_digit_byte(b@[20]));
    }
    ms
}

/// The milliseconds since 1970 that a transcript timestamp writes, taken as UTC.
pub fn parse_iso8601_ms(s: &str) -> (r: Option<i64>)
    ensures
        (match r {
            Some(t) => iso_ms(vstd::utf8::encode_utf8(s@)) == Some(t as int),
            None => iso_ms(vstd::utf8::encode_utf8(s@)) is None,
        }),
{
    let b = s.as_bytes();
    if b.len() < 19 {
        return None;
    }
    if b[4] != 45 || b[7] != 45 || (b[10] != 84 && b[10] != 32) || b[13] != 58 || b[16] != 58 {
        return None;
    }
    let y: i64 = match number_at(b, 0, 4) {
        Some(n) => n,
        None => return None,
    };
    let mo: i64 = match number_at(b, 5, 7) {
        Some(n) => n,
        None => return None,
    };
    let d: i64 = match number_at(b, 8, 10) {
        Some(n) => n,
        None => return None,
    };
    let h: i64 = match number_at(b, 11, 13) {
        Some(n) => n,
        None => return None,
    };
    let mi: i64 = match number_at(b, 14, 16) {
        Some(n) => n,
        None => return None,
    };
    let sec: i64 = match number_at(b, 17, 19) {
        Some(n) => n,
        None => return None,
    };
    if mo < 1 || mo > 12 || d < 1 || d > 31 || h > 23 || mi > 59 || sec > 60 {
        return None;
    }
    let ms: i64 = milliseconds(b);
    let days: i64 = days_from_civil(y, mo, d);
    Some((days * 86400 + h * 3600 + mi * 60 + sec) * 1000 + ms)
}

/// The day after a day is one day later, also over the end of a month and of a year: the
/// first of a month follows the last day of the month before.
pub proof fn months_follow_each_other(y: int, m: int)
    requires
        1 <= m <= 12,
    ensures
        m == 12 ==> civil_days(y + 1, 1, 1) == civil_days(y, 12, 31) + 1,
        m < 12 ==> civil_days(y, m + 1, 1) == civil_days(
            y,
            m,
            if m == 2 {
                if is_leap(y) {
                    29
                } else {
                    28
                }
            } else if m == 4 || m == 6 || m == 9 || m == 11 {
                30
            } else {
                31
            },
        ) + 1,
        civil_days(1970, 1, 1) == 0,
{
    leap_step(y);
}

/// The two digits of `n`.
pub open spec fn two_digits(n: int) -> Seq<u8> {
    seq![(48 + n / 10) as u8, (48 + n % 10) as u8]
}

/// The four digits of a year.
pub open spec fn four_digits(n: int) -> Seq<u8> {
    two_digits(n / 100) + two_digits(n % 100)
}

proof fn two_read_back(n: int)
    requires
        0 <= n <= 99,
    ensures
        two_digits(n).len() == 2,
        number(two_digits(n)) == Some(n),
{
    let s = two_digits(n);
    reveal_with_fuel(number, 3);
    assert(s.drop_last() =~= seq![(48 + n / 10) as u8]);
    assert(s.drop_last().drop_last() =~= Seq::empty());
    assert(48 <= (48 + n / 10) as u8 <= 57 && 48 <= (48 + n % 10) as u8 <= 57);
}

proof fn four_read_back(n: int)
    requires
        0 <= n <= 9999,
    ensures
        four_digits(n).len() == 4,
        number(four_digits(n)) == Some(n),
{
    let s = four_digits(n);
    two_read_back(n / 100);
    two_read_back(n % 100);
    let hi = two_digits(n / 100);
    let lo = two_digits(n % 100);
    assert(s.drop_last().drop_last() =~= hi);
    assert(s.last() == lo[1] && s.drop_last().last() == lo[0]);
    assert(48 <= lo[0] <= 57 && 48 <= lo[1] <= 57);
    assert(number(s.drop_last()) == Some((n / 100) * 10 + (n % 100) / 10));
}

/// A timestamp `YYYY-MM-DDTHH:MM:SS.mmm` and a letter, as bytes.
pub open spec fn timestamp(y: int, mo: int, d: int, h: int, mi: int, s: int, ms: int) -> Seq<u8> {
    four_digits(y) + seq![45u8] + two_digits(mo) + seq![45u8] + two_digits(d) + seq![84u8]
        + two_digits(h) + seq![58u8] + two_digits(mi) + seq![58u8] + two_digits(s) + seq![46u8]
        + seq![(48 + ms / 100) as u8] + two_digits(ms % 100) + seq![90u8]
}

/// A timestamp is read as the milliseconds from the beginning of 1970 to the moment that it
/// names: its day, and in it the hours, minutes, seconds and milliseconds.
pub proof fn timestamps_are_read_back(y: int, mo: int, d: int, h: int, mi: int, s: int, ms: int)
    requires
        0 <= y <= 9999,
        1 <= mo <= 12,
        1 <= d <= 31,
        0 <= h <= 23,
        0 <= mi <= 59,
        0 <= s <= 59,
        0 <= ms <= 999,
    ensures
        iso_ms(timestamp(y, mo, d, h, mi, s, ms)) == Some(
            civil_days(y, mo, d) * 86_400_000 + h * 3_600_000 + mi * 60_000 + s * 1000 + ms,
        ),
{
    let b = timestamp(y, mo, d, h, mi, s, ms);
    four_read_back(y);
    two_read_back(mo);
    two_read_back(d);
    two_read_back(h);
    two_read_back(mi);
    two_read_back(s);
    two_read_back(ms % 100);
    assert(b.len() == 24);
    assert(b.subrange(0, 4) =~= four_digits(y));
    assert(b.subrange(5, 7) =~= two_digits(mo));
    assert(b.subrange(8, 10) =~= two_digits(d));
    assert(b.subrange(11, 13) =~= two_digits(h));
    assert(b.subrange(14, 16) =~= two_digits(mi));
    assert(b.subrange(17, 19) =~= two_digits(s));
    let lo = two_digits(ms % 100);
    assert(b[20] == (48 + ms / 100) as u8 && b[21] == lo[0] && b[22] == lo[1]);
    assert(is_digit_byte(b[20]) && is_digit_byte(b[21]) && is_digit_byte(b[22]));
    assert(fraction_ms(b) == ms);
}

/// Of two days of a month the later counts one more for each day between them; the years
/// follow each other by 365 days, or by 366 where there is a leap day between.
pub proof fn days_follow_each_other(y: int, m: int, d: int, e: int)
    requires
        1 <= m <= 12,
    ensures
        civil_days(y, m, e) - civil_days(y, m, d) == e - d,
        civil_days(y + 1, 1, 1) - civil_days(y, 1, 1) == (if y % 400 == 0 || (y % 4 == 0 && y % 100
            != 0) {
            366int
        } else {
            365
        }),
        civil_days(2000, 1, 1) == 10957,
{
    leap_step(y);
    if y % 400 == 0 {
        assert(y % 4 == 0);
    }
}

} // verus!
