//! Date and time arithmetic on the proleptic Gregorian calendar.
//!
//! The feed carries `published` stamps in a fixed layout with a zone
//! offset, and the development console takes plain `year-month-day`
//! dates; both become Unix timestamps here.

use vstd::prelude::*;

use crate::text::chars_vec;

verus! {

pub open spec fn is_leap(y: int) -> bool {
    (y % 4 == 0 && y % 100 != 0) || y % 400 == 0
}

pub open spec fn days_in_month(y: int, m: int) -> int {
    if m == 2 {
        if is_leap(y) {
            29
        } else {
            28
        }
    } else if m == 4 || m == 6 || m == 9 || m == 11 {
        30
    } else {
        31
    }
}

pub open spec fn days_in_year(y: int) -> int {
    if is_leap(y) {
        366
    } else {
        365
    }
}

/// Days from 1970-01-01 to the first day of year `y`; negative before
/// 1970.
pub open spec fn days_to_year(y: int) -> int
    decreases (if y >= 1970 {
        y - 1970
    } else {
        1970 - y
    }),
{
    if y == 1970 {
        0
    } else if y > 1970 {
        days_to_year(y - 1) + days_in_year(y - 1)
    } else {
        days_to_year(y + 1) - days_in_year(y)
    }
}

/// Days from the first day of year `y` to the first day of its month
/// `m`.
pub open spec fn days_before_month(y: int, m: int) -> int
    decreases m,
{
    if m <= 1 {
        0
    } else {
        days_before_month(y, m - 1) + days_in_month(y, m - 1)
    }
}

/// Days from 1970-01-01 to the given date.
pub open spec fn epoch_days(y: int, m: int, d: int) -> int {
    days_to_year(y) + days_before_month(y, m) + (d - 1)
}

/// The timestamp of the given date's midnight, UTC.
pub open spec fn midnight_ts(y: int, m: int, d: int) -> int {
    epoch_days(y, m, d) * 86400
}

pub proof fn lemma_days_to_year_bounds(y: int)
    requires
        0 <= y <= 9999,
    ensures
        -366 * 1970 <= days_to_year(y) <= 366 * 9999,
    decreases (if y >= 1970 {
        y - 1970
    } else {
        1970 - y
    }),
{
    if y > 1970 {
        lemma_days_to_year_bounds(y - 1);
        assert(days_to_year(y) <= days_to_year(y - 1) + 366);
        assert(days_to_year(y - 1) <= 366 * (y - 1 - 1970)) by {
            lemma_days_to_year_le(y - 1);
        }
    } else if y < 1970 {
        lemma_days_to_year_bounds(y + 1);
        assert(days_to_year(y) >= -366 * (1970 - y)) by {
            lemma_days_to_year_ge(y);
        }
    }
}

proof fn lemma_days_to_year_le(y: int)
    requires
        1970 <= y,
    ensures
        days_to_year(y) <= 366 * (y - 1970),
    decreases y - 1970,
{
    if y > 1970 {
        lemma_days_to_year_le(y - 1);
    }
}

proof fn lemma_days_to_year_ge(y: int)
    requires
        y <= 1970,
    ensures
        days_to_year(y) >= -366 * (1970 - y),
    decreases 1970 - y,
{
    if y < 1970 {
        lemma_days_to_year_ge(y + 1);
    }
}

/// Days since the epoch to the first of year `y`, computed by walking
/// the calendar.
fn days_to_year_exec(y: i64) -> (r: i64)
    requires
        0 <= y <= 9999,
    ensures
        r as int == days_to_year(y as int),
        -366 * 1970 <= r <= 366 * 9999,
{
    proof {
        lemma_days_to_year_le(1970);
        lemma_days_to_year_bounds(y as int);
    }
    if y >= 1970 {
        let mut acc: i64 = 0;
        let mut yy: i64 = 1970;
        while yy < y
            invariant
                1970 <= yy <= y <= 9999,
                acc as int == days_to_year(yy as int),
                -366 * 1970 <= acc <= 366 * 9999,
            decreases y - yy,
        {
            let dy: i64 = if (yy % 4 == 0 && yy % 100 != 0) || yy % 400 == 0 {
                366
            } else {
                365
            };
            proof {
                lemma_days_to_year_bounds(yy as int + 1);
            }
            acc = acc + dy;
            yy = yy + 1;
        }
        acc
    } else {
        let mut acc: i64 = 0;
        let mut yy: i64 = y;
        while yy < 1970
            invariant
                0 <= y <= yy <= 1970,
                acc as int == days_to_year(y as int) - days_to_year(yy as int),
                -366 * 1970 <= days_to_year(y as int) <= 366 * 9999,
                -366 * 1970 <= days_to_year(yy as int) <= 366 * 9999,
            decreases 1970 - yy,
        {
            let dy: i64 = if (yy % 4 == 0 && yy % 100 != 0) || yy % 400 == 0 {
                366
            } else {
                365
            };
            proof {
                assert(days_to_year(yy as int) == days_to_year(yy as int + 1) - days_in_year(
                    yy as int,
                ));
                lemma_days_to_year_bounds(yy as int + 1);
                lemma_days_to_year_bounds(y as int);
            }
            acc = acc - dy;
            yy = yy + 1;
        }
        acc
    }
}

fn days_in_month_exec(y: i64, m: i64) -> (r: i64)
    requires
        1 <= m <= 12,
    ensures
        r as int == days_in_month(y as int, m as int),
        28 <= r <= 31,
{
    if m == 2 {
        if (y % 4 == 0 && y % 100 != 0) || y % 400 == 0 {
            29
        } else {
            28
        }
    } else if m == 4 || m == 6 || m == 9 || m == 11 {
        30
    } else {
        31
    }
}

fn days_before_month_exec(y: i64, m: i64) -> (r: i64)
    requires
        1 <= m <= 12,
    ensures
        r as int == days_before_month(y as int, m as int),
        0 <= r <= 366,
{
    let mut acc: i64 = 0;
    let mut mm: i64 = 1;
    while mm < m
        invariant
            1 <= mm <= m <= 12,
            acc as int == days_before_month(y as int, mm as int),
            0 <= acc <= 31 * (mm - 1),
        decreases m - mm,
    {
        acc = acc + days_in_month_exec(y, mm);
        mm = mm + 1;
    }
    acc
}

/// The timestamp of the date's midnight, UTC.
pub fn midnight_timestamp(y: i64, m: i64, d: i64) -> (r: i64)
    requires
        0 <= y <= 9999,
        1 <= m <= 12,
        1 <= d <= 31,
    ensures
        r as int == midnight_ts(y as int, m as int, d as int),
        -63000000000 <= r <= 320000000000,
{
    let days = days_to_year_exec(y) + days_before_month_exec(y, m) + (d - 1);
    proof {
        lemma_days_to_year_bounds(y as int);
    }
    days * 86400
}

/// Powers of ten, for digit-run bounds.
pub open spec fn pow10(n: int) -> int
    decreases n,
{
    if n <= 0 {
        1
    } else {
        10 * pow10(n - 1)
    }
}

/// True for an ASCII decimal digit.
pub open spec fn is_digit(c: char) -> bool {
    48 <= c as u32 <= 57
}

/// The value of an ASCII decimal digit.
pub open spec fn digit_val(c: char) -> int {
    c as u32 - 48
}

/// The number written by a digit run.
pub open spec fn digits_val(s: Seq<char>) -> int
    decreases s.len(),
{
    if s.len() == 0 {
        0
    } else {
        digits_val(s.drop_last()) * 10 + digit_val(s.last())
    }
}

/// True when every character of `s` is a digit.
pub open spec fn all_digits(s: Seq<char>) -> bool {
    forall|i: int| 0 <= i < s.len() ==> is_digit(#[trigger] s[i])
}

/// A date in `year-month-day` layout with two-digit month and day, when
/// it names a real calendar day.
pub open spec fn parse_date_spec(s: Seq<char>) -> Option<(int, int, int)> {
    if s.len() == 10 && s[4] == '-' && s[7] == '-' && all_digits(s.subrange(0, 4)) && all_digits(
        s.subrange(5, 7),
    ) && all_digits(s.subrange(8, 10)) {
        let y = digits_val(s.subrange(0, 4));
        let m = digits_val(s.subrange(5, 7));
        let d = digits_val(s.subrange(8, 10));
        if 1 <= m <= 12 && 1 <= d <= days_in_month(y, m) {
            Some((y, m, d))
        } else {
            None
        }
    } else {
        None
    }
}

/// What the console's date argument becomes: an empty or unparsable date
/// is the unbounded marker zero, a real date is its midnight timestamp.
pub open spec fn transform_date_spec(s: Seq<char>) -> int {
    match parse_date_spec(s) {
        Some((y, m, d)) => midnight_ts(y, m, d),
        None => 0,
    }
}

/// Reads the digit run `s[from .. to)` as a number.
fn digits_val_exec(cs: &Vec<char>, from: usize, to: usize) -> (r: Option<i64>)
    requires
        from <= to <= cs@.len(),
        to - from <= 4,
    ensures
        match r {
            Some(v) => all_digits(cs@.subrange(from as int, to as int)) && v as int == digits_val(
                cs@.subrange(from as int, to as int),
            ) && 0 <= v <= 9999,
            None => !all_digits(cs@.subrange(from as int, to as int)),
        },
{
    let mut acc: i64 = 0;
    let mut i = from;
    proof {
        assert(cs@.subrange(from as int, from as int) =~= Seq::<char>::empty());
    }
    while i < to
        invariant
            from <= i <= to <= cs@.len(),
            to - from <= 4,
            all_digits(cs@.subrange(from as int, i as int)),
            acc as int == digits_val(cs@.subrange(from as int, i as int)),
            0 <= acc <= 9999,
        decreases to - i,
    {
        let c = cs[i];
        let u = c as u32;
        if !(48 <= u && u <= 57) {
            proof {
                assert(cs@.subrange(from as int, to as int)[i - from] == cs@[i as int]);
            }
            return None;
        }
        proof {
            let pre = cs@.subrange(from as int, i as int);
            let cur = cs@.subrange(from as int, i + 1);
            assert(cur.drop_last() =~= pre);
            assert(cur.last() == cs@[i as int]);
            assert(digits_val(pre) <= 999) by {
                lemma_digits_val_bound(pre);
                reveal_with_fuel(pow10, 5);
                assert(pre.len() <= 3);
            }
        }
        acc = acc * 10 + ((u - 48) as i64);
        i = i + 1;
    }
    Some(acc)
}

proof fn lemma_digits_val_bound(s: Seq<char>)
    requires
        all_digits(s),
        s.len() <= 4,
    ensures
        0 <= digits_val(s) < pow10(s.len() as int),
    decreases s.len(),
{
    if s.len() > 0 {
        assert(all_digits(s.drop_last())) by {
            assert(forall|i: int|
                0 <= i < s.drop_last().len() ==> #[trigger] s.drop_last()[i] == s[i]);
        }
        lemma_digits_val_bound(s.drop_last());
        assert(0 <= digit_val(s.last()) <= 9);
    }
}

/// Parses the console's date argument; anything but a real
/// `year-month-day` date, including the empty string, is the unbounded
/// marker zero.
pub fn transform_date(date_str: &str) -> (r: i64)
    ensures
        r as int == transform_date_spec(date_str@),
{
    let cs = chars_vec(date_str);
    if cs.len() != 10 {
        return 0;
    }
    if cs[4] != '-' || cs[7] != '-' {
        return 0;
    }
    let y = match digits_val_exec(&cs, 0, 4) {
        Some(v) => v,
        None => {
            return 0;
        },
    };
    let m = match digits_val_exec(&cs, 5, 7) {
        Some(v) => v,
        None => {
            return 0;
        },
    };
    let d = match digits_val_exec(&cs, 8, 10) {
        Some(v) => v,
        None => {
            return 0;
        },
    };
    if !(1 <= m && m <= 12) {
        return 0;
    }
    if !(1 <= d && d <= days_in_month_exec(y, m)) {
        return 0;
    }
    midnight_timestamp(y, m, d)
}

/// A `published` stamp in the feed's fixed layout:
/// `year-month-dayThour:minute:second±hh:mm`. The result is the UTC
/// timestamp: the civil time minus the zone offset.
pub open spec fn parse_datetime_spec(s: Seq<char>) -> Option<int> {
    if s.len() == 25 {
        match parse_date_spec(s.subrange(0, 10)) {
            Some((y, m, d)) => {
                if s[10] == 'T' && s[13] == ':' && s[16] == ':' && (s[19] == '+' || s[19] == '-')
                    && s[22] == ':' && all_digits(s.subrange(11, 13)) && all_digits(
                    s.subrange(14, 16),
                ) && all_digits(s.subrange(17, 19)) && all_digits(s.subrange(20, 22))
                    && all_digits(s.subrange(23, 25)) {
                    let hh = digits_val(s.subrange(11, 13));
                    let mi = digits_val(s.subrange(14, 16));
                    let ss = digits_val(s.subrange(17, 19));
                    let oh = digits_val(s.subrange(20, 22));
                    let om = digits_val(s.subrange(23, 25));
                    if hh < 24 && mi < 60 && ss < 60 && oh < 24 && om < 60 {
                        let off = oh * 3600 + om * 60;
                        let local = midnight_ts(y, m, d) + hh * 3600 + mi * 60 + ss;
                        if s[19] == '+' {
                            Some(local - off)
                        } else {
                            Some(local + off)
                        }
                    } else {
                        None
                    }
                } else {
                    None
                }
            },
            None => None,
        }
    } else {
        None
    }
}

/// Parses a `published` stamp into its UTC timestamp.
pub fn parse_datetime(s: &str) -> (r: Option<i64>)
    ensures
        match r {
            Some(v) => parse_datetime_spec(s@) == Some(v as int),
            None => parse_datetime_spec(s@) is None,
        },
{
    let cs = chars_vec(s);
    if cs.len() != 25 {
        return None;
    }
    proof {
        assert(s@.subrange(0, 10).subrange(0, 4) =~= s@.subrange(0, 4));
        assert(s@.subrange(0, 10).subrange(5, 7) =~= s@.subrange(5, 7));
        assert(s@.subrange(0, 10).subrange(8, 10) =~= s@.subrange(8, 10));
    }
    if cs[4] != '-' || cs[7] != '-' {
        return None;
    }
    let y = match digits_val_exec(&cs, 0, 4) {
        Some(v) => v,
        None => {
            return None;
        },
    };
    let m = match digits_val_exec(&cs, 5, 7) {
        Some(v) => v,
        None => {
            return None;
        },
    };
    let d = match digits_val_exec(&cs, 8, 10) {
        Some(v) => v,
        None => {
            return None;
        },
    };
    if !(1 <= m && m <= 12) {
        return None;
    }
    if !(1 <= d && d <= days_in_month_exec(y, m)) {
        return None;
    }
    if cs[10] != 'T' || cs[13] != ':' || cs[16] != ':' || cs[22] != ':' {
        return None;
    }
    let sign = cs[19];
    if sign != '+' && sign != '-' {
        return None;
    }
    let hh = match digits_val_exec(&cs, 11, 13) {
        Some(v) => v,
        None => {
            return None;
        },
    };
    let mi = match digits_val_exec(&cs, 14, 16) {
        Some(v) => v,
        None => {
            return None;
        },
    };
    let ss = match digits_val_exec(&cs, 17, 19) {
        Some(v) => v,
        None => {
            return None;
        },
    };
    let oh = match digits_val_exec(&cs, 20, 22) {
        Some(v) => v,
        None => {
            return None;
        },
    };
    let om = match digits_val_exec(&cs, 23, 25) {
        Some(v) => v,
        None => {
            return None;
        },
    };
    if !(hh < 24 && mi < 60 && ss < 60 && oh < 24 && om < 60) {
        return None;
    }
    let base = midnight_timestamp(y, m, d);
    let off = oh * 3600 + om * 60;
    let local = base + hh * 3600 + mi * 60 + ss;
    if sign == '+' {
        Some(local - off)
    } else {
        Some(local + off)
    }
}

} // verus!
