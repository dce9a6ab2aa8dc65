//! RFC 3339 instants (`2023-11-14T22:13:20Z`) as seconds since the epoch.
use vstd::prelude::*;
use crate::entry::Text;
use crate::text::{digit_value, is_digit};

verus! {

pub open spec fn is_leap(y: int) -> bool {
    y % 4 == 0 && (y % 100 != 0 || y % 400 == 0)
}

pub open spec fn days_in_month(y: int, m: int) -> int {
    if m == 2 {
        if is_leap(y) {
            29
        } else {
            28
        }
    } else if m == 4 || m == 6 || m == 9 || m == 11 {
        30
    } else {
        31
    }
}

/// Days from 1970-01-01 to the given date of the proleptic Gregorian
/// calendar, for years from 1 on.
pub open spec fn days_from_civil(y: int, m: int, d: int) -> int {
    let yy = if m <= 2 {
        y - 1
    } else {
        y
    };
    let era = yy / 400;
    let yoe = yy - era * 400;
    let mp = if m > 2 {
        m - 3
    } else {
        m + 9
    };
    let doy = (153 * mp + 2) / 5 + d - 1;
    let doe = yoe * 365 + yoe / 4 - yoe / 100 + doy;
    era * 146097 + doe - 719468
}

/// The number that the digits of `t` from `a` to `b` spell.
pub open spec fn num_at(t: Text, a: int, b: int) -> int
    decreases b - a,
{
    if b <= a {
        0
    } else {
        num_at(t, a, b - 1) * 10 + digit_value(t[b - 1])
    }
}

pub open spec fn digits_at(t: Text, a: int, b: int) -> bool {
    forall|i: int| a <= i < b ==> #[trigger] is_digit(t[i])
}

/// Whether `t` begins with `YYYY-MM-DDTHH:MM:SS`.
pub open spec fn date_time_shaped(t: Text) -> bool {
    &&& t.len() >= 20
    &&& digits_at(t, 0, 4) && t[4] == '-' && digits_at(t, 5, 7) && t[7] == '-'
    &&& digits_at(t, 8, 10) && t[10] == 'T' && digits_at(t, 11, 13) && t[13] == ':'
    &&& digits_at(t, 14, 16) && t[16] == ':' && digits_at(t, 17, 19)
}

/// Where the run of digits from `j` ends.
pub open spec fn digits_end(t: Text, j: int) -> int
    decreases t.len() - j,
{
    if 0 <= j < t.len() && is_digit(t[j]) {
        digits_end(t, j + 1)
    } else {
        j
    }
}

/// Where the fraction of the seconds ends (19 when there is none).
pub open spec fn fraction_end(t: Text) -> int {
    if t[19] == '.' {
        digits_end(t, 20)
    } else {
        19
    }
}

/// The nanoseconds that the fraction of the seconds spells.
pub open spec fn fraction_nanos(t: Text) -> int {
    let e = fraction_end(t);
    if t[19] == '.' {
        num_at(t, 20, e) * crate::text::pow10((29 - e) as nat)
    } else {
        0
    }
}

/// The offset from UTC that the zone at `e` names, in seconds: `Z`, or
/// `+HH:MM` / `-HH:MM`, ending the text.
pub open spec fn zone_offset(t: Text, e: int) -> Option<int> {
    if e + 1 == t.len() && t[e] == 'Z' {
        Some(0)
    } else if e + 6 == t.len() && (t[e] == '+' || t[e] == '-') && digits_at(t, e + 1, e + 3) && t[e
        + 3] == ':' && digits_at(t, e + 4, e + 6) && num_at(t, e + 1, e + 3) < 24 && num_at(
        t,
        e + 4,
        e + 6,
    ) < 60 {
        let m = num_at(t, e + 1, e + 3) * 3600 + num_at(t, e + 4, e + 6) * 60;
        Some(
            if t[e] == '+' {
                m
            } else {
                -m
            },
        )
    } else {
        None
    }
}

/// The instant that `t` names, as seconds since the epoch and nanoseconds,
/// when it is a valid date and time of the form
/// `YYYY-MM-DDTHH:MM:SS[.fraction](Z|+HH:MM|-HH:MM)`, with a fraction of 1
/// to 9 digits (years from 0001, no leap seconds).
pub open spec fn instant_value(t: Text) -> Option<(int, int)> {
    if !date_time_shaped(t) {
        None
    } else {
        let (y, mo, d) = (num_at(t, 0, 4), num_at(t, 5, 7), num_at(t, 8, 10));
        let (h, mi, s) = (num_at(t, 11, 13), num_at(t, 14, 16), num_at(t, 17, 19));
        let e = fraction_end(t);
        if 1 <= y && 1 <= mo <= 12 && 1 <= d <= days_in_month(y, mo) && h < 24 && mi < 60 && s < 60
            && (t[19] != '.' || 21 <= e <= 29) && zone_offset(t, e) is Some {
            Some(
                (
                    days_from_civil(y, mo, d) * 86400 + h * 3600 + mi * 60 + s - zone_offset(
                        t,
                        e,
                    )->0,
                    fraction_nanos(t),
                ),
            )
        } else {
            None
        }
    }
}

/// Reads the digits of `t` from `a` to `b` (at most four).
fn read_num(t: &Vec<char>, a: usize, b: usize) -> (r: Option<i64>)
    requires
        a <= b <= t@.len(),
        b - a <= 4,
    ensures
        match r {
            Some(v) => digits_at(t@, a as int, b as int) && v == num_at(t@, a as int, b as int) && 0
                <= v < 10000,
            None => !digits_at(t@, a as int, b as int),
        },
{
    let mut v: i64 = 0;
    let mut i: usize = a;
    while i < b
        invariant
            a <= i <= b,
            b <= t@.len(),
            b - a <= 4,
            digits_at(t@, a as int, i as int),
            v == num_at(t@, a as int, i as int),
            0 <= v < crate::text::pow10((i - a) as nat),
        decreases b - i,
    {
        let c = t[i];
        if !('0' <= c && c <= '9') {
            assert(!is_digit(t@[i as int]));
            return None;
        }
        assert(crate::text::pow10((i + 1 - a) as nat) == 10 * crate::text::pow10((i - a) as nat));
        assert(crate::text::pow10((i - a) as nat) <= 1000) by {
            reveal_with_fuel(crate::text::pow10, 5);
        }
        v = v * 10 + (c as u32 - '0' as u32) as i64;
        i = i + 1;
    }
    assert(crate::text::pow10((b - a) as nat) <= 10000) by {
        reveal_with_fuel(crate::text::pow10, 5);
    }
    Some(v)
}

/// Reads an RFC 3339 instant (see `instant_value`).
pub fn parse_instant(t: &Vec<char>) -> (r: Option<(i64, i32)>)
    ensures
        match r {
            Some((s, n)) => instant_value(t@) == Some((s as int, n as int)),
            None => instant_value(t@) is None,
        },
{
    let len = t.len();
    if len < 20 || t[4] != '-' || t[7] != '-' || t[10] != 'T' || t[13] != ':' || t[16] != ':' {
        return None;
    }
    let y = match read_num(t, 0, 4) {
        Some(v) => v,
        None => return None,
    };
    let mo = match read_num(t, 5, 7) {
        Some(v) => v,
        None => return None,
    };
    let d = match read_num(t, 8, 10) {
        Some(v) => v,
        None => return None,
    };
    let h = match read_num(t, 11, 13) {
        Some(v) => v,
        None => return None,
    };
    let mi = match read_num(t, 14, 16) {
        Some(v) => v,
        None => return None,
    };
    let s = match read_num(t, 17, 19) {
        Some(v) => v,
        None => return None,
    };
    let leap = y % 4 == 0 && (y % 100 != 0 || y % 400 == 0);
    let dim = if mo == 2 {
        if leap {
            29
        } else {
            28
        }
    } else if mo == 4 || mo == 6 || mo == 9 || mo == 11 {
        30
    } else {
        31
    };
    if !(1 <= y && 1 <= mo && mo <= 12 && 1 <= d && d <= dim && h < 24 && mi < 60 && s < 60) {
        return None;
    }
    let (e, nanos) = match read_fraction(t) {
        Some(v) => v,
        None => return None,
    };
    let off = match read_zone(t, e) {
        Some(v) => v,
        None => return None,
    };
    let yy = if mo <= 2 {
        y - 1
    } else {
        y
    };
    let era = yy / 400;
    let yoe = yy - era * 400;
    let mp = if mo > 2 {
        mo - 3
    } else {
        mo + 9
    };
    let doy = (153 * mp + 2) / 5 + d - 1;
    let doe = yoe * 365 + yoe / 4 - yoe / 100 + doy;
    let days = era * 146097 + doe - 719468;
    Some((days * 86400 + h * 3600 + mi * 60 + s - off, nanos))
}

/// Reads the fraction of the seconds: where it ends and its nanoseconds.
fn read_fraction(t: &Vec<char>) -> (r: Option<(usize, i32)>)
    requires
        t@.len() >= 20,
    ensures
        match r {
            Some((e, n)) => e <= t@.len() && e as int == fraction_end(t@) && n as int == fraction_nanos(t@) && (t@[19]
                != '.' || 21 <= e <= 29),
            None => t@[19] == '.' && !(21 <= fraction_end(t@) <= 29),
        },
{
    if t[19] != '.' {
        return Some((19, 0));
    }
    let len = t.len();
    let mut e: usize = 20;
    while e < len && '0' <= t[e] && t[e] <= '9'
        invariant
            20 <= e <= len,
            len == t@.len(),
            digits_end(t@, 20) == digits_end(t@, e as int),
            digits_at(t@, 20, e as int),
        decreases len - e,
    {
        e = e + 1;
    }
    if e < 21 || e > 29 {
        return None;
    }
    let mut v: i64 = 0;
    let mut i: usize = 20;
    while i < e
        invariant
            20 <= i <= e <= 29,
            e <= t@.len(),
            digits_at(t@, 20, e as int),
            v == num_at(t@, 20, i as int),
            0 <= v < crate::text::pow10((i - 20) as nat),
        decreases e - i,
    {
        let c = t[i];
        assert(is_digit(t@[i as int]));
        assert(crate::text::pow10((i + 1 - 20) as nat) == 10 * crate::text::pow10((i - 20) as nat));
        assert(crate::text::pow10((i - 20) as nat) <= 100_000_000) by {
            reveal_with_fuel(crate::text::pow10, 10);
        }
        v = v * 10 + (c as u32 - '0' as u32) as i64;
        i = i + 1;
    }
    let mut scale: i64 = 1;
    let mut k: usize = e;
    while k < 29
        invariant
            21 <= e <= k <= 29,
            scale == crate::text::pow10((k - e) as nat),
            1 <= scale <= 100_000_000,
        decreases 29 - k,
    {
        assert(crate::text::pow10((k + 1 - e) as nat) == 10 * crate::text::pow10((k - e) as nat));
        assert(crate::text::pow10((k - e) as nat) <= 10_000_000) by {
            reveal_with_fuel(crate::text::pow10, 9);
        }
        scale = scale * 10;
        k = k + 1;
    }
    assert(v * scale < 1_000_000_000) by {
        crate::text::lemma_pow10_add((e - 20) as nat, (29 - e) as nat);
        assert(crate::text::pow10(9) == 1_000_000_000) by {
            reveal_with_fuel(crate::text::pow10, 10);
        }
        assert(v * scale < crate::text::pow10((e - 20) as nat) * scale) by (nonlinear_arith)
            requires
                v < crate::text::pow10((e - 20) as nat),
                scale >= 1,
        ;
    }
    assert(v >= 0 && scale >= 1 ==> v * scale >= 0) by (nonlinear_arith);
    Some((e, (v * scale) as i32))
}

/// Reads the zone at `e` (see `zone_offset`).
fn read_zone(t: &Vec<char>, e: usize) -> (r: Option<i64>)
    requires
        e <= t@.len(),
    ensures
        match r {
            Some(m) => zone_offset(t@, e as int) == Some(m as int) && -86400 < m < 86400,
            None => zone_offset(t@, e as int) is None,
        },
{
    let len = t.len();
    if len - e == 1 && t[e] == 'Z' {
        return Some(0);
    }
    if len - e != 6 || !(t[e] == '+' || t[e] == '-') || t[e + 3] != ':' {
        return None;
    }
    let hh = match read_num(t, e + 1, e + 3) {
        Some(v) => v,
        None => return None,
    };
    let mm = match read_num(t, e + 4, e + 6) {
        Some(v) => v,
        None => return None,
    };
    if hh >= 24 || mm >= 60 {
        return None;
    }
    let m = hh * 3600 + mm * 60;
    if t[e] == '+' {
        Some(m)
    } else {
        Some(-m)
    }
}

} // verus!
