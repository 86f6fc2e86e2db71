//! 日和 — the day's condition, a deterministic function of (seed, day).
//!
//! The day comes from the **previous log record's timestamp**, never from the
//! wall clock at scoring time, so a reply stays a pure function of
//! (log, seed, input). The day is the UTC day number (t_ms / 86_400_000) — no
//! timezone dependency, same result on any machine.
//!
//! 特徴のある日和は2日続けない: 素の抽選で前日と同じ特殊日和を引いたら
//! 「なぎ」に落とす。前日も同じ式で引けるので決定論は保たれる。
use crate::bits;
use vstd::prelude::*;

verus! {

/// Multipliers over the experience dials, as bit patterns.
#[derive(Debug, Clone, Copy)]
pub struct Gains {
    /// × on `p_slip`.
    pub slip: u64,
    /// × on `interject_rate` (合いの手の出やすさ).
    pub interject: u64,
    /// × on `hearsay_release` (口をつく確率).
    pub release: u64,
    /// × on `care_bonus` (気になる語の加点).
    pub care: u32,
}

/// One day's condition.
#[derive(Debug, Clone, Copy, PartialEq, Eq, Structural)]
pub enum Weather {
    Calm,
    Lively,
    Damp,
    Whim,
}

pub open spec fn weather_name(w: Weather) -> Seq<char> {
    match w {
        Weather::Calm => "なぎ"@,
        Weather::Lively => "はずみ"@,
        Weather::Damp => "しめり"@,
        Weather::Whim => "きまぐれ"@,
    }
}

/// The dials of a day: 1, 1, 1, 1 when calm; 1.2, 1.6, 1, 1 when lively; 0.7, 0.4, 1, 0.5 when
/// damp; 1.8, 1, 2.5, 1.5 on a whim.
pub open spec fn dials(w: Weather) -> Gains {
    match w {
        Weather::Calm => Gains {
            slip: 0x3ff0_0000_0000_0000,
            interject: 0x3ff0_0000_0000_0000,
            release: 0x3ff0_0000_0000_0000,
            care: 0x3f80_0000,
        },
        Weather::Lively => Gains {
            slip: 0x3ff3_3333_3333_3333,
            interject: 0x3ff9_9999_9999_999a,
            release: 0x3ff0_0000_0000_0000,
            care: 0x3f80_0000,
        },
        Weather::Damp => Gains {
            slip: 0x3fe6_6666_6666_6666,
            interject: 0x3fd9_9999_9999_999a,
            release: 0x3ff0_0000_0000_0000,
            care: 0x3f00_0000,
        },
        Weather::Whim => Gains {
            slip: 0x3ffc_cccc_cccc_cccd,
            interject: 0x3ff0_0000_0000_0000,
            release: 0x4004_0000_0000_0000,
            care: 0x3fc0_0000,
        },
    }
}

impl Weather {
    pub fn name(self) -> (r: &'static str)
        ensures
            r@ == weather_name(self),
    {
        match self {
            Weather::Calm => "なぎ",
            Weather::Lively => "はずみ",
            Weather::Damp => "しめり",
            Weather::Whim => "きまぐれ",
        }
    }

    pub fn gains(self) -> (r: Gains)
        ensures
            r == dials(self),
    {
        match self {
            Weather::Calm => Gains {
                slip: 0x3ff0_0000_0000_0000,
                interject: 0x3ff0_0000_0000_0000,
                release: 0x3ff0_0000_0000_0000,
                care: 0x3f80_0000,
            },
            Weather::Lively => Gains {
                slip: 0x3ff3_3333_3333_3333,
                interject: 0x3ff9_9999_9999_999a,
                release: 0x3ff0_0000_0000_0000,
                care: 0x3f80_0000,
            },
            Weather::Damp => Gains {
                slip: 0x3fe6_6666_6666_6666,
                interject: 0x3fd9_9999_9999_999a,
                release: 0x3ff0_0000_0000_0000,
                care: 0x3f00_0000,
            },
            Weather::Whim => Gains {
                slip: 0x3ffc_cccc_cccc_cccd,
                interject: 0x3ff0_0000_0000_0000,
                release: 0x4004_0000_0000_0000,
                care: 0x3fc0_0000,
            },
        }
    }
}

/// SplitMix64 finalizer — a fixed, published mix.
pub open spec fn mixed(x: u64) -> u64 {
    let a = x.wrapping_add(0x9E3779B97F4A7C15);
    let b = a ^ (a >> 30u64);
    let c = b.wrapping_mul(0xBF58476D1CE4E5B9);
    let d = c ^ (c >> 27u64);
    let e = d.wrapping_mul(0x94D049BB133111EB);
    e ^ (e >> 31u64)
}

/// SplitMix64 finalizer. Not a stream: one value per (seed, day), so it neither touches
/// nor races the reply stream.
pub fn mix(x: u64) -> (r: u64)
    ensures
        r == mixed(x),
{
    let a: u64 = x.wrapping_add(0x9E3779B97F4A7C15);
    let b: u64 = a ^ (a >> 30u64);
    let c: u64 = b.wrapping_mul(0xBF58476D1CE4E5B9);
    let d: u64 = c ^ (c >> 27u64);
    let e: u64 = d.wrapping_mul(0x94D049BB133111EB);
    e ^ (e >> 31u64)
}

/// The day's weather by the lottery alone, of weights 49, 17, 17 and 17.
pub open spec fn drawn(seed: u64, day: u64) -> Weather {
    let r = mixed(seed ^ mixed(day)) % 100;
    if r < 49 {
        Weather::Calm
    } else if r < 66 {
        Weather::Lively
    } else if r < 83 {
        Weather::Damp
    } else {
        Weather::Whim
    }
}

/// The day's weather: a special one that the day before drew too is calmed.
pub open spec fn weather_of(seed: u64, day: u64) -> Weather {
    let w = drawn(seed, day);
    if w != Weather::Calm && day > 0 && drawn(seed, (day - 1) as u64) == w {
        Weather::Calm
    } else {
        w
    }
}

/// The day's weather by the lottery alone.
pub fn raw_weather(seed: u64, day: u64) -> (r: Weather)
    ensures
        r == drawn(seed, day),
{
    let r: u64 = mix(seed ^ mix(day)) % 100;
    if r < 49 {
        Weather::Calm
    } else if r < 66 {
        Weather::Lively
    } else if r < 83 {
        Weather::Damp
    } else {
        Weather::Whim
    }
}

/// The day's weather, streak-broken.
pub fn day_weather(seed: u64, day: u64) -> (r: Weather)
    ensures
        r == weather_of(seed, day),
{
    let w = raw_weather(seed, day);
    if w != Weather::Calm && day > 0 && raw_weather(seed, day - 1) == w {
        Weather::Calm
    } else {
        w
    }
}

/// A special weather never repeats on two consecutive days.
pub proof fn law_no_special_streak(seed: u64, day: u64)
    requires
        day < u64::MAX,
        weather_of(seed, day) != Weather::Calm,
    ensures
        weather_of(seed, (day + 1) as u64) != weather_of(seed, day),
{
}

/// UTC day number of a millisecond timestamp.
pub fn day_of_ms(t_ms: u64) -> (r: u64)
    ensures
        r == t_ms / 86_400_000,
{
    t_ms / 86_400_000
}

/// Deterministic pick of the day's 気になる語 among `len` sorted candidates.
pub fn care_index(seed: u64, day: u64, len: usize) -> (r: usize)
    ensures
        len == 0 ==> r == 0,
        len > 0 ==> r < len && r == mixed(seed ^ mixed(day ^ 0xCA9E_0000)) as int % len as int,
{
    if len == 0 {
        return 0;
    }
    (mix(seed ^ mix(day ^ 0xCA9E_0000)) % (len as u64)) as usize
}

/// The dials of a day, damped while the bot is distant: half the slip, no interjection and no
/// word on its mind.
pub open spec fn damped(w: Weather, aloof: bool) -> Gains {
    if aloof {
        Gains {
            slip: (dials(w).slip - 0x10_0000_0000_0000) as u64,
            interject: 0,
            release: dials(w).release,
            care: 0,
        }
    } else {
        dials(w)
    }
}

/// Effective dials for the turn: weather × よそよそしさ (post-absence damp:
/// no beats, no care word, half the slip until the distance wears off). Halving lowers the
/// exponent by one.
pub fn effective(w: Weather, aloof: bool) -> (r: Gains)
    ensures
        r == damped(w, aloof),
{
    let g = w.gains();
    if aloof {
        Gains { slip: g.slip - 0x10_0000_0000_0000, interject: 0, release: g.release, care: 0 }
    } else {
        g
    }
}

pub open spec fn leap(y: int) -> bool {
    y % 4 == 0 && (y % 100 != 0 || y % 400 == 0)
}

/// Days of a month.
pub open spec fn month_len(y: int, m: int) -> int {
    if m == 2 {
        if leap(y) {
            29
        } else {
            28
        }
    } else if m == 4 || m == 6 || m == 9 || m == 11 {
        30
    } else {
        31
    }
}

/// Days of a year before its month `m`.
pub open spec fn days_before_month(y: int, m: int) -> int
    decreases m,
{
    if m <= 1 {
        0
    } else {
        days_before_month(y, m - 1) + month_len(y, m - 1)
    }
}

/// Leap days before a year.
pub open spec fn leap_days_before(y: int) -> int {
    (y - 1) / 4 - (y - 1) / 100 + (y - 1) / 400
}

/// Days from the start of 1970 to the start of a year.
pub open spec fn days_before_year(y: int) -> int {
    365 * (y - 1970) + leap_days_before(y) - leap_days_before(1970)
}

/// A date stands for a UTC day number.
pub open spec fn is_date_of(y: int, m: int, d: int, day: int) -> bool {
    &&& 1 <= m <= 12
    &&& 1 <= d <= month_len(y, m)
    &&& day == days_before_year(y) + days_before_month(y, m) + d - 1
}

proof fn lemma_month(y: int)
    ensures
        days_before_month(y, 1) == 0,
        days_before_month(y, 2) == 31,
        days_before_month(y, 3) == 59 + (if leap(y) {
            1int
        } else {
            0
        }),
        days_before_month(y, 4) == days_before_month(y, 3) + 31,
        days_before_month(y, 5) == days_before_month(y, 3) + 61,
        days_before_month(y, 6) == days_before_month(y, 3) + 92,
        days_before_month(y, 7) == days_before_month(y, 3) + 122,
        days_before_month(y, 8) == days_before_month(y, 3) + 153,
        days_before_month(y, 9) == days_before_month(y, 3) + 184,
        days_before_month(y, 10) == days_before_month(y, 3) + 214,
        days_before_month(y, 11) == days_before_month(y, 3) + 245,
        days_before_month(y, 12) == days_before_month(y, 3) + 275,
{
    reveal_with_fuel(days_before_month, 13);
}

/// Civil date (y, m, d) from a UTC day number (Howard Hinnant's algorithm).
pub fn civil_from_day(day: u64) -> (r: (i64, u32, u32))
    requires
        day + 719_468 <= i64::MAX,
    ensures
        is_date_of(r.0 as int, r.1 as int, r.2 as int, day as int),
        r.0 >= 0,
{
    let z: i64 = day as i64 + 719_468;
    let era: i64 = z / 146_097;
    let doe: i64 = z % 146_097;
    let yoe: i64 = (doe - doe / 1460 + doe / 36_524 - doe / 146_096) / 365;
    let y: i64 = yoe + era * 400;
    proof {
        lemma_year_of_era(doe as int, yoe as int);
    }
    let doy: i64 = doe - (365 * yoe + yoe / 4 - yoe / 100);
    let mp: i64 = (5 * doy + 2) / 153;
    let d: u32 = (doy - (153 * mp + 2) / 5 + 1) as u32;
    let m: u32 = (if mp < 10 {
        mp + 3
    } else {
        mp - 9
    }) as u32;
    let yy: i64 = if m <= 2 {
        y + 1
    } else {
        y
    };
    proof {
        lemma_civil(era as int, yoe as int, doy as int, mp as int, m as int, d as int, yy as int);
    }
    (yy, m, d)
}

/// The year of an era, counted from March, and the day in it.
proof fn lemma_year_of_era(doe: int, yoe: int)
    requires
        0 <= doe < 146_097,
        yoe == (doe - doe / 1460 + doe / 36_524 - doe / 146_096) / 365,
    ensures
        0 <= yoe < 400,
        0 <= doe - (365 * yoe + yoe / 4 - yoe / 100) <= 365,
        doe - (365 * yoe + yoe / 4 - yoe / 100) == 365 ==> leap(yoe + 1),
{
}

#[verifier::spinoff_prover]
#[verifier::rlimit(60)]
proof fn lemma_civil(era: int, yoe: int, doy: int, mp: int, m: int, d: int, yy: int)
    requires
        0 <= era,
        0 <= yoe < 400,
        0 <= doy <= 365,
        doy == 365 ==> leap(yoe + 1),
        mp == (5 * doy + 2) / 153,
        d == doy - (153 * mp + 2) / 5 + 1,
        m == (if mp < 10 {
            mp + 3
        } else {
            mp - 9
        }),
        yy == yoe + era * 400 + (if m <= 2 {
            1int
        } else {
            0
        }),
    ensures
        1 <= m <= 12,
        1 <= d <= 31,
        is_date_of(
            yy,
            m,
            d,
            146_097 * era + 365 * yoe + yoe / 4 - yoe / 100 + doy - 719_468,
        ),
{
    let y0 = yoe + era * 400;
    lemma_march(era, yoe);
    lemma_day_of_year(doy, mp, m, d);
    lemma_month(yy);
    assert(leap(y0 + 1) == leap(yoe + 1));
    lemma_next_year(y0);
    if m <= 2 {
        assert(days_before_year(yy) == days_before_year(y0) + 365 + (if leap(y0) {
            1int
        } else {
            0
        }));
    }
}

/// Days from the first of March to the first of a month.
spec fn from_march(m: int) -> int {
    if m == 3 {
        0
    } else if m == 4 {
        31
    } else if m == 5 {
        61
    } else if m == 6 {
        92
    } else if m == 7 {
        122
    } else if m == 8 {
        153
    } else if m == 9 {
        184
    } else if m == 10 {
        214
    } else if m == 11 {
        245
    } else if m == 12 {
        275
    } else if m == 1 {
        306
    } else {
        337
    }
}

proof fn lemma_day_of_year(doy: int, mp: int, m: int, d: int)
    requires
        0 <= doy <= 365,
        mp == (5 * doy + 2) / 153,
        d == doy - (153 * mp + 2) / 5 + 1,
        m == (if mp < 10 {
            mp + 3
        } else {
            mp - 9
        }),
    ensures
        1 <= m <= 12,
        1 <= d <= 31,
        doy == from_march(m) + d - 1,
        m == 4 || m == 6 || m == 9 || m == 11 ==> d <= 30,
        m == 2 ==> d <= 29 && (d == 29 ==> doy == 365),
{
    assert(0 <= mp <= 11);
    if mp == 0 {
    } else if mp == 1 {
    } else if mp == 2 {
    } else if mp == 3 {
    } else if mp == 4 {
    } else if mp == 5 {
    } else if mp == 6 {
    } else if mp == 7 {
    } else if mp == 8 {
    } else if mp == 9 {
    } else if mp == 10 {
    } else {
    }
}

/// The day number of the first of March.
proof fn lemma_march(era: int, yoe: int)
    requires
        0 <= era,
        0 <= yoe < 400,
    ensures
        days_before_year(yoe + era * 400) + 59 + (if leap(yoe + era * 400) {
            1int
        } else {
            0
        }) == 146_097 * era + 365 * yoe + yoe / 4 - yoe / 100 - 719_468,
{
    let y0 = yoe + era * 400;
    lemma_next_year(y0);
    assert(y0 / 4 == yoe / 4 + 100 * era);
    assert(y0 / 100 == yoe / 100 + 4 * era);
    assert(y0 / 400 == era);
}

proof fn lemma_next_year(y: int)
    ensures
        leap_days_before(y + 1) == leap_days_before(y) + (if leap(y) {
            1int
        } else {
            0
        }),
{
}

proof fn lemma_years_grow(y: int, z: int)
    requires
        y < z,
    ensures
        days_before_year(z) >= days_before_year(y) + 365 + (if leap(y) {
            1int
        } else {
            0
        }),
    decreases z - y,
{
    lemma_next_year(z - 1);
    if y < z - 1 {
        lemma_years_grow(y, z - 1);
    }
}

proof fn lemma_inside_year(y: int, m: int, d: int)
    requires
        1 <= m <= 12,
        1 <= d <= month_len(y, m),
    ensures
        0 <= days_before_month(y, m) + d - 1 < 365 + (if leap(y) {
            1int
        } else {
            0
        }),
{
    lemma_month(y);
}

/// The date of the day after.
pub open spec fn next_date(y: int, m: int, d: int) -> (int, int, int) {
    if d < month_len(y, m) {
        (y, m, d + 1)
    } else if m < 12 {
        (y, m + 1, 1)
    } else {
        (y + 1, 1, 1)
    }
}

/// The day after a day has the next date, and the days are counted from the start of 1970.
pub proof fn law_next_day_has_next_date(day: int, y: int, m: int, d: int)
    requires
        is_date_of(y, m, d, day),
    ensures
        ({
            let n = next_date(y, m, d);
            is_date_of(n.0, n.1, n.2, day + 1)
        }),
        is_date_of(1970, 1, 1, 0),
{
    lemma_month(y);
    lemma_month(y + 1);
    lemma_next_year(y);
    reveal_with_fuel(days_before_month, 2);
}

/// A day has one date.
pub proof fn law_day_has_one_date(day: int, y: int, m: int, d: int, z: int, n: int, e: int)
    requires
        is_date_of(y, m, d, day),
        is_date_of(z, n, e, day),
    ensures
        y == z,
        m == n,
        d == e,
{
    lemma_inside_year(y, m, d);
    lemma_inside_year(z, n, e);
    if y < z {
        lemma_years_grow(y, z);
    } else if z < y {
        lemma_years_grow(z, y);
    }
    lemma_month(y);
}

/// The lottery weighs the four weathers 49, 17, 17 and 17 to the hundred.
pub proof fn law_the_lottery_has_a_hundred_tickets(seed: u64, day: u64)
    ensures
        ({
            let ticket = mixed(seed ^ mixed(day)) as int % 100;
            &&& drawn(seed, day) == Weather::Calm <==> ticket < 49
            &&& drawn(seed, day) == Weather::Lively <==> 49 <= ticket < 49 + 17
            &&& drawn(seed, day) == Weather::Damp <==> 66 <= ticket < 66 + 17
            &&& drawn(seed, day) == Weather::Whim <==> 83 <= ticket < 83 + 17
        }),
{
}

/// A day has the weather it drew, unless that is a special one that the day before drew too:
/// such a day is calm. The first day has what it drew.
pub proof fn law_a_day_has_what_it_drew(seed: u64, day: u64)
    ensures
        weather_of(seed, 0) == drawn(seed, 0),
        drawn(seed, day) == Weather::Calm ==> weather_of(seed, day) == Weather::Calm,
        day < u64::MAX && drawn(seed, (day + 1) as u64) != drawn(seed, day) ==> weather_of(
            seed,
            (day + 1) as u64,
        ) == drawn(seed, (day + 1) as u64),
        day < u64::MAX && drawn(seed, (day + 1) as u64) == drawn(seed, day) ==> weather_of(
            seed,
            (day + 1) as u64,
        ) == Weather::Calm,
{
}

/// A calm day leaves every dial alone. A lively one raises the slips by a fifth and the
/// interjections by three fifths; a damp one lowers slips, interjections and care to 0.7, 0.4
/// and a half; a whim raises slips, what slips out and care to 1.8, 2.5 and 1.5.
pub proof fn law_weather_turns_the_dials()
    ensures
        bits::closest64(dials(Weather::Calm).slip, 1, 1),
        bits::closest64(dials(Weather::Calm).interject, 1, 1),
        bits::closest64(dials(Weather::Calm).release, 1, 1),
        bits::closest64(dials(Weather::Lively).slip, 6, 5),
        bits::closest64(dials(Weather::Lively).interject, 8, 5),
        bits::closest64(dials(Weather::Damp).slip, 7, 10),
        bits::closest64(dials(Weather::Damp).interject, 2, 5),
        bits::closest64(dials(Weather::Whim).slip, 9, 5),
        bits::closest64(dials(Weather::Whim).release, 5, 2),
        dials(Weather::Lively).release == dials(Weather::Calm).release,
        dials(Weather::Damp).release == dials(Weather::Calm).release,
        dials(Weather::Whim).interject == dials(Weather::Calm).interject,
        dials(Weather::Lively).care == dials(Weather::Calm).care,
        bits::closest32(dials(Weather::Calm).care, 1, 1),
        bits::closest32(dials(Weather::Damp).care, 1, 2),
        bits::closest32(dials(Weather::Whim).care, 3, 2),
{
    vstd::arithmetic::power2::lemma2_to64();
    vstd::arithmetic::power2::lemma2_to64_rest();
}

/// While distant, the bot slips half as often, never interjects and has no word on its mind;
/// what slips out stays as it was. Otherwise the weather alone counts.
pub proof fn law_distance_damps(w: Weather)
    ensures
        damped(w, false) == dials(w),
        damped(w, true).interject == 0,
        damped(w, true).care == 0,
        damped(w, true).release == dials(w).release,
        damped(w, true).slip as int % 0x10_0000_0000_0000 == dials(w).slip as int
            % 0x10_0000_0000_0000,
        damped(w, true).slip as int / 0x10_0000_0000_0000 == dials(w).slip as int
            / 0x10_0000_0000_0000 - 1,
{
}

/// Years have 365 days, and those of a leap day 366: every fourth, of the centuries every
/// fourth.
pub proof fn law_years_have_their_days(y: int)
    ensures
        days_before_year(y + 1) - days_before_year(y) == (if y % 400 == 0 || (y % 4 == 0 && y % 100
            != 0) {
            366int
        } else {
            365
        }),
        days_before_year(y + 400) - days_before_year(y) == 146_097,
        days_before_month(y, 12) + month_len(y, 12) == days_before_year(y + 1) - days_before_year(y),
{
    lemma_next_year(y);
    lemma_month(y);
    let n: int = y - 1;
    assert((n + 400) / 4 == n / 4 + 100);
    assert((n + 400) / 100 == n / 100 + 4);
    assert((n + 400) / 400 == n / 400 + 1);
    assert(y + 400 - 1 == n + 400);
    if y % 400 == 0 {
        assert(y % 4 == 0);
    }
}

/// Every weather has a name of its own.
pub proof fn law_weathers_have_names_of_their_own(a: Weather, b: Weather)
    ensures
        weather_name(a) == weather_name(b) ==> a == b,
{
    reveal_strlit("なぎ");
    reveal_strlit("はずみ");
    reveal_strlit("しめり");
    reveal_strlit("きまぐれ");
    assert(weather_name(a)[0] == weather_name(b)[0] ==> a == b);
}

} // verus!
