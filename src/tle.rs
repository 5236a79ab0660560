//! The two-line element set: a name line and two fixed-column lines of
//! mean orbital elements. Columns count characters from zero.
use vstd::prelude::*;
use vstd::string::*;
use crate::decimal::{
    decimal_at, decimal_of, lemma_pow10_mono, pow10, signed_at, signed_of, trim_at, trimmed,
    unsigned_at, unsigned_of, Decimal,
};

verus! {

/// Mean orbital elements as an element set writes them. Angles are in
/// degrees and mean motion in revolutions per day.
pub struct TLE {
    /// Name of the object.
    pub name: String,
    /// Satellite catalog number.
    pub sat_number: u32,
    /// Classification (`U` for unclassified).
    pub classification: char,
    /// International designator.
    pub int_designator: String,
    /// Epoch year, with the century.
    pub epoch_year: u16,
    /// Epoch day of the year, with its fraction.
    pub epoch_day: Decimal,
    /// First time derivative of the mean motion.
    pub first_mean_motion: Decimal,
    /// Second time derivative of the mean motion.
    pub second_mean_motion: Decimal,
    /// Drag term B*.
    pub bstar: Decimal,
    /// Element set number.
    pub tle_version: u16,
    /// Inclination.
    pub i: Decimal,
    /// Right ascension of the ascending node.
    pub raan: Decimal,
    /// Eccentricity.
    pub e: Decimal,
    /// Argument of perigee.
    pub omega: Decimal,
    /// Mean anomaly.
    pub mean_anomaly: Decimal,
    /// Mean motion.
    pub mean_motion: Decimal,
    /// Revolution number at epoch.
    pub revolution_number: u32,
}

/// The epoch year from its last two digits: 57 to 99 are the 1900s.
pub open spec fn full_year(yy: nat) -> nat {
    if yy > 56 {
        1900 + yy
    } else {
        2000 + yy
    }
}

pub open spec fn epoch_year_of(l2: Seq<char>) -> Option<nat> {
    match unsigned_of(l2.subrange(18, 20)) {
        Some(yy) => Some(full_year(yy)),
        None => None,
    }
}

/// The first derivative of mean motion is written halved.
pub open spec fn first_mean_motion_of(l2: Seq<char>) -> Option<(int, int)> {
    match decimal_of(trimmed(l2.subrange(33, 43))) {
        Some((m, x)) => Some((2 * m, x)),
        None => None,
    }
}

/// A field of eight columns from `at`: a sign column, five digits read as
/// `0.ddddd`, and a signed power of ten; the value is multiplied by `factor`.
pub open spec fn exponent_field_of(l2: Seq<char>, at: int, factor: int) -> Option<(int, int)> {
    match (unsigned_of(l2.subrange(at + 1, at + 6)), signed_of(l2.subrange(at + 6, at + 8))) {
        (Some(m), Some(x)) => Some(
            (factor * (if l2[at] == '-' { -m } else { m as int }), x - 5),
        ),
        _ => None,
    }
}

/// The second derivative of mean motion is written divided by six.
pub open spec fn second_mean_motion_of(l2: Seq<char>) -> Option<(int, int)> {
    exponent_field_of(l2, 44, 6)
}

pub open spec fn bstar_of(l2: Seq<char>) -> Option<(int, int)> {
    exponent_field_of(l2, 53, 1)
}

/// The element set number, zero where the columns hold no number.
pub open spec fn tle_version_of(l2: Seq<char>) -> nat {
    match unsigned_of(trimmed(l2.subrange(64, 68))) {
        Some(v) => v,
        None => 0,
    }
}

/// An angle or other number in the columns `from..to` of the second line,
/// spaces at either end allowed.
pub open spec fn number_of(l3: Seq<char>, from: int, to: int) -> Option<(int, int)> {
    decimal_of(trimmed(l3.subrange(from, to)))
}

/// Eccentricity is written as seven digits after an implied `0.`.
pub open spec fn eccentricity_of(l3: Seq<char>) -> Option<(int, int)> {
    match unsigned_of(l3.subrange(26, 33)) {
        Some(v) => Some((v as int, -7)),
        None => None,
    }
}

pub open spec fn revolution_number_of(l3: Seq<char>) -> Option<nat> {
    unsigned_of(trimmed(l3.subrange(63, 68)))
}

/// The two element lines can be read.
pub open spec fn decodes(l2: Seq<char>, l3: Seq<char>) -> bool {
    &&& l2.len() >= 68
    &&& l3.len() >= 68
    &&& unsigned_of(l2.subrange(2, 7)) is Some
    &&& epoch_year_of(l2) is Some
    &&& decimal_of(l2.subrange(20, 32)) is Some
    &&& first_mean_motion_of(l2) is Some
    &&& second_mean_motion_of(l2) is Some
    &&& bstar_of(l2) is Some
    &&& number_of(l3, 8, 16) is Some
    &&& number_of(l3, 17, 25) is Some
    &&& eccentricity_of(l3) is Some
    &&& number_of(l3, 34, 42) is Some
    &&& number_of(l3, 43, 51) is Some
    &&& number_of(l3, 52, 63) is Some
    &&& revolution_number_of(l3) is Some
}

/// `t` holds what the three lines say.
pub open spec fn read_from(t: TLE, l1: Seq<char>, l2: Seq<char>, l3: Seq<char>) -> bool {
    &&& t.name@ == l1
    &&& unsigned_of(l2.subrange(2, 7)) == Some(t.sat_number as nat)
    &&& t.classification == l2[7]
    &&& t.int_designator@ == l2.subrange(9, 17)
    &&& epoch_year_of(l2) == Some(t.epoch_year as nat)
    &&& decimal_of(l2.subrange(20, 32)) == Some((t.epoch_day.mantissa as int, t.epoch_day.exponent as int))
    &&& first_mean_motion_of(l2) == Some((t.first_mean_motion.mantissa as int, t.first_mean_motion.exponent as int))
    &&& second_mean_motion_of(l2) == Some((t.second_mean_motion.mantissa as int, t.second_mean_motion.exponent as int))
    &&& bstar_of(l2) == Some((t.bstar.mantissa as int, t.bstar.exponent as int))
    &&& t.tle_version as nat == tle_version_of(l2)
    &&& number_of(l3, 8, 16) == Some((t.i.mantissa as int, t.i.exponent as int))
    &&& number_of(l3, 17, 25) == Some((t.raan.mantissa as int, t.raan.exponent as int))
    &&& eccentricity_of(l3) == Some((t.e.mantissa as int, t.e.exponent as int))
    &&& number_of(l3, 34, 42) == Some((t.omega.mantissa as int, t.omega.exponent as int))
    &&& number_of(l3, 43, 51) == Some((t.mean_anomaly.mantissa as int, t.mean_anomaly.exponent as int))
    &&& number_of(l3, 52, 63) == Some((t.mean_motion.mantissa as int, t.mean_motion.exponent as int))
    &&& revolution_number_of(l3) == Some(t.revolution_number as nat)
}

fn exponent_field(line: &str, at: usize, factor: i64) -> (r: Option<Decimal>)
    requires
        at + 8 <= line@.len(),
        at < 100,
        1 <= factor <= 6,
    ensures
        match r {
            Some(d) => exponent_field_of(line@, at as int, factor as int) == Some(
                (d.mantissa as int, d.exponent as int),
            ),
            None => exponent_field_of(line@, at as int, factor as int) is None,
        },
{
    let m = unsigned_at(line, at + 1, at + 6);
    let x = signed_at(line, at + 6, at + 8);
    match (m, x) {
        (Some(m), Some(x)) => {
            proof {
                reveal_with_fuel(pow10, 6);
            }
            let signed: i64 = if line.get_char(at) == '-' {
                -(m as i64)
            } else {
                m as i64
            };
            assert(-600000 < factor * signed < 600000) by (nonlinear_arith)
                requires
                    1 <= factor <= 6,
                    -100000 < signed < 100000,
            ;
            Some(Decimal { mantissa: factor * signed, exponent: (x - 5) as i32 })
        },
        _ => None,
    }
}

fn number_field(line: &str, from: usize, to: usize) -> (r: Option<Decimal>)
    requires
        from <= to <= line@.len(),
        to - from <= 18,
    ensures
        match r {
            Some(d) => number_of(line@, from as int, to as int) == Some(
                (d.mantissa as int, d.exponent as int),
            ),
            None => number_of(line@, from as int, to as int) is None,
        },
{
    let (lo, hi) = trim_at(line, from, to);
    decimal_at(line, lo, hi)
}

/// Reads an element set from its name line and its two element lines.
/// Returns `None` where a line is shorter than 68 characters or a field that
/// the propagation needs does not hold a number.
pub fn load_from_str(line1: &str, line2: &str, line3: &str) -> (r: Option<TLE>)
    ensures
        r is Some <==> decodes(line2@, line3@),
        r matches Some(t) ==> read_from(t, line1@, line2@, line3@),
{
    if line2.unicode_len() < 68 || line3.unicode_len() < 68 {
        return None;
    }
    proof {
        reveal_with_fuel(pow10, 11);
    }
    let name = String::from_str(line1);
    let sat_number = match unsigned_at(line2, 2, 7) {
        Some(v) => v,
        None => return None,
    };
    let classification = line2.get_char(7);
    let int_designator = String::from_str(line2.substring_char(9, 17));
    let yy = match unsigned_at(line2, 18, 20) {
        Some(v) => v,
        None => return None,
    };
    let epoch_year: u16 = if yy > 56 {
        1900 + yy as u16
    } else {
        2000 + yy as u16
    };
    let epoch_day = match decimal_at(line2, 20, 32) {
        Some(d) => d,
        None => return None,
    };
    let (lo, hi) = trim_at(line2, 33, 43);
    proof {
        lemma_pow10_mono((hi - lo) as nat, 10);
    }
    let first_mean_motion = match decimal_at(line2, lo, hi) {
        Some(d) => Decimal { mantissa: 2 * d.mantissa, exponent: d.exponent },
        None => return None,
    };
    let second_mean_motion = match exponent_field(line2, 44, 6) {
        Some(d) => d,
        None => return None,
    };
    let bstar = match exponent_field(line2, 53, 1) {
        Some(d) => d,
        None => return None,
    };
    let (lo, hi) = trim_at(line2, 64, 68);
    proof {
        lemma_pow10_mono((hi - lo) as nat, 4);
    }
    let tle_version: u16 = match unsigned_at(line2, lo, hi) {
        Some(v) => v as u16,
        None => 0,
    };
    let i = match number_field(line3, 8, 16) {
        Some(d) => d,
        None => return None,
    };
    let raan = match number_field(line3, 17, 25) {
        Some(d) => d,
        None => return None,
    };
    let e = match unsigned_at(line3, 26, 33) {
        Some(v) => Decimal { mantissa: v as i64, exponent: -7 },
        None => return None,
    };
    let omega = match number_field(line3, 34, 42) {
        Some(d) => d,
        None => return None,
    };
    let mean_anomaly = match number_field(line3, 43, 51) {
        Some(d) => d,
        None => return None,
    };
    let mean_motion = match number_field(line3, 52, 63) {
        Some(d) => d,
        None => return None,
    };
    let (lo, hi) = trim_at(line3, 63, 68);
    proof {
        lemma_pow10_mono((hi - lo) as nat, 5);
    }
    let revolution_number = match unsigned_at(line3, lo, hi) {
        Some(v) => v,
        None => return None,
    };
    proof {
        lemma_pow10_mono((hi - lo) as nat, 5);
    }
    Some(
        TLE {
            name,
            sat_number: sat_number as u32,
            classification,
            int_designator,
            epoch_year,
            epoch_day,
            first_mean_motion,
            second_mean_motion,
            bstar,
            tle_version,
            i,
            raan,
            e,
            omega,
            mean_anomaly,
            mean_motion,
            revolution_number: revolution_number as u32,
        },
    )
}

} // verus!
