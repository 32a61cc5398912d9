//! The decision-variable types a `Problem` is built from.
//!
//! Bounds are inclusive on both ends: `Integer::new(Some(0), Some(10))` generates within
//! `0..=10`. A real variable's bounds are real numbers; the library only records that a
//! variable is real.
use vstd::prelude::*;
use vstd::string::StringExecFns;
use rand::rngs::SmallRng;

use crate::problem::ConfigError;
use crate::random::gen_i64_inclusive;

verus! {

/// The type of one decision variable.
#[derive(Clone, Copy, Debug)]
pub enum SolutionDataTypes {
    /// A real variable over a closed interval.
    Real,
    Integer(Integer),
    BitBinary(BitBinary),
}

/// A variable that is 0 or 1.
#[derive(Clone, Copy, Debug)]
pub struct BitBinary {}

impl BitBinary {
    pub fn new() -> (b: Self) {
        BitBinary {}
    }

    /// Draws 0 or 1.
    pub fn generate_value(&self, rng: &mut SmallRng) -> (v: Option<i64>)
        ensures
            v matches Some(x) && 0 <= x <= 1,
    {
        Some(gen_i64_inclusive(rng, 0, 1))
    }
}

impl Default for BitBinary {
    fn default() -> (b: Self) {
        BitBinary::new()
    }
}

/// An integer variable over the closed interval `[lower_bound, upper_bound]`; `None` means
/// the `i64` extreme on that side.
#[derive(Clone, Copy, Debug)]
pub struct Integer {
    pub lower_bound: Option<i64>,
    pub upper_bound: Option<i64>,
}

/// The lower end of the interval that a bound pair spans.
pub open spec fn effective_lower(lower: Option<i64>) -> i64 {
    match lower {
        Some(v) => v,
        None => i64::MIN,
    }
}

/// The upper end of the interval that a bound pair spans.
pub open spec fn effective_upper(upper: Option<i64>) -> i64 {
    match upper {
        Some(v) => v,
        None => i64::MAX,
    }
}

pub open spec fn msg_lower_above_upper() -> Seq<char> {
    "Lower bound must be less than upper bound"@
}

pub open spec fn msg_lower_equals_upper() -> Seq<char> {
    "Lower bound must not be equal to upper bound"@
}

impl Integer {
    /// Fallible constructor: the effective interval must hold at least two values.
    pub fn try_new(lower_bound: Option<i64>, upper_bound: Option<i64>) -> (r: Result<Self, ConfigError>)
        ensures
            ({
                let lo = effective_lower(lower_bound);
                let hi = effective_upper(upper_bound);
                match r {
                    Ok(i) => lo < hi && i.lower_bound == lower_bound && i.upper_bound == upper_bound,
                    Err(e) => (lo > hi && e.text() == msg_lower_above_upper()) || (lo == hi
                        && e.text() == msg_lower_equals_upper()),
                }
            }),
    {
        let lo = match lower_bound {
            Some(v) => v,
            None => i64::MIN,
        };
        let hi = match upper_bound {
            Some(v) => v,
            None => i64::MAX,
        };
        if lo > hi {
            return Err(ConfigError::new(String::from_str("Lower bound must be less than upper bound")));
        }
        if lo == hi {
            return Err(ConfigError::new(String::from_str("Lower bound must not be equal to upper bound")));
        }
        Ok(Integer { lower_bound, upper_bound })
    }

    /// Constructor for bounds that span at least two values (see [`Integer::try_new`]).
    pub fn new(lower_bound: Option<i64>, upper_bound: Option<i64>) -> (i: Self)
        requires
            effective_lower(lower_bound) < effective_upper(upper_bound),
        ensures
            i.lower_bound == lower_bound && i.upper_bound == upper_bound,
    {
        match Self::try_new(lower_bound, upper_bound) {
            Ok(i) => i,
            Err(_) => {
                proof {
                    assert(false);
                }
                Integer { lower_bound, upper_bound }
            },
        }
    }

    /// Draws from the closed interval `[lower, upper]`.
    pub fn generate_value(&self, rng: &mut SmallRng) -> (v: Option<i64>)
        requires
            effective_lower(self.lower_bound) <= effective_upper(self.upper_bound),
        ensures
            v matches Some(x) && effective_lower(self.lower_bound) <= x <= effective_upper(
                self.upper_bound,
            ),
    {
        let lo = match self.lower_bound {
            Some(v) => v,
            None => i64::MIN,
        };
        let hi = match self.upper_bound {
            Some(v) => v,
            None => i64::MAX,
        };
        Some(gen_i64_inclusive(rng, lo, hi))
    }
}

} // verus!
