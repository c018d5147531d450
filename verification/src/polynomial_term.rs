//! A single polynomial term `c * z^p` and its symbolic derivatives.
//!
//! Coefficients are exact integers. A parsed term's coefficient magnitude is
//! bounded by `COEF_LIMIT` and its power by `POWER_LIMIT`, which keeps every
//! symbolic derivative up to the third — a coefficient times at most three
//! power factors — inside `i64` with room to spare.
use vstd::prelude::*;

verus! {

/// Largest coefficient magnitude a term accepts at construction from text.
pub const COEF_LIMIT: i64 = 0x7FFF_FFFF;

/// Largest power a term accepts at construction from text.
pub const POWER_LIMIT: u32 = 1000;

/// A single polynomial term of C*z^p.
#[derive(Clone, Copy, PartialEq, Eq, Structural, Debug)]
pub struct PolynomialTerm {
    pub coefficient: i64,
    pub power: u32,
}

/// Bounds every parsed term obeys; they make all three symbolic derivatives
/// free of overflow.
pub open spec fn term_wf(t: PolynomialTerm) -> bool {
    &&& -COEF_LIMIT <= t.coefficient <= COEF_LIMIT
    &&& t.power <= POWER_LIMIT
}

/// The symbolic derivative of a term: `(c*p) * z^(p-1)`, gone when p = 0.
pub open spec fn d1_spec(t: PolynomialTerm) -> Option<PolynomialTerm> {
    if t.power == 0 {
        None
    } else {
        Some(
            PolynomialTerm {
                coefficient: ((t.coefficient as int) * (t.power as int)) as i64,
                power: (t.power - 1) as u32,
            },
        )
    }
}

/// The second symbolic derivative: `(c*p*(p-1)) * z^(p-2)`, gone when p < 2.
pub open spec fn d2_spec(t: PolynomialTerm) -> Option<PolynomialTerm> {
    if t.power <= 1 {
        None
    } else {
        Some(
            PolynomialTerm {
                coefficient: ((t.coefficient as int) * ((t.power - 1) as int) * (
                t.power as int)) as i64,
                power: (t.power - 2) as u32,
            },
        )
    }
}

/// The third symbolic derivative: `(c*p*(p-1)*(p-2)) * z^(p-3)`, gone when
/// p < 3.
pub open spec fn d3_spec(t: PolynomialTerm) -> Option<PolynomialTerm> {
    if t.power <= 2 {
        None
    } else {
        Some(
            PolynomialTerm {
                coefficient: ((t.coefficient as int) * ((t.power - 2) as int) * ((t.power
                    - 1) as int) * (t.power as int)) as i64,
                power: (t.power - 3) as u32,
            },
        )
    }
}

impl PolynomialTerm {
    pub fn new(coefficient: i64, power: u32) -> (r: Self)
        ensures
            r.coefficient == coefficient,
            r.power == power,
    {
        Self { coefficient, power }
    }

    /// Symbolic derivative of this term; `None` when the term is constant.
    pub fn derivative(&self) -> (r: Option<Self>)
        requires
            term_wf(*self),
        ensures
            r == d1_spec(*self),
    {
        if self.power == 0 {
            None
        } else {
            proof {
                assert((self.coefficient as int) * (self.power as int) <= 0x7FFF_FFFFi64 * 1000
                    && (self.coefficient as int) * (self.power as int) >= -0x7FFF_FFFFi64
                    * 1000) by (nonlinear_arith)
                    requires
                        -0x7FFF_FFFFi64 <= self.coefficient <= 0x7FFF_FFFFi64,
                        0 <= self.power <= 1000,
                ;
            }
            Some(
                Self {
                    coefficient: self.coefficient * (self.power as i64),
                    power: self.power - 1,
                },
            )
        }
    }

    /// Second symbolic derivative; `None` when the power is below 2.
    pub fn derivative2(&self) -> (r: Option<Self>)
        requires
            term_wf(*self),
        ensures
            r == d2_spec(*self),
    {
        if self.power <= 1 {
            None
        } else {
            proof {
                let c = self.coefficient as int;
                let p = self.power as int;
                assert(-0x7FFF_FFFFi64 * 1000 <= c * (p - 1) <= 0x7FFF_FFFFi64 * 1000
                    && -0x7FFF_FFFFi64 * 1000000 <= c * (p - 1) * p <= 0x7FFF_FFFFi64
                    * 1000000) by (nonlinear_arith)
                    requires
                        -0x7FFF_FFFFi64 <= c <= 0x7FFF_FFFFi64,
                        2 <= p <= 1000,
                ;
            }
            Some(
                Self {
                    coefficient: self.coefficient * ((self.power - 1) as i64) * (
                    self.power as i64),
                    power: self.power - 2,
                },
            )
        }
    }

    /// Third symbolic derivative; `None` when the power is below 3.
    pub fn derivative3(&self) -> (r: Option<Self>)
        requires
            term_wf(*self),
        ensures
            r == d3_spec(*self),
    {
        if self.power <= 2 {
            None
        } else {
            proof {
                let c = self.coefficient as int;
                let p = self.power as int;
                assert(-0x7FFF_FFFFi64 * 1000 <= c * (p - 2) <= 0x7FFF_FFFFi64 * 1000
                    && -0x7FFF_FFFFi64 * 1000000 <= c * (p - 2) * (p - 1) <= 0x7FFF_FFFFi64
                    * 1000000 && -0x7FFF_FFFFi64 * 1000000000 <= c * (p - 2) * (p - 1) * p
                    <= 0x7FFF_FFFFi64 * 1000000000) by (nonlinear_arith)
                    requires
                        -0x7FFF_FFFFi64 <= c <= 0x7FFF_FFFFi64,
                        3 <= p <= 1000,
                ;
            }
            Some(
                Self {
                    coefficient: self.coefficient * ((self.power - 2) as i64) * ((self.power
                        - 1) as i64) * (self.power as i64),
                    power: self.power - 3,
                },
            )
        }
    }
}

} // verus!
