//! The reference species: a linear scalar multiplier.

use vstd::prelude::*;
use crate::rng::random_in_i64;
use crate::species::Species;

verus! {

/// Lower end of the range a fresh multiplier is drawn from.
pub const MULT_LO: i64 = -1000;

/// Upper end (exclusive) of the range a fresh multiplier is drawn from.
pub const MULT_HI: i64 = 1000;

/// A species whose transformation multiplies the input by a single evolved
/// scalar. With inputs and the multiplier read at a fixed-point scale of
/// ten, a fresh multiplier covers `[-100.0, 100.0)` and outputs carry the
/// product of the two scales.
#[derive(Clone, Copy, Debug, PartialEq, Eq, Structural)]
pub struct Doubler {
    pub mult: i64,
    pub error: i64,
}

impl Species for Doubler {
    open spec fn param(&self) -> int {
        self.mult as int
    }

    open spec fn err(&self) -> int {
        self.error as int
    }

    open spec fn out_of(param: int, inp: int) -> int {
        inp * param
    }

    open spec fn live_ok(param: int, inp: int) -> bool {
        i64::MIN as int <= inp * param <= i64::MAX as int
    }

    open spec fn init_ok(param: int) -> bool {
        MULT_LO as int <= param < MULT_HI as int
    }

    fn random() -> (s: Self) {
        Doubler { mult: random_in_i64(MULT_LO, MULT_HI), error: i64::MAX }
    }

    fn live(&self, inp: i64) -> (out: i64) {
        inp * self.mult
    }

    fn error(&self) -> (e: i64) {
        self.error
    }

    fn set_error(&mut self, err: i64) {
        self.error = err;
    }

    fn mutate(&mut self, val: i64) {
        self.mult = self.mult + val;
    }
}

} // verus!
