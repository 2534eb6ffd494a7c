//! The two-tier step counter: a machine word for the common case, folded
//! from time to time into a number of unbounded size.

use vstd::prelude::*;
use num::bigint::BigUint;

verus! {

/// Steps between two folds when tracing is not verbose.
pub const FOLD_THRESHOLD: usize = 1_000_000_000;

/// The natural number whose base 2^32 digits are `digits`, least
/// significant first.
pub open spec fn digits_value(digits: Seq<u32>) -> nat
    decreases digits.len(),
{
    if digits.len() == 0 {
        0
    } else {
        digits[0] as nat + 0x1_0000_0000 * digits_value(digits.drop_first())
    }
}

/// Calls `num::bigint::BigUint`'s addition. `BigUint::new` reads base 2^32
/// digits, least significant first, and `to_u32_digits` writes them in the
/// same order; the sum in between is the sum of the two numbers. Nothing of
/// this is proved here.
#[verifier::external_body]
fn big_add(digits: &Vec<u32>, n: usize) -> (sum: Vec<u32>)
    ensures
        digits_value(sum@) == digits_value(digits@) + n,
{
    (BigUint::new(digits.clone()) + BigUint::from(n)).to_u32_digits()
}

/// Counts steps exactly, however many there are.
#[derive(Debug)]
pub struct StepCounter {
    /// What has been folded so far, as base 2^32 digits, least significant
    /// first.
    pub folded: Vec<u32>,
    /// Steps since the last fold.
    pub pending: usize,
    /// The fold happens when `pending` reaches this.
    pub threshold: usize,
}

impl StepCounter {
    pub open spec fn wf(&self) -> bool {
        self.pending < self.threshold
    }

    /// The number of steps counted.
    pub open spec fn total(&self) -> nat {
        digits_value(self.folded@) + self.pending as nat
    }

    pub fn new(threshold: usize) -> (c: StepCounter)
        requires
            threshold >= 1,
        ensures
            c.wf(),
            c.threshold == threshold,
            c.pending == 0,
            c.folded@ == Seq::<u32>::empty(),
            c.total() == 0,
    {
        StepCounter { folded: Vec::new(), pending: 0, threshold }
    }

    /// Counts one step. With `force`, or when the pending count reaches the
    /// threshold, the pending count is folded and the running total is
    /// returned.
    pub fn tick(&mut self, force: bool) -> (running: Option<Vec<u32>>)
        requires
            old(self).wf(),
        ensures
            final(self).wf(),
            final(self).threshold == old(self).threshold,
            final(self).total() == old(self).total() + 1,
            running is Some <==> force || old(self).pending + 1 == old(self).threshold,
            running matches Some(r) ==> final(self).pending == 0 && r@ == final(self).folded@,
            running is None ==> final(self).pending == old(self).pending + 1 && final(self).folded@
                == old(self).folded@,
    {
        self.pending = self.pending + 1;
        assert(self.pending % self.threshold == 0 <==> self.pending == self.threshold) by {
            let p = self.pending as int;
            let t = self.threshold as int;
            assert(0 < p <= t ==> (p % t == 0 <==> p == t)) by (nonlinear_arith);
        }
        if force || self.pending % self.threshold == 0 {
            let sum = big_add(&self.folded, self.pending);
            self.folded = sum.clone();
            self.pending = 0;
            Some(sum)
        } else {
            None
        }
    }

    /// The total as base 2^32 digits, least significant first.
    pub fn total_digits(&self) -> (digits: Vec<u32>)
        ensures
            digits_value(digits@) == self.total(),
    {
        big_add(&self.folded, self.pending)
    }
}

} // verus!
