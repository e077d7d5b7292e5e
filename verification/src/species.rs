//! The species capability contract: one candidate transformation, carrying
//! mutable parameters and an accumulated error score.

use vstd::prelude::*;

verus! {

/// One trial: an input value and the output the evolved transformation is
/// expected to produce for it.
#[derive(Clone, Copy, Debug, PartialEq, Eq, Structural)]
pub struct Trial {
    pub input: i64,
    pub expected: i64,
}

/// Distance between two integers, the per-trial error contribution.
pub open spec fn dist(a: int, b: int) -> int {
    if a >= b {
        a - b
    } else {
        b - a
    }
}

/// One candidate transformation in the population. The engine sees its
/// parameters only through the ghost scalar `param` (a single scalar in
/// every variant provided here), its fitness through `err`, and its
/// behavior through `out_of`.
pub trait Species: Sized + Copy + core::fmt::Debug {
    /// Mathematical model of the instance's parameters.
    spec fn param(&self) -> int;

    /// Mathematical model of the accumulated error score.
    spec fn err(&self) -> int;

    /// What the transformation returns for a given parameter and input.
    spec fn out_of(param: int, inp: int) -> int;

    /// When the transformation can be applied without overflowing.
    spec fn live_ok(param: int, inp: int) -> bool;

    /// The fixed range the variant draws its initial parameter from.
    spec fn init_ok(param: int) -> bool;

    /// A fresh instance: parameters drawn from the variant's fixed range,
    /// error at the sentinel maximum (worse than any real trial result).
    fn random() -> (s: Self)
        ensures
            s.err() == i64::MAX as int,
            Self::init_ok(s.param()),
    ;

    /// Apply the transformation to one input. Pure: no mutation, and
    /// deterministic given the parameters and the input.
    fn live(&self, inp: i64) -> (out: i64)
        requires
            Self::live_ok(self.param(), inp as int),
        ensures
            out as int == Self::out_of(self.param(), inp as int),
    ;

    /// Read the accumulated error score.
    fn error(&self) -> (e: i64)
        ensures
            e as int == self.err(),
    ;

    /// Overwrite the accumulated error score; the parameters are untouched.
    fn set_error(&mut self, err: i64)
        ensures
            final(self).err() == err as int,
            final(self).param() == old(self).param(),
    ;

    /// Add a caller-supplied perturbation to the parameters; the error
    /// score is untouched.
    fn mutate(&mut self, val: i64)
        requires
            i64::MIN as int <= old(self).param() + val as int,
            old(self).param() + val as int <= i64::MAX as int,
        ensures
            final(self).param() == old(self).param() + val as int,
            final(self).err() == old(self).err(),
    ;
}

/// The error one trial contributes for an individual with the given
/// parameter: the distance between the expected output and the produced one.
pub open spec fn trial_error<S: Species>(param: int, t: Trial) -> int {
    dist(t.expected as int, S::out_of(param, t.input as int))
}

/// The fitness of a parameter against a trial set: the per-trial errors
/// summed over all trials (not averaged). Lower is better.
pub open spec fn fitness<S: Species>(param: int, trials: Seq<Trial>) -> int
    decreases trials.len(),
{
    if trials.len() == 0 {
        0
    } else {
        fitness::<S>(param, trials.drop_last()) + trial_error::<S>(param, trials.last())
    }
}

pub proof fn lemma_fitness_nonneg<S: Species>(param: int, trials: Seq<Trial>)
    ensures
        fitness::<S>(param, trials) >= 0,
    decreases trials.len(),
{
    if trials.len() > 0 {
        lemma_fitness_nonneg::<S>(param, trials.drop_last());
    }
}

/// Extending a prefix of the trial set by one trial adds that trial's error.
pub proof fn lemma_fitness_step<S: Species>(param: int, trials: Seq<Trial>, j: int)
    requires
        0 <= j < trials.len(),
    ensures
        fitness::<S>(param, trials.take(j + 1)) == fitness::<S>(param, trials.take(j))
            + trial_error::<S>(param, trials[j]),
{
    assert(trials.take(j + 1).drop_last() =~= trials.take(j));
    assert(trials.take(j + 1).last() == trials[j]);
}

/// The fitness of a prefix never exceeds the fitness of the whole set.
pub proof fn lemma_fitness_prefix_le<S: Species>(param: int, trials: Seq<Trial>, j: int)
    requires
        0 <= j <= trials.len(),
    ensures
        fitness::<S>(param, trials.take(j)) <= fitness::<S>(param, trials),
    decreases trials.len() - j,
{
    if j == trials.len() {
        assert(trials.take(j) =~= trials);
    } else {
        lemma_fitness_step::<S>(param, trials, j);
        lemma_fitness_prefix_le::<S>(param, trials, j + 1);
    }
}

} // verus!
