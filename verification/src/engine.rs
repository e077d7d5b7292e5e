//! The selection engine: owns the population and the best individual ever
//! seen, and drives the evaluate -> rank/truncate -> mutate cycle.

use vstd::prelude::*;
use crate::rng::random_in_i64;
use crate::species::{
    fitness, lemma_fitness_nonneg, lemma_fitness_prefix_le, lemma_fitness_step, trial_error,
    Species, Trial,
};

verus! {

/// Where the engine stands in its cycle. The ordering dependency between
/// `generation`, `selection` and `mutate` is checked at run time: a call out
/// of order is answered with `SelectionError::WrongPhase` instead of
/// producing a ranking over stale scores.
#[derive(Clone, Copy, Debug, PartialEq, Eq, Structural)]
pub enum Phase {
    /// Freshly constructed: every score is still the sentinel maximum.
    Seeded,
    /// Every member has been scored against one trial set.
    Evaluated,
    /// Ranked and truncated; scores still describe the current parameters.
    Ranked,
    /// Perturbed; scores are stale until the next evaluation.
    Mutated,
}

/// The conditions the engine rejects.
#[derive(Clone, Copy, Debug, PartialEq, Eq, Structural)]
pub enum SelectionError {
    /// The requested population size is zero or odd, so truncation could
    /// not split the population cleanly.
    InvalidSize,
    /// An empty trial set would give every member a zero score and collapse
    /// the ranking to an arbitrary order.
    EmptyTrials,
    /// An operation was called out of the evaluate -> rank -> mutate order.
    WrongPhase,
}

/// Ascending by error score.
pub open spec fn sorted_by_err<S: Species>(s: Seq<S>) -> bool {
    forall|k1: int, k2: int|
        #![trigger s[k1].err(), s[k2].err()]
        0 <= k1 <= k2 < s.len() ==> s[k1].err() <= s[k2].err()
}

/// Exchanging two positions of a sequence leaves its multiset unchanged.
proof fn lemma_swap_preserves_multiset<T>(s: Seq<T>, i: int, j: int)
    requires
        0 <= i < s.len(),
        0 <= j < s.len(),
    ensures
        s.update(i, s[j]).update(j, s[i]).to_multiset() == s.to_multiset(),
{
    broadcast use vstd::seq_lib::group_to_multiset_ensures;
    broadcast use vstd::multiset::group_multiset_axioms;
    broadcast use vstd::multiset::group_multiset_properties;

    let s1 = s.update(i, s[j]);
    assert(s1[j] == s[j]);
    assert(s.contains(s[i]));
    assert(s1.contains(s1[i]));
    assert(s.update(i, s[j]).update(j, s[i]).to_multiset() =~= s.to_multiset());
}

/// Sort in place, ascending by error score: an insertion sort of adjacent
/// exchanges, so members with equal scores keep their relative order.
fn sort_by_error<S: Species>(v: &mut Vec<S>)
    ensures
        final(v)@.len() == old(v)@.len(),
        final(v)@.to_multiset() == old(v)@.to_multiset(),
        sorted_by_err::<S>(final(v)@),
{
    let n = v.len();
    if n <= 1 {
        return ;
    }
    let mut i: usize = 1;
    while i < n
        invariant
            1 <= i <= n,
            n == v@.len(),
            v@.to_multiset() == old(v)@.to_multiset(),
            sorted_by_err::<S>(v@.take(i as int)),
        decreases n - i,
    {
        proof {
            assert forall|k1: int, k2: int|
                0 <= k1 <= k2 <= i && k2 != i implies #[trigger] v@[k1].err()
                <= #[trigger] v@[k2].err() by {
                assert(v@.take(i as int)[k1] == v@[k1]);
                assert(v@.take(i as int)[k2] == v@[k2]);
            }
        }
        let mut j: usize = i;
        while j > 0 && v[j - 1].error() > v[j].error()
            invariant
                j <= i < n,
                n == v@.len(),
                v@.to_multiset() == old(v)@.to_multiset(),
                forall|k1: int, k2: int|
                    #![trigger v@[k1].err(), v@[k2].err()]
                    0 <= k1 <= k2 <= i && k2 != j ==> v@[k1].err() <= v@[k2].err(),
            decreases j,
        {
            let ghost before = v@;
            let a = v[j - 1];
            let b = v[j];
            v.set(j - 1, b);
            v.set(j, a);
            proof {
                lemma_swap_preserves_multiset(before, j - 1, j as int);
                assert(v@ == before.update(j - 1, before[j as int]).update(
                    j as int,
                    before[j - 1],
                ));
            }
            j = j - 1;
        }
        proof {
            assert forall|k1: int, k2: int|
                0 <= k1 <= k2 <= i implies #[trigger] v@[k1].err() <= #[trigger] v@[k2].err() by {
                if k2 == j && k1 < k2 {
                    assert(v@[k1].err() <= v@[j - 1].err());
                }
            }
            assert(sorted_by_err::<S>(v@.take(i as int + 1)));
        }
        i = i + 1;
    }
    proof {
        assert(v@.take(n as int) =~= v@);
    }
}

/// A fixed-size population of species instances, the best individual ever
/// observed, and a generation counter.
pub struct Selection<S: Species> {
    pub generation: usize,
    pub species: Vec<S>,
    pub bestest: S,
    pub phase: Phase,
}

impl<S: Species> Selection<S> {
    /// What one successful `selection` call does to the engine: some
    /// reordering `ranked` of the old population, ascending by error score,
    /// has its better half written over both halves of the population, and
    /// `bestest` is replaced by the front-runner exactly when that improves
    /// on it.
    pub open spec fn selection_step(pre: Selection<S>, post: Selection<S>) -> bool {
        let n = pre.species@.len() as int;
        let half = n / 2;
        &&& post.species@.len() == n
        &&& post.generation == pre.generation
        &&& post.phase == Phase::Ranked
        &&& exists|ranked: Seq<S>|
            {
                &&& ranked.len() == n
                &&& ranked.to_multiset() == pre.species@.to_multiset()
                &&& sorted_by_err::<S>(ranked)
                &&& (forall|k: int| 0 <= k < half ==> post.species@[k] == ranked[k])
                &&& (forall|k: int| half <= k < n ==> post.species@[k] == ranked[k - half])
                &&& post.bestest == (if ranked[0].err() < pre.bestest.err() {
                    ranked[0]
                } else {
                    pre.bestest
                })
            }
    }

    /// Well-formedness: the population has a positive, even size, and every
    /// error score is non-negative.
    pub open spec fn wf(self) -> bool {
        &&& self.species@.len() >= 2
        &&& self.species@.len() % 2 == 0
        &&& forall|i: int|
            0 <= i < self.species@.len() ==> #[trigger] self.species@[i].err() >= 0
        &&& self.bestest.err() >= 0
    }

    /// Construct an engine over `size` freshly randomized members, plus one
    /// more seeding `bestest`. Rejects a size that is zero or odd.
    pub fn new(size: usize) -> (r: Result<Selection<S>, SelectionError>)
        ensures
            r is Ok <==> (size > 0 && size % 2 == 0),
            match r {
                Ok(sel) => {
                    &&& sel.wf()
                    &&& sel.species@.len() == size
                    &&& sel.generation == 0
                    &&& sel.phase == Phase::Seeded
                    &&& sel.bestest.err() == i64::MAX as int
                    &&& S::init_ok(sel.bestest.param())
                    &&& forall|i: int|
                        0 <= i < size ==> #[trigger] sel.species@[i].err() == i64::MAX as int
                    &&& forall|i: int|
                        0 <= i < size ==> S::init_ok(#[trigger] sel.species@[i].param())
                },
                Err(e) => e == SelectionError::InvalidSize,
            },
    {
        if size == 0 || size % 2 != 0 {
            return Err(SelectionError::InvalidSize);
        }
        let mut species: Vec<S> = Vec::new();
        while species.len() < size
            invariant
                species@.len() <= size,
                forall|i: int|
                    0 <= i < species@.len() ==> #[trigger] species@[i].err() == i64::MAX as int,
                forall|i: int|
                    0 <= i < species@.len() ==> S::init_ok(#[trigger] species@[i].param()),
            decreases size - species@.len(),
        {
            species.push(S::random());
        }
        Ok(Selection { generation: 0, species, bestest: S::random(), phase: Phase::Seeded })
    }

    /// Score one member against the trial set: reset its error to zero,
    /// accumulate the distance between expected and produced output over
    /// every trial, and store the sum.
    pub fn trial_species(species: &mut S, expected: &[Trial])
        requires
            forall|j: int|
                0 <= j < expected@.len() ==> S::live_ok(
                    old(species).param(),
                    #[trigger] expected@[j].input as int,
                ),
            fitness::<S>(old(species).param(), expected@) <= i64::MAX as int,
        ensures
            final(species).param() == old(species).param(),
            final(species).err() == fitness::<S>(old(species).param(), expected@),
    {
        let ghost param = old(species).param();
        let ghost trials = expected@;
        let mut error: i64 = 0;
        let mut j: usize = 0;
        while j < expected.len()
            invariant
                j <= expected@.len(),
                trials == expected@,
                param == old(species).param(),
                *species == *old(species),
                forall|k: int|
                    0 <= k < trials.len() ==> S::live_ok(param, #[trigger] trials[k].input as int),
                fitness::<S>(param, trials) <= i64::MAX as int,
                error as int == fitness::<S>(param, trials.take(j as int)),
                error >= 0,
            decreases expected@.len() - j,
        {
            proof {
                lemma_fitness_step::<S>(param, trials, j as int);
                lemma_fitness_prefix_le::<S>(param, trials, j as int + 1);
                lemma_fitness_nonneg::<S>(param, trials.take(j as int));
                assert(expected@[j as int] == trials[j as int]);
                assert(S::live_ok(param, trials[j as int].input as int));
                assert(0 <= trial_error::<S>(param, trials[j as int]) <= i64::MAX as int);
            }
            let result = species.live(expected[j].input);
            proof {
                assert(result as int == S::out_of(param, trials[j as int].input as int));
            }
            let diff = if expected[j].expected >= result {
                expected[j].expected - result
            } else {
                result - expected[j].expected
            };
            error = error + diff;
            j = j + 1;
        }
        proof {
            assert(trials.take(j as int) =~= trials);
        }
        species.set_error(error);
    }

    /// One evaluate cycle: score every member against the identical trial
    /// set and advance the generation counter. Rejects an empty trial set,
    /// and any call out of the evaluate -> rank -> mutate order.
    pub fn generation(&mut self, expected: &[Trial]) -> (r: Result<(), SelectionError>)
        requires
            old(self).wf(),
            old(self).generation < usize::MAX,
            forall|i: int, j: int|
                0 <= i < old(self).species@.len() && 0 <= j < expected@.len() ==> S::live_ok(
                    #[trigger] old(self).species@[i].param(),
                    #[trigger] expected@[j].input as int,
                ),
            forall|i: int|
                0 <= i < old(self).species@.len() ==> fitness::<S>(
                    #[trigger] old(self).species@[i].param(),
                    expected@,
                ) <= i64::MAX as int,
        ensures
            final(self).wf(),
            final(self).species@.len() == old(self).species@.len(),
            final(self).bestest == old(self).bestest,
            r is Ok <==> ((old(self).phase == Phase::Seeded || old(self).phase == Phase::Mutated)
                && expected@.len() > 0),
            match r {
                Ok(()) => {
                    &&& final(self).phase == Phase::Evaluated
                    &&& final(self).generation == old(self).generation + 1
                    &&& forall|i: int|
                        0 <= i < old(self).species@.len()
                            ==> #[trigger] final(self).species@[i].param() == old(
                            self,
                        ).species@[i].param()
                    &&& forall|i: int|
                        0 <= i < old(self).species@.len()
                            ==> #[trigger] final(self).species@[i].err() == fitness::<S>(
                            old(self).species@[i].param(),
                            expected@,
                        )
                },
                Err(e) => {
                    &&& *final(self) == *old(self)
                    &&& if old(self).phase == Phase::Seeded || old(self).phase == Phase::Mutated {
                        e == SelectionError::EmptyTrials
                    } else {
                        e == SelectionError::WrongPhase
                    }
                },
            },
    {
        match self.phase {
            Phase::Seeded | Phase::Mutated => {},
            _ => { return Err(SelectionError::WrongPhase) },
        }
        if expected.len() == 0 {
            return Err(SelectionError::EmptyTrials);
        }
        let ghost orig = old(self).species@;
        let n = self.species.len();
        let mut i: usize = 0;
        while i < n
            invariant
                i <= n,
                n == self.species@.len(),
                orig == old(self).species@,
                self.species@.len() == orig.len(),
                self.generation == old(self).generation,
                self.bestest == old(self).bestest,
                self.phase == old(self).phase,
                forall|k: int, j: int|
                    0 <= k < orig.len() && 0 <= j < expected@.len() ==> S::live_ok(
                        #[trigger] orig[k].param(),
                        #[trigger] expected@[j].input as int,
                    ),
                forall|k: int|
                    0 <= k < orig.len() ==> fitness::<S>(#[trigger] orig[k].param(), expected@)
                        <= i64::MAX as int,
                forall|k: int| i <= k < orig.len() ==> #[trigger] self.species@[k] == orig[k],
                forall|k: int|
                    0 <= k < i ==> #[trigger] self.species@[k].param() == orig[k].param(),
                forall|k: int|
                    0 <= k < i ==> #[trigger] self.species@[k].err() == fitness::<S>(
                        orig[k].param(),
                        expected@,
                    ),
            decreases n - i,
        {
            let mut sp = self.species[i];
            proof {
                assert(sp == orig[i as int]);
            }
            Self::trial_species(&mut sp, expected);
            self.species.set(i, sp);
            i = i + 1;
        }
        self.generation = self.generation + 1;
        self.phase = Phase::Evaluated;
        proof {
            assert forall|k: int| 0 <= k < orig.len() implies #[trigger] self.species@[k].err()
                >= 0 by {
                lemma_fitness_nonneg::<S>(orig[k].param(), expected@);
            }
        }
        Ok(())
    }

    /// Truncation selection: rank the population ascending by error score,
    /// record the new front-runner in `bestest` if it improves on it, and
    /// overwrite the worse half with copies of the corresponding survivors.
    /// Rejects a call before the population has been evaluated.
    pub fn selection(&mut self) -> (r: Result<(), SelectionError>)
        requires
            old(self).wf(),
        ensures
            final(self).wf(),
            final(self).species@.len() == old(self).species@.len(),
            final(self).generation == old(self).generation,
            r is Ok <==> old(self).phase == Phase::Evaluated,
            match r {
                Ok(()) => {
                    let n = old(self).species@.len() as int;
                    let half = n / 2;
                    &&& Self::selection_step(*old(self), *final(self))
                    &&& forall|k: int|
                        half <= k < n ==> #[trigger] final(self).species@[k]
                            == final(self).species@[k - half]
                    &&& forall|k1: int, k2: int|
                        #![trigger final(self).species@[k1].err(), final(self).species@[k2].err()]
                        0 <= k1 <= k2 < half ==> final(self).species@[k1].err()
                            <= final(self).species@[k2].err()
                    &&& final(self).bestest.err() <= old(self).bestest.err()
                    &&& forall|k: int|
                        0 <= k < n ==> final(self).bestest.err()
                            <= #[trigger] final(self).species@[k].err()
                    &&& (final(self).bestest == old(self).bestest || old(self).species@.contains(
                        final(self).bestest,
                    ))
                },
                Err(e) => {
                    &&& *final(self) == *old(self)
                    &&& e == SelectionError::WrongPhase
                },
            },
    {
        match self.phase {
            Phase::Evaluated => {},
            _ => { return Err(SelectionError::WrongPhase) },
        }
        sort_by_error(&mut self.species);
        let ghost ranked = self.species@;
        proof {
            broadcast use vstd::seq_lib::group_to_multiset_ensures;

            assert forall|x: S| ranked.contains(x) implies old(self).species@.contains(x) by {
                assert(ranked.to_multiset().count(x) > 0);
            }
        }
        if self.species[0].error() < self.bestest.error() {
            self.bestest = self.species[0];
            proof {
                assert(ranked.contains(ranked[0]));
                let m = choose|m: int|
                    0 <= m < old(self).species@.len() && old(self).species@[m] == ranked[0];
                assert(old(self).species@[m].err() >= 0);
            }
        }
        let ghost best = self.bestest;
        let n = self.species.len();
        let half = n / 2;
        let mut i: usize = half;
        while i < n
            invariant
                half <= i <= n,
                n == self.species@.len(),
                n % 2 == 0,
                half == n / 2,
                ranked.len() == n,
                sorted_by_err::<S>(ranked),
                self.bestest == best,
                self.generation == old(self).generation,
                self.phase == old(self).phase,
                forall|k: int| 0 <= k < half ==> #[trigger] self.species@[k] == ranked[k],
                forall|k: int| half <= k < i ==> #[trigger] self.species@[k] == ranked[k - half],
                forall|k: int| i <= k < n ==> #[trigger] self.species@[k] == ranked[k],
            decreases n - i,
        {
            let copy = self.species[i - half];
            self.species.set(i, copy);
            i = i + 1;
        }
        self.phase = Phase::Ranked;
        proof {
            broadcast use vstd::seq_lib::group_to_multiset_ensures;

            assert forall|x: S| ranked.contains(x) implies old(self).species@.contains(x) by {
                assert(ranked.to_multiset().count(x) > 0);
            }
            assert forall|k: int| 0 <= k < n implies #[trigger] self.species@[k].err() >= 0 by {
                let x = self.species@[k];
                assert(ranked.contains(x));
                let m = choose|m: int|
                    0 <= m < old(self).species@.len() && old(self).species@[m] == x;
                assert(old(self).species@[m].err() >= 0);
            }
            assert forall|k: int| 0 <= k < n implies self.bestest.err()
                <= #[trigger] self.species@[k].err() by {
                if k < half {
                    assert(self.species@[k] == ranked[k]);
                } else {
                    assert(self.species@[k] == ranked[k - half]);
                }
            }
        }
        Ok(())
    }

    /// Perturb every member (survivors and duplicates alike) by an
    /// independent uniform draw from `[lo, hi)`, so that duplicated
    /// survivors diverge. Error scores are untouched and therefore stale.
    /// Rejects a call before the population has been ranked.
    pub fn mutate(&mut self, lo: i64, hi: i64) -> (r: Result<(), SelectionError>)
        requires
            old(self).wf(),
            lo < hi,
            forall|i: int|
                0 <= i < old(self).species@.len() ==> i64::MIN as int <= #[trigger] old(
                    self,
                ).species@[i].param() + lo as int,
            forall|i: int|
                0 <= i < old(self).species@.len() ==> #[trigger] old(self).species@[i].param()
                    + hi as int - 1 <= i64::MAX as int,
        ensures
            final(self).wf(),
            final(self).species@.len() == old(self).species@.len(),
            final(self).generation == old(self).generation,
            final(self).bestest == old(self).bestest,
            r is Ok <==> old(self).phase == Phase::Ranked,
            match r {
                Ok(()) => {
                    &&& final(self).phase == Phase::Mutated
                    &&& forall|i: int|
                        0 <= i < old(self).species@.len() ==> #[trigger] final(self).species@[i].err()
                            == old(self).species@[i].err()
                    &&& forall|i: int|
                        0 <= i < old(self).species@.len() ==> lo as int
                            <= #[trigger] final(self).species@[i].param()
                            - old(self).species@[i].param() < hi as int
                },
                Err(e) => {
                    &&& *final(self) == *old(self)
                    &&& e == SelectionError::WrongPhase
                },
            },
    {
        match self.phase {
            Phase::Ranked => {},
            _ => { return Err(SelectionError::WrongPhase) },
        }
        let ghost orig = old(self).species@;
        let n = self.species.len();
        let mut i: usize = 0;
        while i < n
            invariant
                i <= n,
                n == self.species@.len(),
                orig == old(self).species@,
                orig.len() == n,
                lo < hi,
                self.generation == old(self).generation,
                self.bestest == old(self).bestest,
                self.phase == old(self).phase,
                forall|k: int|
                    0 <= k < n ==> i64::MIN as int <= #[trigger] orig[k].param() + lo as int,
                forall|k: int|
                    0 <= k < n ==> #[trigger] orig[k].param() + hi as int - 1 <= i64::MAX as int,
                forall|k: int| i <= k < n ==> #[trigger] self.species@[k] == orig[k],
                forall|k: int|
                    0 <= k < i ==> #[trigger] self.species@[k].err() == orig[k].err(),
                forall|k: int|
                    0 <= k < i ==> lo as int <= #[trigger] self.species@[k].param()
                        - orig[k].param() < hi as int,
            decreases n - i,
        {
            let val = random_in_i64(lo, hi);
            let mut sp = self.species[i];
            sp.mutate(val);
            self.species.set(i, sp);
            i = i + 1;
        }
        self.phase = Phase::Mutated;
        Ok(())
    }

    /// Diagnostic: the sum of every current member's error score, `bestest`
    /// not included.
    pub fn total_error(&self) -> (r: i64)
        requires
            self.wf(),
            total_err::<S>(self.species@) <= i64::MAX as int,
        ensures
            r as int == total_err::<S>(self.species@),
    {
        let ghost all = self.species@;
        let n = self.species.len();
        let mut sum: i64 = 0;
        let mut i: usize = 0;
        while i < n
            invariant
                i <= n,
                all == self.species@,
                n == all.len(),
                forall|k: int| 0 <= k < all.len() ==> #[trigger] all[k].err() >= 0,
                total_err::<S>(all) <= i64::MAX as int,
                sum as int == total_err::<S>(all.take(i as int)),
                sum >= 0,
            decreases n - i,
        {
            proof {
                lemma_total_err_step::<S>(all, i as int);
                lemma_total_err_prefix_le::<S>(all, i as int + 1);
            }
            let e = self.species[i].error();
            sum = sum + e;
            i = i + 1;
        }
        proof {
            assert(all.take(n as int) =~= all);
        }
        sum
    }

    /// True of the first population index whose error score is exactly zero.
    pub open spec fn apex_at(self, i: int) -> bool {
        &&& 0 <= i < self.species@.len()
        &&& self.species@[i].err() == 0
        &&& forall|k: int| 0 <= k < i ==> #[trigger] self.species@[k].err() != 0
    }

    /// Scan for an apex: the first member whose error score is exactly zero,
    /// the caller's termination signal. The scores scanned are those of the
    /// last evaluation; right after construction or a mutation they do not
    /// describe the current parameters.
    pub fn apex(&self) -> (r: Option<&S>)
        ensures
            match r {
                Some(s) => exists|i: int| #[trigger] self.apex_at(i) && *s == self.species@[i],
                None => forall|i: int|
                    0 <= i < self.species@.len() ==> #[trigger] self.species@[i].err() != 0,
            },
    {
        let n = self.species.len();
        let mut i: usize = 0;
        while i < n
            invariant
                i <= n,
                n == self.species@.len(),
                forall|k: int| 0 <= k < i ==> #[trigger] self.species@[k].err() != 0,
            decreases n - i,
        {
            if self.species[i].error() == 0 {
                proof {
                    assert(self.apex_at(i as int));
                }
                return Some(&self.species[i]);
            }
            i = i + 1;
        }
        None
    }
}

/// Monotonic best-error: across successive selections within one run --
/// with any operations in between that leave `bestest` alone, as evaluation
/// and mutation do -- the best-ever error never increases.
pub proof fn law_best_error_monotone<S: Species>(
    a: Selection<S>,
    b: Selection<S>,
    c: Selection<S>,
    d: Selection<S>,
)
    requires
        Selection::selection_step(a, b),
        c.bestest == b.bestest,
        Selection::selection_step(c, d),
    ensures
        b.bestest.err() <= a.bestest.err(),
        d.bestest.err() <= c.bestest.err(),
        d.bestest.err() <= a.bestest.err(),
{
}

/// The sum of the error scores of a population.
pub open spec fn total_err<S: Species>(s: Seq<S>) -> int
    decreases s.len(),
{
    if s.len() == 0 {
        0
    } else {
        total_err::<S>(s.drop_last()) + s.last().err()
    }
}

/// Extending a prefix of the population by one member adds its error score.
proof fn lemma_total_err_step<S: Species>(s: Seq<S>, j: int)
    requires
        0 <= j < s.len(),
    ensures
        total_err::<S>(s.take(j + 1)) == total_err::<S>(s.take(j)) + s[j].err(),
{
    assert(s.take(j + 1).drop_last() =~= s.take(j));
    assert(s.take(j + 1).last() == s[j]);
}

/// With no negative error score, a prefix sum never exceeds the whole sum.
proof fn lemma_total_err_prefix_le<S: Species>(s: Seq<S>, j: int)
    requires
        0 <= j <= s.len(),
        forall|k: int| 0 <= k < s.len() ==> #[trigger] s[k].err() >= 0,
    ensures
        total_err::<S>(s.take(j)) <= total_err::<S>(s),
    decreases s.len() - j,
{
    if j == s.len() {
        assert(s.take(j) =~= s);
    } else {
        lemma_total_err_step::<S>(s, j);
        lemma_total_err_prefix_le::<S>(s, j + 1);
    }
}

} // verus!
