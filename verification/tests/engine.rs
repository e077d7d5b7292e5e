use evolver::doubler::Doubler;
use evolver::engine::{Phase, Selection, SelectionError};
use evolver::species::{Species, Trial};

fn doubler(mult: i64) -> Doubler {
    Doubler { mult, error: i64::MAX }
}

fn engine_of(mults: &[i64]) -> Selection<Doubler> {
    let species: Vec<Doubler> = mults.iter().map(|m| doubler(*m)).collect();
    Selection { generation: 0, species, bestest: doubler(0), phase: Phase::Seeded }
}

#[test]
fn new_rejects_zero_size() {
    let r = Selection::<Doubler>::new(0);
    assert!(matches!(r, Err(SelectionError::InvalidSize)));
}

#[test]
fn new_rejects_odd_size() {
    let r = Selection::<Doubler>::new(5);
    assert!(matches!(r, Err(SelectionError::InvalidSize)));
}

#[test]
fn new_seeds_sentinel_errors_in_range() {
    let sel = Selection::<Doubler>::new(6).unwrap();
    assert_eq!(sel.species.len(), 6);
    assert_eq!(sel.generation, 0);
    for sp in &sel.species {
        assert_eq!(sp.error, i64::MAX);
        assert!((-1000..1000).contains(&sp.mult));
    }
    assert_eq!(sel.bestest.error, i64::MAX);
}

#[test]
fn random_draws_vary() {
    let mut distinct = false;
    let first = Doubler::random();
    for _ in 0..50 {
        if Doubler::random().mult != first.mult {
            distinct = true;
        }
    }
    assert!(distinct);
}

#[test]
fn fitness_exact_doubler_is_zero() {
    // One trial (2.0 -> 4.0) at input scale ten, and a multiplier of 2.0.
    let mut sel = engine_of(&[20, 7]);
    sel.generation(&[Trial { input: 20, expected: 400 }]).unwrap();
    assert_eq!(sel.species[0].error, 0);
    assert_eq!(sel.generation, 1);
}

#[test]
fn multi_trial_accumulation() {
    // Trials (2.0,4.0), (5.0,10.0), (100.0,200.0); errors are summed.
    let trials = [
        Trial { input: 20, expected: 400 },
        Trial { input: 50, expected: 1000 },
        Trial { input: 1000, expected: 20000 },
    ];
    let mut sel = engine_of(&[20, 21]);
    sel.generation(&trials).unwrap();
    // A multiplier of exactly 2.0 reproduces every trial.
    assert_eq!(sel.species[0].error, 0);
    // 2.1 misses by 0.2 + 0.5 + 10.0, i.e. 1070 in the scaled units.
    assert_eq!(sel.species[1].error, 1070);
}

#[test]
fn empty_trials_rejected() {
    let mut sel = engine_of(&[1, 2]);
    let r = sel.generation(&[]);
    assert!(matches!(r, Err(SelectionError::EmptyTrials)));
    assert_eq!(sel.phase, Phase::Seeded);
}

#[test]
fn phase_order_enforced() {
    let trials = [Trial { input: 10, expected: 100 }];
    let mut sel = engine_of(&[1, 2]);
    assert!(matches!(sel.selection(), Err(SelectionError::WrongPhase)));
    assert!(matches!(sel.mutate(-1, 2), Err(SelectionError::WrongPhase)));
    sel.generation(&trials).unwrap();
    assert!(matches!(sel.generation(&trials), Err(SelectionError::WrongPhase)));
    assert!(matches!(sel.mutate(-1, 2), Err(SelectionError::WrongPhase)));
    sel.selection().unwrap();
    assert!(matches!(sel.selection(), Err(SelectionError::WrongPhase)));
    assert!(matches!(sel.generation(&trials), Err(SelectionError::WrongPhase)));
    sel.mutate(-1, 2).unwrap();
    assert!(matches!(sel.mutate(-1, 2), Err(SelectionError::WrongPhase)));
    sel.generation(&trials).unwrap();
}

#[test]
fn selection_sorts_and_truncates() {
    // Errors against the trial (1.0 -> 20.0) at scale ten: |200 - 10*mult|.
    let mut sel = engine_of(&[30, 10, 25, 20, 5, 0]);
    sel.generation(&[Trial { input: 10, expected: 200 }]).unwrap();
    assert_eq!(
        sel.species.iter().map(|s| s.error).collect::<Vec<i64>>(),
        vec![100, 100, 50, 0, 150, 200],
    );
    sel.selection().unwrap();
    // The surviving half is ranked ascending by error...
    for k in 0..2 {
        assert!(sel.species[k].error <= sel.species[k + 1].error);
    }
    assert_eq!(
        sel.species.iter().map(|s| s.error).collect::<Vec<i64>>(),
        vec![0, 50, 100, 0, 50, 100],
    );
    // ...equal scores keep their relative order...
    assert_eq!(sel.species[2].mult, 30);
    // ...and the worse half is overwritten with copies of the survivors.
    for k in 3..6 {
        assert_eq!(sel.species[k], sel.species[k - 3]);
    }
    assert_eq!(sel.bestest.mult, 20);
    assert_eq!(sel.bestest.error, 0);
}

#[test]
fn population_size_never_changes() {
    let trials = [Trial { input: 20, expected: 400 }];
    let mut sel = Selection::<Doubler>::new(20).unwrap();
    for _ in 0..10 {
        sel.generation(&trials).unwrap();
        assert_eq!(sel.species.len(), 20);
        sel.selection().unwrap();
        assert_eq!(sel.species.len(), 20);
        sel.mutate(-1, 2).unwrap();
        assert_eq!(sel.species.len(), 20);
    }
}

#[test]
fn mutation_stays_in_range() {
    let trials = [Trial { input: 10, expected: 200 }];
    let mut sel = engine_of(&[30, 10, 25, 20, 5, 0]);
    sel.generation(&trials).unwrap();
    sel.selection().unwrap();
    let before: Vec<i64> = sel.species.iter().map(|s| s.mult).collect();
    sel.mutate(-5, 5).unwrap();
    for (old, sp) in before.iter().zip(sel.species.iter()) {
        let delta = sp.mult - old;
        assert!((-5..5).contains(&delta));
    }
    // The error scores are untouched by mutation.
    let errors: Vec<i64> = sel.species.iter().map(|s| s.error).collect();
    assert_eq!(errors, vec![0, 50, 100, 0, 50, 100]);
}

#[test]
fn mutation_degenerate_range_is_deterministic() {
    let trials = [Trial { input: 10, expected: 200 }];
    let mut sel = engine_of(&[1, 2]);
    sel.generation(&trials).unwrap();
    sel.selection().unwrap();
    let before: Vec<i64> = sel.species.iter().map(|s| s.mult).collect();
    sel.mutate(7, 8).unwrap();
    for (old, sp) in before.iter().zip(sel.species.iter()) {
        assert_eq!(sp.mult - old, 7);
    }
}

#[test]
fn apex_found_on_first_cycle() {
    // One member already solves the trial exactly; it must be the apex after
    // the very first evaluation, no mutation needed.
    let mut sel = engine_of(&[20, 1, 2, 3]);
    assert!(sel.apex().is_none());
    sel.generation(&[Trial { input: 20, expected: 400 }]).unwrap();
    sel.selection().unwrap();
    let ap = sel.apex().expect("an exact solver must be an apex");
    assert_eq!(ap.error, 0);
    assert_eq!(ap.mult, 20);
}

#[test]
fn apex_none_without_exact_zero() {
    let mut sel = engine_of(&[1, 2]);
    sel.generation(&[Trial { input: 20, expected: 400 }]).unwrap();
    assert!(sel.apex().is_none());
}

#[test]
fn total_error_sums_population() {
    let mut sel = engine_of(&[30, 10, 25, 20, 5, 0]);
    sel.generation(&[Trial { input: 10, expected: 200 }]).unwrap();
    assert_eq!(sel.total_error(), 600);
}

#[test]
fn best_error_monotone_over_run() {
    let trials = [Trial { input: 20, expected: 400 }];
    let mut sel = Selection::<Doubler>::new(20).unwrap();
    let mut last = i64::MAX;
    for _ in 0..30 {
        sel.generation(&trials).unwrap();
        sel.selection().unwrap();
        assert!(sel.bestest.error <= last);
        last = sel.bestest.error;
        sel.mutate(-1, 2).unwrap();
    }
}

#[test]
fn total_error_trends_downward() {
    let trials = [Trial { input: 20, expected: 400 }];
    let mut sel = Selection::<Doubler>::new(20).unwrap();
    sel.generation(&trials).unwrap();
    let start = sel.total_error();
    if start == 0 {
        return;
    }
    sel.selection().unwrap();
    sel.mutate(-1, 2).unwrap();
    for _ in 0..300 {
        sel.generation(&trials).unwrap();
        sel.selection().unwrap();
        sel.mutate(-1, 2).unwrap();
    }
    sel.generation(&trials).unwrap();
    let end = sel.total_error();
    assert!(end < start);
}

#[test]
fn doubler_live_multiplies() {
    let sp = doubler(21);
    assert_eq!(sp.live(50), 1050);
    assert_eq!(sp.live(-50), -1050);
}

#[test]
fn doubler_mutate_and_error_accessors() {
    let mut sp = doubler(3);
    sp.mutate(4);
    assert_eq!(sp.mult, 7);
    sp.set_error(9);
    assert_eq!(sp.error(), 9);
    assert_eq!(sp.mult, 7);
}
