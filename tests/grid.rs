use rand::rngs::StdRng;
use rand::SeedableRng;
use wfc_pipes::domain::{Domain, InvalidDomainError};
use wfc_pipes::field::{Field, OutOfBoundsError};
use wfc_pipes::state::State;

/// A comparable picture of the grid: per cell, its tile, its candidates, or nothing.
fn snapshot(f: &Field) -> Vec<(u8, Vec<State>)> {
    let n = f.size();
    let mut out = Vec::new();
    for y in 0..n {
        for x in 0..n {
            match f.get(x, y).unwrap() {
                Domain::Collapsed(t) => out.push((0, vec![*t])),
                Domain::Superposition(v) => out.push((1, v.clone())),
                Domain::Invalid => out.push((2, vec![])),
            }
        }
    }
    out
}

fn count_invalid(f: &Field) -> usize {
    snapshot(f).iter().filter(|c| c.0 == 2).count()
}

fn set(f: &mut Field, x: usize, y: usize, d: Domain) {
    *f.get_mut(x, y).unwrap() = d;
}

#[test]
fn new_grid_is_fully_undetermined() {
    let f = Field::new(3);
    assert_eq!(f.size(), 3);
    for y in 0..3 {
        for x in 0..3 {
            assert_eq!(f.get(x, y).unwrap().enthropy(), Ok(12));
        }
    }
    assert_eq!(f.total_enthropy(), Ok(108));
}

#[test]
fn out_of_range_access_is_an_error() {
    let mut f = Field::new(2);
    assert!(matches!(f.get(2, 0), Err(OutOfBoundsError)));
    assert!(matches!(f.get(0, 2), Err(OutOfBoundsError)));
    assert!(matches!(f.get_mut(5, 5), Err(OutOfBoundsError)));
    assert!(f.get(1, 1).is_ok());
}

#[test]
fn get_mut_writes_the_addressed_cell() {
    let mut f = Field::new(2);
    set(&mut f, 1, 0, Domain::Collapsed(State::LR));
    assert!(matches!(f.get(1, 0).unwrap(), Domain::Collapsed(State::LR)));
    assert_eq!(f.get(0, 1).unwrap().enthropy(), Ok(12));
    assert_eq!(f.total_enthropy(), Ok(36));
}

#[test]
fn total_uncertainty_fails_on_contradiction() {
    let mut f = Field::new(2);
    set(&mut f, 0, 1, Domain::Invalid);
    assert_eq!(f.total_enthropy(), Err(InvalidDomainError));
}

#[test]
fn contradiction_is_detected_between_fixed_neighbours() {
    let mut f = Field::new(2);
    assert!(State::LR.connects_right());
    assert!(!State::Empty.connects_left());
    set(&mut f, 0, 0, Domain::Collapsed(State::LR));
    set(&mut f, 1, 0, Domain::Collapsed(State::Empty));
    assert_eq!(f.propagate(), Err(InvalidDomainError));
    assert!(matches!(f.get(0, 0).unwrap(), Domain::Invalid));
    assert!(count_invalid(&f) >= 1);
}

#[test]
fn single_cell_grid_is_unconstrained() {
    let mut f = Field::new(1);
    assert_eq!(f.propagate(), Ok(()));
    assert_eq!(f.get(0, 0).unwrap().enthropy(), Ok(12));
    for t in State::all() {
        let mut g = Field::new(1);
        set(&mut g, 0, 0, Domain::Collapsed(t));
        assert_eq!(g.propagate(), Ok(()));
        assert!(matches!(g.get(0, 0).unwrap(), Domain::Collapsed(s) if *s == t));
    }
}

#[test]
fn propagation_narrows_neighbours_of_a_fixed_cell() {
    let mut f = Field::new(2);
    set(&mut f, 0, 0, Domain::Collapsed(State::Empty));
    assert_eq!(f.propagate(), Ok(()));
    // The right neighbour must have no left arm: 5 of the 12 tiles.
    match f.get(1, 0).unwrap() {
        Domain::Superposition(v) => {
            assert_eq!(v.len(), 5);
            assert!(v.iter().all(|t| !t.connects_left()));
        }
        other => panic!("unexpected cell {:?}", other),
    }
    // The cell below must have no top arm.
    match f.get(0, 1).unwrap() {
        Domain::Superposition(v) => assert!(v.iter().all(|t| !t.connects_top())),
        other => panic!("unexpected cell {:?}", other),
    }
}

#[test]
fn propagation_never_raises_uncertainty() {
    let mut rng = StdRng::seed_from_u64(21);
    let mut f = Field::new(4);
    assert_eq!(f.collapse_random(&mut rng), Ok(true));
    let mut prev_total = f.total_enthropy().unwrap();
    for _ in 0..5 {
        let before = snapshot(&f);
        if f.propagate().is_err() {
            break;
        }
        let after = snapshot(&f);
        for (b, a) in before.iter().zip(after.iter()) {
            let eb = if b.0 == 1 { b.1.len() } else { 0 };
            let ea = if a.0 == 1 { a.1.len() } else { 0 };
            assert!(ea <= eb);
        }
        match f.total_enthropy() {
            Ok(t) => {
                assert!(t <= prev_total);
                prev_total = t;
            }
            Err(_) => break,
        }
    }
}

#[test]
fn sweep_after_fixed_point_changes_nothing() {
    let mut rng = StdRng::seed_from_u64(8);
    let mut f = Field::new(4);
    assert_eq!(f.collapse_random(&mut rng), Ok(true));
    let mut prev = f.total_enthropy().unwrap();
    loop {
        assert_eq!(f.propagate(), Ok(()));
        let cur = f.total_enthropy().unwrap();
        if cur == prev {
            break;
        }
        prev = cur;
    }
    let settled = snapshot(&f);
    assert_eq!(f.propagate(), Ok(()));
    assert_eq!(snapshot(&f), settled);
}

#[test]
fn collapse_random_fixes_exactly_one_cell() {
    let mut rng = StdRng::seed_from_u64(1);
    let mut f = Field::new(3);
    assert_eq!(f.collapse_random(&mut rng), Ok(true));
    let fixed = snapshot(&f).iter().filter(|c| c.0 == 0).count();
    assert_eq!(fixed, 1);
    assert_eq!(f.total_enthropy(), Ok(96));
}

#[test]
fn collapse_random_prefers_least_uncertain_cell() {
    let mut rng = StdRng::seed_from_u64(2);
    let mut f = Field::new(2);
    set(&mut f, 1, 1, Domain::Superposition(vec![State::BT, State::LR, State::TR]));
    assert_eq!(f.collapse_random(&mut rng), Ok(true));
    assert!(matches!(f.get(1, 1).unwrap(), Domain::Collapsed(_)));
    assert_eq!(f.total_enthropy(), Ok(36));
}

#[test]
fn collapse_random_reports_done_and_contradiction() {
    let mut rng = StdRng::seed_from_u64(4);
    let mut f = Field::new(1);
    set(&mut f, 0, 0, Domain::Collapsed(State::BT));
    assert_eq!(f.collapse_random(&mut rng), Ok(false));
    let mut g = Field::new(2);
    set(&mut g, 1, 0, Domain::Invalid);
    assert_eq!(g.collapse_random(&mut rng), Err(InvalidDomainError));
    assert_eq!(g.get(0, 0).unwrap().enthropy(), Ok(12));
}

#[test]
fn same_seed_gives_same_grid() {
    for seed in 0..5u64 {
        let mut a = Field::new(5);
        let mut b = Field::new(5);
        let ra = a.solve(&mut StdRng::seed_from_u64(seed));
        let rb = b.solve(&mut StdRng::seed_from_u64(seed));
        assert_eq!(ra, rb);
        assert_eq!(snapshot(&a), snapshot(&b));
    }
}

#[test]
fn solving_three_by_three_from_fixed_seed() {
    for seed in 0..20u64 {
        let mut f = Field::new(3);
        let result = f.solve(&mut StdRng::seed_from_u64(seed));
        match result {
            Ok(()) => {
                for y in 0..3 {
                    for x in 0..3 {
                        let t = match f.get(x, y).unwrap() {
                            Domain::Collapsed(t) => *t,
                            other => panic!("cell not fixed: {:?}", other),
                        };
                        if x + 1 < 3 {
                            if let Domain::Collapsed(r) = f.get(x + 1, y).unwrap() {
                                assert!(t.fits_right(r));
                                assert!(r.fits_left(&t));
                            }
                        }
                        if y + 1 < 3 {
                            if let Domain::Collapsed(b) = f.get(x, y + 1).unwrap() {
                                assert!(t.fits_bottom(b));
                                assert!(b.fits_top(&t));
                            }
                        }
                    }
                }
            }
            Err(InvalidDomainError) => {
                assert_eq!(count_invalid(&f), 1);
            }
        }
    }
}

#[test]
fn settle_reaches_a_fixed_point() {
    let mut f = Field::new(3);
    set(&mut f, 1, 1, Domain::Collapsed(State::BLTR));
    assert_eq!(f.settle(), Ok(()));
    let settled = snapshot(&f);
    assert_eq!(f.propagate(), Ok(()));
    assert_eq!(snapshot(&f), settled);
    // Every neighbour of the cross must connect back to it.
    match f.get(0, 1).unwrap() {
        Domain::Superposition(v) => assert!(v.iter().all(|t| t.connects_right())),
        Domain::Collapsed(t) => assert!(t.connects_right()),
        Domain::Invalid => panic!("unexpected contradiction"),
    }
}

#[test]
fn settle_reports_contradiction() {
    let mut f = Field::new(2);
    set(&mut f, 0, 1, Domain::Collapsed(State::TR));
    set(&mut f, 1, 1, Domain::Collapsed(State::BT));
    assert_eq!(f.settle(), Err(InvalidDomainError));
    assert!(count_invalid(&f) >= 1);
}

#[test]
fn solve_keeps_a_grid_already_fixed() {
    let mut rng = StdRng::seed_from_u64(9);
    let mut f = Field::new(2);
    set(&mut f, 0, 0, Domain::Collapsed(State::BR));
    set(&mut f, 1, 0, Domain::Collapsed(State::BL));
    set(&mut f, 0, 1, Domain::Collapsed(State::TR));
    set(&mut f, 1, 1, Domain::Collapsed(State::LT));
    let before = snapshot(&f);
    assert_eq!(f.solve(&mut rng), Ok(()));
    assert_eq!(snapshot(&f), before);
}

#[test]
fn solve_stops_at_once_on_contradiction() {
    let mut rng = StdRng::seed_from_u64(9);
    let mut f = Field::new(2);
    set(&mut f, 1, 1, Domain::Invalid);
    let before = snapshot(&f);
    assert_eq!(f.solve(&mut rng), Err(InvalidDomainError));
    assert_eq!(snapshot(&f), before);
}

#[test]
fn solve_one_cell_grid_succeeds() {
    for seed in 0..10u64 {
        let mut f = Field::new(1);
        assert_eq!(f.solve(&mut StdRng::seed_from_u64(seed)), Ok(()));
        assert!(matches!(f.get(0, 0).unwrap(), Domain::Collapsed(_)));
    }
}
