use rand::rngs::StdRng;
use rand::SeedableRng;
use wfc_pipes::domain::{Domain, InvalidDomainError};
use wfc_pipes::state::State;

#[test]
fn uncertainty_of_each_kind_of_cell() {
    assert_eq!(Domain::Collapsed(State::BT).enthropy(), Ok(0));
    assert_eq!(Domain::Superposition(vec![State::BT, State::LR, State::Empty]).enthropy(), Ok(3));
    assert_eq!(Domain::Invalid.enthropy(), Err(InvalidDomainError));
    assert_eq!(Domain::default().enthropy(), Ok(12));
}

#[test]
fn collapse_picks_one_of_the_candidates() {
    let mut rng = StdRng::seed_from_u64(3);
    for _ in 0..50 {
        let mut d = Domain::Superposition(vec![State::BT, State::LR]);
        d.collapse(&mut rng);
        match d {
            Domain::Collapsed(t) => assert!(t == State::BT || t == State::LR),
            other => panic!("expected a fixed cell, got {:?}", other),
        }
    }
}

#[test]
fn collapse_of_full_cell_fixes_it() {
    let mut rng = StdRng::seed_from_u64(11);
    let mut d = Domain::default();
    d.collapse(&mut rng);
    assert!(matches!(d, Domain::Collapsed(_)));
    assert_eq!(d.enthropy(), Ok(0));
}

#[test]
fn collapse_of_empty_candidates_is_contradiction() {
    let mut rng = StdRng::seed_from_u64(5);
    let mut d = Domain::Superposition(vec![]);
    d.collapse(&mut rng);
    assert!(matches!(d, Domain::Invalid));
}

#[test]
fn collapse_leaves_fixed_and_invalid_cells() {
    let mut rng = StdRng::seed_from_u64(5);
    let mut d = Domain::Collapsed(State::TR);
    d.collapse(&mut rng);
    assert!(matches!(d, Domain::Collapsed(State::TR)));
    let mut e = Domain::Invalid;
    e.collapse(&mut rng);
    assert!(matches!(e, Domain::Invalid));
}
