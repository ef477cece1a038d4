use wfc_pipes::state::State;

#[test]
fn all_variants_has_twelve_distinct_members() {
    let all = State::all();
    assert_eq!(all.len(), 12);
    assert_eq!(State::count(), all.len());
    for i in 0..all.len() {
        for j in 0..all.len() {
            if i != j {
                assert_ne!(all[i], all[j]);
            }
        }
    }
}

#[test]
fn fits_is_symmetric_for_all_pairs() {
    for a in State::all() {
        for b in State::all() {
            assert_eq!(a.fits_left(&b), b.fits_right(&a));
            assert_eq!(a.fits_top(&b), b.fits_bottom(&a));
        }
    }
}

#[test]
fn connectivity_flags_follow_tile_arms() {
    assert!(!State::Empty.connects_left());
    assert!(!State::Empty.connects_right());
    assert!(!State::Empty.connects_top());
    assert!(!State::Empty.connects_bottom());
    assert!(State::BLTR.connects_left());
    assert!(State::BLTR.connects_right());
    assert!(State::BLTR.connects_top());
    assert!(State::BLTR.connects_bottom());
    assert!(State::BL.connects_left());
    assert!(State::BL.connects_bottom());
    assert!(!State::BL.connects_right());
    assert!(!State::BL.connects_top());
    assert!(State::TR.connects_top());
    assert!(State::TR.connects_right());
    assert!(!State::TR.connects_left());
    assert!(!State::TR.connects_bottom());
}

#[test]
fn fits_compares_shared_edges() {
    // LR has a right arm, so it fits to the left of a tile with a left arm.
    assert!(State::LTR.fits_left(&State::LR));
    assert!(!State::Empty.fits_left(&State::LR));
    assert!(State::Empty.fits_left(&State::BL));
    assert!(State::LR.fits_right(&State::BL));
    assert!(!State::LR.fits_right(&State::Empty));
    // BT has a bottom arm, so only a tile with a top arm fits below it.
    assert!(State::BT.fits_bottom(&State::TR));
    assert!(!State::BT.fits_bottom(&State::BL));
    assert!(State::TR.fits_top(&State::BT));
    assert!(!State::TR.fits_top(&State::Empty));
}

#[test]
fn weights_are_positive_and_fixed() {
    assert_eq!(State::Empty.weight(), 5);
    assert_eq!(State::BLR.weight(), 2);
    assert_eq!(State::BT.weight(), 3);
    assert_eq!(State::BLTR.weight(), 1);
    for s in State::all() {
        assert!(s.weight() >= 1);
    }
}
