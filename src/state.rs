//! The closed set of tile orientations and their adjacency rules.

use vstd::prelude::*;

verus! {

/// One pipe tile orientation; the name lists the arms it has
/// (Bottom, Left, Top, Right).
#[derive(Clone, Copy, Debug, PartialEq, Eq, Structural)]
pub enum State {
    Empty,
    BL,
    BLT,
    BLR,
    BT,
    BTR,
    BR,
    LT,
    LTR,
    LR,
    TR,
    BLTR,
}

/// Every tile orientation, in declaration order.
pub open spec fn all_states() -> Seq<State> {
    seq![
        State::Empty,
        State::BL,
        State::BLT,
        State::BLR,
        State::BT,
        State::BTR,
        State::BR,
        State::LT,
        State::LTR,
        State::LR,
        State::TR,
        State::BLTR,
    ]
}

/// Number of tile orientations.
pub const STATE_COUNT: usize = 12;

impl State {
    pub open spec fn left_arm(self) -> bool {
        match self {
            State::BL | State::BLT | State::BLR | State::LT | State::LTR | State::LR
            | State::BLTR => true,
            _ => false,
        }
    }

    pub open spec fn right_arm(self) -> bool {
        match self {
            State::BLR | State::BTR | State::BR | State::LTR | State::LR | State::TR
            | State::BLTR => true,
            _ => false,
        }
    }

    pub open spec fn top_arm(self) -> bool {
        match self {
            State::BLT | State::BT | State::BTR | State::LT | State::LTR | State::TR
            | State::BLTR => true,
            _ => false,
        }
    }

    pub open spec fn bottom_arm(self) -> bool {
        match self {
            State::BL | State::BLT | State::BLR | State::BT | State::BTR | State::BR
            | State::BLTR => true,
            _ => false,
        }
    }

    /// `self` may stand to the right of `other`: the edge they share agrees.
    pub open spec fn fits_left_spec(self, other: State) -> bool {
        self.left_arm() == other.right_arm()
    }

    /// `self` may stand above `other`.
    pub open spec fn fits_bottom_spec(self, other: State) -> bool {
        self.bottom_arm() == other.top_arm()
    }

    /// `self` may stand to the left of `other`; the mirror of `fits_left_spec`.
    pub open spec fn fits_right_spec(self, other: State) -> bool {
        other.fits_left_spec(self)
    }

    /// `self` may stand below `other`; the mirror of `fits_bottom_spec`.
    pub open spec fn fits_top_spec(self, other: State) -> bool {
        other.fits_bottom_spec(self)
    }

    /// Selection weight of a tile when a cell is sampled.
    pub open spec fn weight_spec(self) -> u32 {
        match self {
            State::Empty => 5,
            State::BL => 5,
            State::BLT => 5,
            State::BLR => 2,
            State::BT => 3,
            State::BTR => 2,
            State::BR => 3,
            State::LT => 3,
            State::LTR => 2,
            State::LR => 3,
            State::TR => 3,
            State::BLTR => 1,
        }
    }

    /// All tile orientations.
    pub fn all() -> (r: Vec<State>)
        ensures
            r@ == all_states(),
    {
        let r = vec![
            State::Empty,
            State::BL,
            State::BLT,
            State::BLR,
            State::BT,
            State::BTR,
            State::BR,
            State::LT,
            State::LTR,
            State::LR,
            State::TR,
            State::BLTR,
        ];
        assert(r@ =~= all_states());
        r
    }

    /// Number of tile orientations.
    pub fn count() -> (r: usize)
        ensures
            r == all_states().len(),
            r == STATE_COUNT,
    {
        let v = Self::all();
        v.len()
    }

    pub fn connects_left(&self) -> (r: bool)
        ensures
            r == self.left_arm(),
    {
        match self {
            State::BL | State::BLT | State::BLR | State::LT | State::LTR | State::LR
            | State::BLTR => true,
            _ => false,
        }
    }

    pub fn connects_right(&self) -> (r: bool)
        ensures
            r == self.right_arm(),
    {
        match self {
            State::BLR | State::BTR | State::BR | State::LTR | State::LR | State::TR
            | State::BLTR => true,
            _ => false,
        }
    }

    pub fn connects_top(&self) -> (r: bool)
        ensures
            r == self.top_arm(),
    {
        match self {
            State::BLT | State::BT | State::BTR | State::LT | State::LTR | State::TR
            | State::BLTR => true,
            _ => false,
        }
    }

    pub fn connects_bottom(&self) -> (r: bool)
        ensures
            r == self.bottom_arm(),
    {
        match self {
            State::BL | State::BLT | State::BLR | State::BT | State::BTR | State::BR
            | State::BLTR => true,
            _ => false,
        }
    }

    pub fn fits_left(&self, other: &State) -> (r: bool)
        ensures
            r == self.fits_left_spec(*other),
    {
        self.connects_left() == other.connects_right()
    }

    pub fn fits_bottom(&self, other: &State) -> (r: bool)
        ensures
            r == self.fits_bottom_spec(*other),
    {
        self.connects_bottom() == other.connects_top()
    }

    pub fn fits_right(&self, other: &State) -> (r: bool)
        ensures
            r == self.fits_right_spec(*other),
    {
        other.fits_left(self)
    }

    pub fn fits_top(&self, other: &State) -> (r: bool)
        ensures
            r == self.fits_top_spec(*other),
    {
        other.fits_bottom(self)
    }

    /// Selection weight used when an undetermined cell is sampled.
    pub fn weight(&self) -> (r: u32)
        ensures
            r == self.weight_spec(),
            1 <= r <= 5,
    {
        match self {
            State::Empty => 5,
            State::BL => 5,
            State::BLT => 5,
            State::BLR => 2,
            State::BT => 3,
            State::BTR => 2,
            State::BR => 3,
            State::LT => 3,
            State::LTR => 2,
            State::LR => 3,
            State::TR => 3,
            State::BLTR => 1,
        }
    }
}

/// Adjacency is symmetric: `a` fits to the left of `b` exactly when `b` fits
/// to the right of `a`, and likewise on the vertical axis.
pub proof fn lemma_fits_symmetric(a: State, b: State)
    ensures
        a.fits_left_spec(b) == b.fits_right_spec(a),
        a.fits_top_spec(b) == b.fits_bottom_spec(a),
{
}

/// The tile set is closed and has twelve distinct members, one per variant.
pub proof fn lemma_all_states_closed(s: State)
    ensures
        all_states().len() == 12,
        all_states().contains(s),
        all_states().no_duplicates(),
{
    let a = all_states();
    match s {
        State::Empty => assert(a[0] == s),
        State::BL => assert(a[1] == s),
        State::BLT => assert(a[2] == s),
        State::BLR => assert(a[3] == s),
        State::BT => assert(a[4] == s),
        State::BTR => assert(a[5] == s),
        State::BR => assert(a[6] == s),
        State::LT => assert(a[7] == s),
        State::LTR => assert(a[8] == s),
        State::LR => assert(a[9] == s),
        State::TR => assert(a[10] == s),
        State::BLTR => assert(a[11] == s),
    }
}

} // verus!
