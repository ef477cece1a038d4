//! The state of one grid cell: fixed, undetermined, or contradictory.

use crate::random::choose_candidate;
use crate::state::{all_states, State, STATE_COUNT};
use rand::rngs::StdRng;
use vstd::prelude::*;

verus! {

/// A cell has no tile left that satisfies its constraints.
#[derive(Clone, Copy, Debug, PartialEq, Eq, Structural)]
pub struct InvalidDomainError;

/// Mathematical model of a cell.
pub enum DomainModel {
    Collapsed(State),
    Superposition(Seq<State>),
    Invalid,
}

impl DomainModel {
    /// Uncertainty of the cell: 0 when fixed, the number of candidates when
    /// undetermined. A contradiction has none; it counts as 0 here.
    pub open spec fn enthropy(self) -> nat {
        match self {
            DomainModel::Superposition(s) => s.len(),
            _ => 0,
        }
    }

    /// The cell's candidate list, if it has one, is short enough to sample.
    pub open spec fn wf(self) -> bool {
        self is Superposition ==> self->Superposition_0.len() <= STATE_COUNT
    }
}

/// The state of one grid cell.
#[derive(Debug)]
pub enum Domain {
    /// Resolved to exactly one tile.
    Collapsed(State),
    /// Still open among these candidates.
    Superposition(Vec<State>),
    /// No tile remains possible.
    Invalid,
}

impl View for Domain {
    type V = DomainModel;

    open spec fn view(&self) -> DomainModel {
        match self {
            Domain::Collapsed(s) => DomainModel::Collapsed(*s),
            Domain::Superposition(v) => DomainModel::Superposition(v@),
            Domain::Invalid => DomainModel::Invalid,
        }
    }
}

impl Domain {
    /// Uncertainty of the cell; fails on a contradiction.
    pub fn enthropy(&self) -> (r: Result<usize, InvalidDomainError>)
        ensures
            self@ is Invalid <==> r is Err,
            r matches Ok(e) ==> e == self@.enthropy(),
    {
        match self {
            Domain::Invalid => Err(InvalidDomainError),
            Domain::Collapsed(_) => Ok(0),
            Domain::Superposition(v) => Ok(v.len()),
        }
    }

    /// Fixes an undetermined cell to one of its candidates, drawn at random
    /// with the tiles' weights. A fixed or contradictory cell is left as it
    /// is; an undetermined cell without candidates becomes a contradiction.
    pub fn collapse(&mut self, rng: &mut StdRng)
        requires
            old(self)@.wf(),
        ensures
            match old(self)@ {
                DomainModel::Superposition(s) => if s.len() == 0 {
                    final(self)@ is Invalid
                } else {
                    exists|t: State| #[trigger]
                        s.contains(t) && final(self)@ == DomainModel::Collapsed(t)
                },
                _ => final(self)@ == old(self)@,
            },
    {
        let next = match self {
            Domain::Superposition(v) => match choose_candidate(v, rng) {
                Some(t) => Some(Domain::Collapsed(t)),
                None => Some(Domain::Invalid),
            },
            _ => None,
        };
        if let Some(d) = next {
            *self = d;
        }
    }
}

impl Default for Domain {
    /// Undetermined over the full tile set.
    fn default() -> (r: Self)
        ensures
            r@ == DomainModel::Superposition(all_states()),
    {
        Domain::Superposition(State::all())
    }
}

} // verus!
