//! The actions a player can propose to the referee.

use vstd::prelude::*;

use crate::card::{Card, Property};
use crate::player::PositionSet;

verus! {

/// One move: play or discard a hand position, or hint another seat.
/// The card field of a play or discard starts empty and is filled in by the
/// referee once the identity of the moved card is known.
#[derive(Debug, Clone, Copy)]
pub enum Action {
    Play { card: Option<Card>, position: usize },
    Discard { card: Option<Card>, position: usize },
    Hint { receiver: usize, hinted_property: Property, positions: PositionSet },
}

impl Action {
    /// Record the identity of the card that a play or discard moved.
    pub fn add_card_information(&mut self, old_card: Card)
        requires
            old(self) matches Action::Play { card: Option::None, .. } || old(self)
                matches Action::Discard { card: Option::None, .. },
        ensures
            *old(self) matches Action::Play { position, .. } ==> *final(self) == (Action::Play {
                card: Option::Some(old_card),
                position,
            }),
            *old(self) matches Action::Discard { position, .. } ==> *final(self)
                == (Action::Discard { card: Option::Some(old_card), position }),
    {
        match self {
            Action::Play { card, .. } => {
                *card = Option::Some(old_card);
            },
            Action::Discard { card, .. } => {
                *card = Option::Some(old_card);
            },
            Action::Hint { .. } => {
                proof {
                    assert(false);
                }
            },
        }
    }
}

} // verus!
