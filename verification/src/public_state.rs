//! Everything all seats can see: piles, discards, clue and strike counters.

use vstd::prelude::*;

use crate::action::Action;
use crate::card::{number_of_rank_spec, Card, Number};
use crate::card_pile::CardPile;
use crate::card_set::CardSet;
use crate::firework::Firework;
use crate::rules::Rules;

verus! {

/// The public game state every seat tracks identically.
pub struct PublicState {
    pub firework: Firework,
    pub discard_pile: CardPile,
    pub rules: Rules,
    pub clues: usize,
    pub strikes: usize,
}

/// An identity is permanently out of reach: some rank at or below it of its
/// color has every physical copy in the discard pile.
pub open spec fn unreachable_spec(pile: CardPile, c: Card) -> bool {
    exists|rr: int|
        1 <= rr <= c.number.rank_spec() && pile.mult_spec(
            Card { number: number_of_rank_spec(rr), color: c.color },
        ) >= number_of_rank_spec(rr).copies_spec()
}

impl PublicState {
    pub open spec fn wf(self) -> bool {
        &&& self.firework.wf()
        &&& self.discard_pile.wf()
        &&& self.rules.wf()
        &&& self.clues <= self.rules.max_clues
        &&& self.strikes <= 3
    }

    /// An identity that must be saved: a rank-2..4 card with one copy already
    /// discarded whose pile has not reached it yet.
    pub open spec fn critical_save_spec(self, c: Card) -> bool {
        &&& 2 <= c.number.rank_spec() <= 4
        &&& self.discard_pile.mult_spec(c) >= 1
        &&& self.firework.top_spec(c.color) <= c.number.rank_spec() - 2
    }

    /// The public state at the start of a game.
    pub fn new(rules: Rules) -> (r: Self)
        requires
            rules.wf(),
        ensures
            r.wf(),
            r.rules == rules,
            r.clues == rules.max_clues,
            r.strikes == 0,
            forall|col: crate::card::Color| #[trigger] r.firework.top_spec(col) == 0,
            forall|c: Card| #[trigger] r.discard_pile.mult_spec(c) == 0,
    {
        PublicState {
            firework: Firework::new(&rules.used_colors()),
            discard_pile: CardPile::new(),
            rules,
            clues: rules.max_clues,
            strikes: 0,
        }
    }

    /// Gain a clue unless the maximum is reached; reports whether one was
    /// gained.
    pub fn add_clue(&mut self) -> (succ: bool)
        requires
            old(self).wf(),
        ensures
            final(self).wf(),
            succ == (old(self).clues < old(self).rules.max_clues),
            succ ==> final(self).clues == old(self).clues + 1,
            !succ ==> final(self).clues == old(self).clues,
            final(self).firework == old(self).firework,
            final(self).discard_pile == old(self).discard_pile,
            final(self).rules == old(self).rules,
            final(self).strikes == old(self).strikes,
    {
        let succ = self.clues < self.rules.max_clues;
        if succ {
            self.clues = self.clues + 1;
        }
        succ
    }

    /// A known discard: the card goes to the pile and a clue comes back.
    pub fn discard(&mut self, card: Card)
        requires
            old(self).wf(),
            old(self).clues < old(self).rules.max_clues,
            old(self).discard_pile.mult_spec(card) <= 2,
        ensures
            final(self).wf(),
            final(self).clues == old(self).clues + 1,
            final(self).discard_pile.mult_spec(card) == old(self).discard_pile.mult_spec(card)
                + 1,
            forall|c: Card|
                c != card ==> #[trigger] final(self).discard_pile.mult_spec(c) == old(
                    self,
                ).discard_pile.mult_spec(c),
            final(self).firework == old(self).firework,
            final(self).rules == old(self).rules,
            final(self).strikes == old(self).strikes,
    {
        self.discard_pile.add(&card);
        let succ = self.add_clue();
        proof {
            assert(succ);
        }
    }

    /// A known play: on success the pile grows, and a finished rank five
    /// refunds a clue; on a misplay the card is discarded and a strike is
    /// noted.
    pub fn play(&mut self, card: Card)
        requires
            old(self).wf(),
            old(self).strikes < 3,
            old(self).discard_pile.mult_spec(card) <= 2,
        ensures
            final(self).wf(),
            final(self).rules == old(self).rules,
            old(self).firework.playable_spec(card) ==> {
                &&& final(self).firework.top_spec(card.color) == card.number.rank_spec()
                &&& forall|col: crate::card::Color|
                    col != card.color ==> #[trigger] final(self).firework.top_spec(col) == old(
                        self,
                    ).firework.top_spec(col)
                &&& final(self).discard_pile == old(self).discard_pile
                &&& final(self).strikes == old(self).strikes
                &&& final(self).clues == (if card.number == Number::Five && old(self).clues < old(
                    self,
                ).rules.max_clues {
                    old(self).clues + 1
                } else {
                    old(self).clues as int
                })
            },
            !old(self).firework.playable_spec(card) ==> {
                &&& final(self).firework == old(self).firework
                &&& final(self).strikes == old(self).strikes + 1
                &&& final(self).clues == old(self).clues
                &&& final(self).discard_pile.mult_spec(card) == old(
                    self,
                ).discard_pile.mult_spec(card) + 1
                &&& forall|c: Card|
                    c != card ==> #[trigger] final(self).discard_pile.mult_spec(c) == old(
                        self,
                    ).discard_pile.mult_spec(c)
            },
    {
        let succ = self.firework.add(card);
        if !succ {
            self.strikes = self.strikes + 1;
            self.discard_pile.add(&card);
        } else if matches!(card.number, Number::Five) {
            self.add_clue();
        }
    }

    /// A hint was given: one clue is spent.
    pub fn hint(&mut self)
        requires
            old(self).wf(),
            old(self).clues != 0,
        ensures
            final(self).wf(),
            final(self).clues == old(self).clues - 1,
            final(self).firework == old(self).firework,
            final(self).discard_pile == old(self).discard_pile,
            final(self).rules == old(self).rules,
            final(self).strikes == old(self).strikes,
    {
        self.clues = self.clues - 1;
    }

    /// Replay an already validated action on this public state: a known play
    /// acts as `play`, a known discard as `discard`, a hint spends a clue, an
    /// unknown play changes nothing, and an unknown discard only refunds a
    /// clue.
    pub fn apply_action(&mut self, action: Action)
        requires
            old(self).wf(),
            action matches Action::Play { card: Option::Some(c), .. } ==> old(self).strikes < 3
                && old(self).discard_pile.mult_spec(c) <= 2,
            action matches Action::Discard { card: Option::Some(c), .. } ==> old(self).clues < old(
                self,
            ).rules.max_clues && old(self).discard_pile.mult_spec(c) <= 2,
            action matches Action::Hint { .. } ==> old(self).clues != 0,
        ensures
            final(self).wf(),
            final(self).rules == old(self).rules,
            final(self).strikes >= old(self).strikes,
            action matches Action::Play { card: Option::Some(c), .. } ==> {
                &&& (old(self).firework.playable_spec(c) ==> {
                    &&& final(self).firework.top_spec(c.color) == c.number.rank_spec()
                    &&& (forall|col: crate::card::Color|
                        col != c.color ==> #[trigger] final(self).firework.top_spec(col) == old(
                            self,
                        ).firework.top_spec(col))
                    &&& final(self).discard_pile == old(self).discard_pile
                    &&& final(self).strikes == old(self).strikes
                    &&& final(self).clues == (if c.number == Number::Five && old(self).clues < old(
                        self,
                    ).rules.max_clues {
                        old(self).clues + 1
                    } else {
                        old(self).clues as int
                    })
                })
                &&& (!old(self).firework.playable_spec(c) ==> {
                    &&& final(self).firework == old(self).firework
                    &&& final(self).strikes == old(self).strikes + 1
                    &&& final(self).clues == old(self).clues
                    &&& final(self).discard_pile.mult_spec(c) == old(
                        self,
                    ).discard_pile.mult_spec(c) + 1
                    &&& (forall|c2: Card|
                        c2 != c ==> #[trigger] final(self).discard_pile.mult_spec(c2) == old(
                            self,
                        ).discard_pile.mult_spec(c2))
                })
            },
            action matches Action::Discard { card: Option::Some(c), .. } ==> {
                &&& final(self).clues == old(self).clues + 1
                &&& final(self).discard_pile.mult_spec(c) == old(self).discard_pile.mult_spec(c)
                    + 1
                &&& (forall|c2: Card|
                    c2 != c ==> #[trigger] final(self).discard_pile.mult_spec(c2) == old(
                        self,
                    ).discard_pile.mult_spec(c2))
                &&& final(self).firework == old(self).firework
                &&& final(self).strikes == old(self).strikes
            },
            action matches Action::Hint { .. } ==> final(self).clues == old(self).clues - 1
                && final(self).firework == old(self).firework && final(self).discard_pile == old(
                self,
            ).discard_pile && final(self).strikes == old(self).strikes,
            action matches Action::Play { card: Option::None, .. } ==> *final(self) == *old(self),
            action matches Action::Discard { card: Option::None, .. } ==> {
                &&& final(self).clues == (if old(self).clues < old(self).rules.max_clues {
                    old(self).clues + 1
                } else {
                    old(self).clues as int
                })
                &&& final(self).firework == old(self).firework
                &&& final(self).discard_pile == old(self).discard_pile
                &&& final(self).strikes == old(self).strikes
            },
    {
        match action {
            Action::Play { card: Option::Some(card), .. } => self.play(card),
            Action::Discard { card: Option::Some(card), .. } => self.discard(card),
            Action::Hint { .. } => self.hint(),
            Action::Play { card: Option::None, .. } => {},
            Action::Discard { card: Option::None, .. } => {
                self.add_clue();
            },
        }
    }

    /// The identities worth saving by convention right now.
    pub fn critical_saves(&self) -> (r: CardSet)
        requires
            self.wf(),
        ensures
            r.inv(),
            forall|c: Card| #[trigger] r.contains_spec(c) == self.critical_save_spec(c),
    {
        let mut result = CardSet::none();
        let colors = self.rules.used_colors();
        let mut i: usize = 0;
        while i < colors.len()
            invariant
                self.wf(),
                result.inv(),
                colors@ =~= seq![
                    crate::card::Color::Red,
                    crate::card::Color::Blue,
                    crate::card::Color::Green,
                    crate::card::Color::Yellow,
                    crate::card::Color::White,
                ],
                i <= 5,
                forall|c: Card|
                    #[trigger] result.contains_spec(c) == ((exists|j: int|
                        0 <= j < i && colors@[j] == c.color) && self.critical_save_spec(c)),
            decreases colors.len() - i,
        {
            let color = colors[i];
            let ghost pre = result;
            let mut rank: u32 = 2;
            while rank <= 4
                invariant
                    self.wf(),
                    result.inv(),
                    2 <= rank <= 5,
                    forall|c: Card|
                        #[trigger] result.contains_spec(c) == (pre.contains_spec(c) || (c.color
                            == color && c.number.rank_spec() < rank
                            && self.critical_save_spec(c))),
                decreases 5 - rank,
            {
                let card = crate::card::card_of(color, rank);
                if self.discard_pile.contains(card) && self.firework.top_of(color) <= (rank
                    - 2) as u64 {
                    result.add(card);
                }
                proof {
                    assert forall|c: Card|
                        #[trigger] result.contains_spec(c) == (pre.contains_spec(c) || (c.color
                            == color && c.number.rank_spec() < rank + 1
                            && self.critical_save_spec(c))) by {
                        if c.color == color && c.number.rank_spec() == rank {
                            assert(c == card);
                        }
                    }
                }
                rank = rank + 1;
            }
            i = i + 1;
            proof {
                assert forall|c: Card|
                    #[trigger] result.contains_spec(c) == ((exists|j: int|
                        0 <= j < i && colors@[j] == c.color) && self.critical_save_spec(c)) by {
                    if c.color == color {
                        assert(colors@[i - 1] == c.color);
                    } else {
                        assert(forall|j: int|
                            0 <= j < i && colors@[j] == c.color <==> 0 <= j < i - 1 && colors@[j]
                                == c.color);
                    }
                }
            }
        }
        proof {
            assert forall|c: Card|
                #[trigger] result.contains_spec(c) == self.critical_save_spec(c) by {
                if c.color == crate::card::Color::Red {
                    assert(colors@[0] == c.color);
                } else if c.color == crate::card::Color::Blue {
                    assert(colors@[1] == c.color);
                } else if c.color == crate::card::Color::Green {
                    assert(colors@[2] == c.color);
                } else if c.color == crate::card::Color::Yellow {
                    assert(colors@[3] == c.color);
                } else {
                    assert(colors@[4] == c.color);
                }
                assert(exists|j: int| 0 <= j < 5 && colors@[j] == c.color);
            }
        }
        result
    }

    /// Identities that are safe to discard whatever the card turns out to be:
    /// already played, or permanently out of reach.
    pub fn definite_trash(&self) -> (r: CardSet)
        requires
            self.wf(),
        ensures
            r.inv(),
            forall|c: Card|
                #[trigger] r.contains_spec(c) == (c.number.rank_spec()
                    <= self.firework.top_spec(c.color) || unreachable_spec(self.discard_pile, c)),
    {
        let mut result = self.firework.already_played();
        result.merge(&self.discard_pile.unreachable(&self.rules));
        result
    }
}

impl Clone for PublicState {
    /// The copy carries the same public information.
    fn clone(&self) -> (r: Self)
        ensures
            forall|col: crate::card::Color|
                #[trigger] r.firework.top_spec(col) == self.firework.top_spec(col),
            r.discard_pile == self.discard_pile,
            r.rules == self.rules,
            r.clues == self.clues,
            r.strikes == self.strikes,
            self.wf() ==> r.wf(),
    {
        PublicState {
            firework: self.firework.clone(),
            discard_pile: self.discard_pile,
            rules: self.rules,
            clues: self.clues,
            strikes: self.strikes,
        }
    }
}

/// Law: with nothing discarded, nothing is out of reach.
pub proof fn lemma_unreachable_empty_pile(pile: CardPile)
    requires
        forall|c: Card| #[trigger] pile.mult_spec(c) == 0,
    ensures
        forall|c: Card| !unreachable_spec(pile, c),
{
    assert forall|c: Card| !unreachable_spec(pile, c) by {
        assert forall|rr: int| 1 <= rr <= c.number.rank_spec() implies !(pile.mult_spec(
            Card { number: number_of_rank_spec(rr), color: c.color },
        ) >= number_of_rank_spec(rr).copies_spec()) by {
            assert(pile.mult_spec(Card { number: number_of_rank_spec(rr), color: c.color })
                == 0);
            assert(number_of_rank_spec(rr).copies_spec() >= 1);
        }
    }
}

/// Law: once every copy of a color's rank one is discarded, every identity
/// of that color is out of reach.
pub proof fn lemma_unreachable_after_ones_gone(pile: CardPile, color: crate::card::Color)
    requires
        pile.mult_spec(Card { number: Number::One, color }) >= 3,
    ensures
        forall|c: Card| c.color == color ==> unreachable_spec(pile, c),
{
    assert forall|c: Card| c.color == color implies unreachable_spec(pile, c) by {
        assert(number_of_rank_spec(1) == Number::One);
        assert(1 <= 1 <= c.number.rank_spec());
        assert(pile.mult_spec(Card { number: number_of_rank_spec(1), color: c.color })
            >= number_of_rank_spec(1).copies_spec());
    }
}

} // verus!
