//! The discard pile: how many physical copies of each identity were discarded.

use vstd::prelude::*;

use crate::card::{Card, Number};
use crate::card_set::CardSet;
use crate::rules::Rules;

verus! {

/// Tracks per identity how many of its physical copies have been discarded,
/// bucketed as "at least one", "at least two", "at least three".
#[derive(Clone, Copy)]
pub struct CardPile {
    at_least_one: CardSet,
    at_least_two: CardSet,
    at_least_three: CardSet,
}

impl CardPile {
    /// How many copies of `c` were discarded so far.
    pub closed spec fn mult_spec(self, c: Card) -> int {
        (if self.at_least_one.contains_spec(c) {
            1int
        } else {
            0int
        }) + (if self.at_least_two.contains_spec(c) {
            1int
        } else {
            0int
        }) + (if self.at_least_three.contains_spec(c) {
            1int
        } else {
            0int
        })
    }

    /// The buckets are nested and hold no stray bits.
    pub closed spec fn wf(self) -> bool {
        &&& self.at_least_one.inv()
        &&& self.at_least_two.inv()
        &&& self.at_least_three.inv()
        &&& forall|c: Card|
            #[trigger] self.at_least_three.contains_spec(c) ==> self.at_least_two.contains_spec(c)
        &&& forall|c: Card|
            #[trigger] self.at_least_two.contains_spec(c) ==> self.at_least_one.contains_spec(c)
    }

    /// Law: a discard count is never negative and never exceeds three.
    pub proof fn lemma_mult_bounds(self, c: Card)
        ensures
            0 <= self.mult_spec(c) <= 3,
    {
    }

    /// Whether at least one copy of `card` was discarded.
    pub fn contains(&self, card: Card) -> (r: bool)
        requires
            self.wf(),
        ensures
            r == (self.mult_spec(card) >= 1),
    {
        self.at_least_one.contains(card)
    }

    /// The empty pile.
    pub fn new() -> (r: Self)
        ensures
            r.wf(),
            forall|c: Card| #[trigger] r.mult_spec(c) == 0,
    {
        CardPile {
            at_least_one: CardSet::none(),
            at_least_two: CardSet::none(),
            at_least_three: CardSet::none(),
        }
    }

    /// Record one more discarded copy of `card`.
    pub fn add(&mut self, card: &Card)
        requires
            old(self).wf(),
            old(self).mult_spec(*card) <= 2,
        ensures
            final(self).wf(),
            final(self).mult_spec(*card) == old(self).mult_spec(*card) + 1,
            forall|c: Card|
                c != *card ==> #[trigger] final(self).mult_spec(c) == old(self).mult_spec(c),
    {
        if self.at_least_one.add(*card) {
        } else if self.at_least_two.add(*card) {
        } else {
            let was_new = self.at_least_three.add(*card);
            proof {
                assert(was_new);
            }
        }
    }

    /// Whether the pile has room for one more copy of `card`.
    pub fn can_take_another(&self, card: &Card) -> (r: bool)
        requires
            self.wf(),
        ensures
            r == (self.mult_spec(*card) <= 2),
    {
        !self.at_least_three.contains(*card)
    }

    /// Record one more discarded copy unless every copy is already here;
    /// reports whether the copy was recorded.
    pub fn add_capped(&mut self, card: &Card) -> (r: bool)
        requires
            old(self).wf(),
        ensures
            final(self).wf(),
            r == (old(self).mult_spec(*card) <= 2),
            r ==> final(self).mult_spec(*card) == old(self).mult_spec(*card) + 1,
            !r ==> *final(self) == *old(self),
            forall|c: Card|
                c != *card ==> #[trigger] final(self).mult_spec(c) == old(self).mult_spec(c),
    {
        if self.at_least_three.contains(*card) {
            false
        } else {
            self.add(card);
            true
        }
    }

    /// The identities of which every physical copy is already discarded, or
    /// which can never be played because some lower rank of their color is.
    pub fn unreachable(&self, rules: &Rules) -> (r: CardSet)
        requires
            self.wf(),
    ensures
            r.inv(),
            forall|c: Card|
                #[trigger] r.contains_spec(c) == exists|rr: int|
                    1 <= rr <= c.number.rank_spec() && self.mult_spec(
                        Card { number: crate::card::number_of_rank_spec(rr), color: c.color },
                    ) >= crate::card::number_of_rank_spec(rr).copies_spec(),
    {
        let mut result = CardSet::all();
        let colors = rules.used_colors();
        let mut ci: usize = 0;
        while ci < colors.len()
            invariant
                self.wf(),
                result.inv(),
                colors@ =~= seq![
                    crate::card::Color::Red,
                    crate::card::Color::Blue,
                    crate::card::Color::Green,
                    crate::card::Color::Yellow,
                    crate::card::Color::White,
                ],
                ci <= 5,
                forall|c: Card|
                    #[trigger] result.contains_spec(c) == !((exists|j: int|
                        0 <= j < ci && colors@[j] == c.color) && !(exists|rr: int|
                        1 <= rr <= c.number.rank_spec() && self.mult_spec(
                            Card {
                                number: crate::card::number_of_rank_spec(rr),
                                color: c.color,
                            },
                        ) >= crate::card::number_of_rank_spec(rr).copies_spec())),
            decreases colors.len() - ci,
        {
            let color = colors[ci];
            let ghost pre = result;
            let mut rank: u32 = 1;
            let mut blocked = false;
            while rank <= 5
                invariant
                    self.wf(),
                    result.inv(),
                    1 <= rank <= 6,
                    blocked == exists|rr: int|
                        1 <= rr < rank && self.mult_spec(
                            Card { number: crate::card::number_of_rank_spec(rr), color },
                        ) >= crate::card::number_of_rank_spec(rr).copies_spec(),
                    forall|c: Card|
                        c.color != color ==> #[trigger] result.contains_spec(c)
                            == pre.contains_spec(c),
                    forall|c: Card|
                        c.color == color && c.number.rank_spec() >= rank
                            ==> #[trigger] result.contains_spec(c) == pre.contains_spec(c),
                    forall|c: Card|
                        c.color == color && c.number.rank_spec() < rank
                            ==> #[trigger] result.contains_spec(c) == (pre.contains_spec(c)
                            && exists|rr: int|
                            1 <= rr <= c.number.rank_spec() && self.mult_spec(
                                Card { number: crate::card::number_of_rank_spec(rr), color },
                            ) >= crate::card::number_of_rank_spec(rr).copies_spec()),
                decreases 6 - rank,
            {
                let number = Number::of_rank(rank);
                let card = Card { number, color };
                proof {
                    assert(crate::card::number_of_rank_spec(rank as int) == number);
                }
                if !blocked {
                    let full = if rank == 1 {
                        self.at_least_three.contains(card)
                    } else if rank == 5 {
                        self.at_least_one.contains(card)
                    } else {
                        self.at_least_two.contains(card)
                    };
                    proof {
                        assert(full == (self.mult_spec(card) >= number.copies_spec()));
                    }
                    if full {
                        blocked = true;
                    } else {
                        result.remove(card);
                    }
                } else {
                }
                proof {
                    assert forall|c: Card|
                        c.color == color && c.number.rank_spec() < rank + 1
                            implies #[trigger] result.contains_spec(c) == (pre.contains_spec(c)
                            && exists|rr: int|
                            1 <= rr <= c.number.rank_spec() && self.mult_spec(
                                Card { number: crate::card::number_of_rank_spec(rr), color },
                            ) >= crate::card::number_of_rank_spec(rr).copies_spec()) by {
                        if c.number.rank_spec() == rank {
                            assert(c == card);
                        }
                    }
                }
                rank = rank + 1;
            }
            ci = ci + 1;
            proof {
                assert forall|c: Card|
                    #[trigger] result.contains_spec(c) == !((exists|j: int|
                        0 <= j < ci && colors@[j] == c.color) && !(exists|rr: int|
                        1 <= rr <= c.number.rank_spec() && self.mult_spec(
                            Card {
                                number: crate::card::number_of_rank_spec(rr),
                                color: c.color,
                            },
                        ) >= crate::card::number_of_rank_spec(rr).copies_spec())) by {
                    if c.color == color {
                        assert(colors@[ci - 1] == c.color);
                        assert(1 <= c.number.rank_spec() <= 5);
                    } else {
                        assert(forall|j: int|
                            0 <= j < ci && colors@[j] == c.color <==> 0 <= j < ci - 1 && colors@[j]
                                == c.color);
                    }
                }
            }
        }
        proof {
            assert forall|c: Card|
                #[trigger] result.contains_spec(c) == exists|rr: int|
                    1 <= rr <= c.number.rank_spec() && self.mult_spec(
                        Card { number: crate::card::number_of_rank_spec(rr), color: c.color },
                    ) >= crate::card::number_of_rank_spec(rr).copies_spec() by {
                if c.color == crate::card::Color::Red {
                    assert(colors@[0] == c.color);
                } else if c.color == crate::card::Color::Blue {
                    assert(colors@[1] == c.color);
                } else if c.color == crate::card::Color::Green {
                    assert(colors@[2] == c.color);
                } else if c.color == crate::card::Color::Yellow {
                    assert(colors@[3] == c.color);
                } else {
                    assert(colors@[4] == c.color);
                }
                assert(exists|j: int| 0 <= j < 5 && colors@[j] == c.color);
            }
        }
        result
    }

    /// The identities of which every physical copy is accounted for here.
    pub fn full_sets(&self) -> (r: CardSet)
        requires
            self.wf(),
        ensures
            r.inv(),
            forall|c: Card|
                #[trigger] r.contains_spec(c) == (self.mult_spec(c)
                    >= c.number.copies_spec()),
    {
        let mut result = CardSet::none();

        let mut ones = CardSet::with_property(crate::card::Property::Number(Number::One));
        let mut twos = CardSet::with_property(crate::card::Property::Number(Number::Two));
        let mut threes = CardSet::with_property(crate::card::Property::Number(Number::Three));
        let mut fours = CardSet::with_property(crate::card::Property::Number(Number::Four));
        let mut fives = CardSet::with_property(crate::card::Property::Number(Number::Five));

        ones.intersect(&self.at_least_three);
        twos.intersect(&self.at_least_two);
        threes.intersect(&self.at_least_two);
        fours.intersect(&self.at_least_two);
        fives.intersect(&self.at_least_one);

        result.merge(&ones);
        result.merge(&twos);
        result.merge(&threes);
        result.merge(&fours);
        result.merge(&fives);

        result
    }
}

} // verus!
