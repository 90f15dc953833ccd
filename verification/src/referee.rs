//! The referee: the true hands and deck, action legality, and the game loop.

use vstd::prelude::*;

use crate::action::Action;
use crate::card::{Card, Property};
use crate::card_pile::CardPile;
use crate::deck::{valid_deck_cards, Deck};
use crate::firework::Firework;
use crate::player::{Player, PositionSet};
use crate::rules::{count_cards, RuleViolation, Rules};

verus! {

/// One card as the referee sees it, with the positive and negative hint
/// properties it has received.
pub type CluedCard = (Card, Vec<Property>, Vec<Property>);

/// How often identity `c` occurs in a hand's cards.
pub open spec fn count_hand(s: Seq<CluedCard>, c: Card) -> int
    decreases s.len(),
{
    if s.len() == 0 {
        0
    } else {
        count_hand(s.drop_last(), c) + (if s.last().0 == c {
            1int
        } else {
            0int
        })
    }
}

proof fn lemma_count_hand_nonneg(s: Seq<CluedCard>, c: Card)
    ensures
        0 <= count_hand(s, c) <= s.len(),
    decreases s.len(),
{
    if s.len() > 0 {
        lemma_count_hand_nonneg(s.drop_last(), c);
    }
}

proof fn lemma_count_hand_concat(a: Seq<CluedCard>, b: Seq<CluedCard>, c: Card)
    ensures
        count_hand(a + b, c) == count_hand(a, c) + count_hand(b, c),
    decreases b.len(),
{
    if b.len() == 0 {
        assert(a + b =~= a);
    } else {
        lemma_count_hand_concat(a, b.drop_last(), c);
        assert((a + b).drop_last() =~= a + b.drop_last());
        assert((a + b).last() == b.last());
    }
}

proof fn lemma_count_hand_remove(s: Seq<CluedCard>, i: int, c: Card)
    requires
        0 <= i < s.len(),
    ensures
        count_hand(s.remove(i), c) == count_hand(s, c) - (if s[i].0 == c {
            1int
        } else {
            0int
        }),
{
    let left = s.subrange(0, i);
    let mid = seq![s[i]];
    let right = s.subrange(i + 1, s.len() as int);
    assert(s =~= left + mid + right);
    assert(s.remove(i) =~= left + right);
    lemma_count_hand_concat(left + mid, right, c);
    lemma_count_hand_concat(left, mid, c);
    lemma_count_hand_concat(left, right, c);
    assert(count_hand(mid, c) == (if s[i].0 == c {
        1int
    } else {
        0int
    })) by {
        assert(mid.len() == 1);
        assert(mid.last() == s[i]);
        assert(mid.drop_last() =~= Seq::<CluedCard>::empty());
        assert(count_hand(Seq::<CluedCard>::empty(), c) == 0);
    }
}

proof fn lemma_count_hand_insert0(s: Seq<CluedCard>, x: CluedCard, c: Card)
    ensures
        count_hand(s.insert(0, x), c) == count_hand(s, c) + (if x.0 == c {
            1int
        } else {
            0int
        }),
{
    let mid = seq![x];
    assert(s.insert(0, x) =~= mid + s);
    lemma_count_hand_concat(mid, s, c);
    assert(count_hand(mid, c) == (if x.0 == c {
        1int
    } else {
        0int
    })) by {
        assert(mid.len() == 1);
        assert(mid.last() == x);
        assert(mid.drop_last() =~= Seq::<CluedCard>::empty());
        assert(count_hand(Seq::<CluedCard>::empty(), c) == 0);
    }
}

proof fn lemma_count_hand_pointwise(s1: Seq<CluedCard>, s2: Seq<CluedCard>, c: Card)
    requires
        s1.len() == s2.len(),
        forall|i: int| 0 <= i < s1.len() ==> (#[trigger] s1[i]).0 == s2[i].0,
    ensures
        count_hand(s1, c) == count_hand(s2, c),
    decreases s1.len(),
{
    if s1.len() > 0 {
        lemma_count_hand_pointwise(s1.drop_last(), s2.drop_last(), c);
    }
}

/// A hand as the referee sees it.
pub struct Hand {
    pub clued_cards: Vec<CluedCard>,
    pub max_size: usize,
}

impl Hand {
    /// An empty hand that can hold `max_size` cards.
    pub fn new(max_size: usize) -> (r: Self)
        ensures
            r.clued_cards@.len() == 0,
            r.max_size == max_size,
    {
        Self { clued_cards: Vec::new(), max_size }
    }

    /// A newly drawn card enters at position 1.
    fn draw(&mut self, card: Card)
        requires
            old(self).clued_cards@.len() < old(self).max_size,
        ensures
            final(self).clued_cards@.len() == old(self).clued_cards@.len() + 1,
            (final(self).clued_cards@[0]).0 == card,
            (final(self).clued_cards@[0]).1@ =~= Seq::<Property>::empty(),
            (final(self).clued_cards@[0]).2@ =~= Seq::<Property>::empty(),
            forall|i: int|
                1 <= i < final(self).clued_cards@.len()
                    ==> #[trigger] final(self).clued_cards@[i] == old(self).clued_cards@[i - 1],
            final(self).max_size == old(self).max_size,
            forall|c: Card|
                #[trigger] count_hand(final(self).clued_cards@, c) == count_hand(
                    old(self).clued_cards@,
                    c,
                ) + (if card == c {
                    1int
                } else {
                    0int
                }),
    {
        self.clued_cards.insert(0, (card, Vec::new(), Vec::new()));
        proof {
            let x = self.clued_cards@[0];
            assert(self.clued_cards@ =~= old(self).clued_cards@.insert(0, x));
            assert forall|c: Card|
                #[trigger] count_hand(self.clued_cards@, c) == count_hand(
                    old(self).clued_cards@,
                    c,
                ) + (if card == c {
                    1int
                } else {
                    0int
                }) by {
                lemma_count_hand_insert0(old(self).clued_cards@, x, c);
            }
        }
    }

    /// Take the card at a 1-based position out; later cards shift down.
    fn remove(&mut self, position: usize) -> (r: Result<Card, RuleViolation>)
        ensures
            (position == 0 || position > old(self).clued_cards@.len()) <==> r == Result::<
                Card,
                RuleViolation,
            >::Err(RuleViolation::InvalidCardPosition),
            r matches Result::Err(e) ==> e == RuleViolation::InvalidCardPosition && *final(self)
                == *old(self),
            r matches Result::Ok(c) ==> {
                &&& c == old(self).clued_cards@[position - 1].0
                &&& final(self).clued_cards@ =~= old(self).clued_cards@.remove(position - 1)
                &&& final(self).max_size == old(self).max_size
                &&& forall|c2: Card|
                    #[trigger] count_hand(final(self).clued_cards@, c2) == count_hand(
                        old(self).clued_cards@,
                        c2,
                    ) - (if c == c2 {
                        1int
                    } else {
                        0int
                    })
            },
    {
        if position == 0 || position > self.clued_cards.len() {
            return Result::Err(RuleViolation::InvalidCardPosition);
        }
        let internal_index = position - 1;
        let removed = self.clued_cards.remove(internal_index);
        proof {
            assert forall|c2: Card|
                #[trigger] count_hand(self.clued_cards@, c2) == count_hand(
                    old(self).clued_cards@,
                    c2,
                ) - (if removed.0 == c2 {
                    1int
                } else {
                    0int
                }) by {
                lemma_count_hand_remove(old(self).clued_cards@, internal_index as int, c2);
            }
        }
        Result::Ok(removed.0)
    }

    /// Check a hint against the true hand: accepted iff `positions` names
    /// exactly the cards that satisfy the property. On success the property
    /// is appended to each matching card's positive log and to each other
    /// card's negative log; a rejected hint leaves the hand untouched.
    fn give_hint(&mut self, hinted_property: Property, positions: PositionSet) -> (r: Result<
        (),
        RuleViolation,
    >)
        requires
            old(self).clued_cards@.len() <= 5,
        ensures
            r is Ok <==> forall|i: int|
                0 <= i < old(self).clued_cards@.len()
                    ==> (#[trigger] old(self).clued_cards@[i]).0.satisfies_spec(hinted_property)
                    == positions.contains_spec(i + 1),
            r matches Result::Err(e) ==> e == RuleViolation::IncorrectHint && *final(self) == *old(
                self,
            ),
            final(self).clued_cards@.len() == old(self).clued_cards@.len(),
            final(self).max_size == old(self).max_size,
            forall|i: int|
                0 <= i < old(self).clued_cards@.len()
                    ==> (#[trigger] final(self).clued_cards@[i]).0 == old(
                    self,
                ).clued_cards@[i].0,
            r is Ok ==> forall|i: int|
                0 <= i < old(self).clued_cards@.len() ==> {
                    let pre = (#[trigger] old(self).clued_cards@[i]);
                    let post = final(self).clued_cards@[i];
                    if pre.0.satisfies_spec(hinted_property) {
                        post.1@ == pre.1@.push(hinted_property) && post.2@ == pre.2@
                    } else {
                        post.1@ == pre.1@ && post.2@ == pre.2@.push(hinted_property)
                    }
                },
            forall|c: Card|
                #[trigger] count_hand(final(self).clued_cards@, c) == count_hand(
                    old(self).clued_cards@,
                    c,
                ),
    {
        let ghost pre = self.clued_cards@;
        let n = self.clued_cards.len();
        let mut ii: usize = 0;
        while ii < n
            invariant
                *self == *old(self),
                pre == old(self).clued_cards@,
                n == pre.len(),
                n <= 5,
                ii <= n,
                forall|i: int|
                    0 <= i < ii ==> (#[trigger] pre[i]).0.satisfies_spec(hinted_property)
                        == positions.contains_spec(i + 1),
            decreases n - ii,
        {
            let i = ii + 1;
            let entry = &self.clued_cards[ii];
            let satisfied = entry.0.satisfies(hinted_property);
            if satisfied != positions.contains(i) {
                proof {
                    assert(!((pre[ii as int]).0.satisfies_spec(hinted_property)
                        == positions.contains_spec(ii + 1)));
                }
                return Result::Err(RuleViolation::IncorrectHint);
            }
            ii = ii + 1;
        }
        let mut jj: usize = 0;
        while jj < n
            invariant
                pre == old(self).clued_cards@,
                self.max_size == old(self).max_size,
                n == self.clued_cards@.len(),
                n == pre.len(),
                n <= 5,
                jj <= n,
                forall|i: int| 0 <= i < n ==> (#[trigger] self.clued_cards@[i]).0 == pre[i].0,
                forall|i: int| jj <= i < n ==> (#[trigger] self.clued_cards@[i]) == pre[i],
                forall|i: int|
                    0 <= i < jj ==> {
                        let post = (#[trigger] self.clued_cards@[i]);
                        if pre[i].0.satisfies_spec(hinted_property) {
                            post.1@ == pre[i].1@.push(hinted_property) && post.2@ == pre[i].2@
                        } else {
                            post.1@ == pre[i].1@ && post.2@ == pre[i].2@.push(hinted_property)
                        }
                    },
            decreases n - jj,
        {
            let entry = &self.clued_cards[jj];
            let satisfied = entry.0.satisfies(hinted_property);
            let entry = &mut self.clued_cards[jj];
            if satisfied {
                entry.1.push(hinted_property);
            } else {
                entry.2.push(hinted_property);
            }
            jj = jj + 1;
        }
        proof {
            lemma_count_hand_pointwise_all(pre, self.clued_cards@);
        }
        Result::Ok(())
    }
}

/// Cards in two pointwise-equal hands are counted equally.
proof fn lemma_count_hand_pointwise_all(s1: Seq<CluedCard>, s2: Seq<CluedCard>)
    requires
        s1.len() == s2.len(),
        forall|i: int| 0 <= i < s2.len() ==> (#[trigger] s2[i]).0 == s1[i].0,
    ensures
        forall|c: Card| #[trigger] count_hand(s2, c) == count_hand(s1, c),
{
    assert forall|c: Card| #[trigger] count_hand(s2, c) == count_hand(s1, c) by {
        lemma_count_hand_pointwise(s2, s1, c);
    }
}

/// The total number of cards the hands hold.
pub open spec fn hand_sizes(hands: Seq<Hand>) -> int
    decreases hands.len(),
{
    if hands.len() == 0 {
        0
    } else {
        hand_sizes(hands.drop_last()) + hands.last().clued_cards@.len()
    }
}

proof fn lemma_hand_sizes_update(hands: Seq<Hand>, j: int, h2: Hand)
    requires
        0 <= j < hands.len(),
    ensures
        hand_sizes(hands.update(j, h2)) == hand_sizes(hands) - hands[j].clued_cards@.len()
            + h2.clued_cards@.len(),
    decreases hands.len(),
{
    if hands.len() > 0 {
        if j == hands.len() - 1 {
            assert(hands.update(j, h2).drop_last() =~= hands.drop_last());
        } else {
            assert(hands.update(j, h2).drop_last() =~= hands.drop_last().update(j, h2));
            lemma_hand_sizes_update(hands.drop_last(), j, h2);
        }
    }
}

/// How often identity `c` occurs across all hands.
pub open spec fn hands_count(hands: Seq<Hand>, c: Card) -> int
    decreases hands.len(),
{
    if hands.len() == 0 {
        0
    } else {
        hands_count(hands.drop_last(), c) + count_hand(hands.last().clued_cards@, c)
    }
}

proof fn lemma_hands_count_nonneg(hands: Seq<Hand>, c: Card)
    ensures
        0 <= hands_count(hands, c),
    decreases hands.len(),
{
    if hands.len() > 0 {
        lemma_hands_count_nonneg(hands.drop_last(), c);
        lemma_count_hand_nonneg(hands.last().clued_cards@, c);
    }
}

proof fn lemma_hands_count_update(hands: Seq<Hand>, j: int, h2: Hand, c: Card)
    requires
        0 <= j < hands.len(),
    ensures
        hands_count(hands.update(j, h2), c) == hands_count(hands, c) - count_hand(
            hands[j].clued_cards@,
            c,
        ) + count_hand(h2.clued_cards@, c),
    decreases hands.len(),
{
    if hands.len() > 0 {
        if j == hands.len() - 1 {
            assert(hands.update(j, h2).drop_last() =~= hands.drop_last());
        } else {
            assert(hands.update(j, h2).drop_last() =~= hands.drop_last().update(j, h2));
            lemma_hands_count_update(hands.drop_last(), j, h2, c);
        }
    }
}

/// 1 when the identity already lies on its pile, else 0.
pub open spec fn played_ind(firework: Firework, c: Card) -> int {
    if c.number.rank_spec() <= firework.top_spec(c.color) {
        1
    } else {
        0
    }
}

/// The full truth of a running game, owned by the referee alone.
pub struct State {
    pub deck: Deck,
    pub active_player_id: usize,
    pub remaining_hints: usize,
    pub strikes: usize,
    pub firework: Firework,
    pub number_of_players: usize,
    pub number_of_actions_with_empty_deck: usize,
    pub hands: Vec<Hand>,
    pub discard: CardPile,
}

/// How often identity `c` occurs anywhere: deck, hands, discards, piles.
pub open spec fn total_parts(
    deck: Seq<Card>,
    hands: Seq<Hand>,
    discard: CardPile,
    firework: Firework,
    c: Card,
) -> int {
    count_cards(deck, c) + hands_count(hands, c) + discard.mult_spec(c) + played_ind(firework, c)
}

/// Conservation: no identity occurs more often than its physical copies.
pub open spec fn conserved_parts(
    deck: Seq<Card>,
    hands: Seq<Hand>,
    discard: CardPile,
    firework: Firework,
) -> bool {
    forall|c: Card|
        #[trigger] total_parts(deck, hands, discard, firework, c) <= c.number.copies_spec()
}

impl State {
    /// How often identity `c` occurs anywhere: deck, hands, discards, piles.
    #[verifier::inline]
    pub open spec fn total_count(self, c: Card) -> int {
        total_parts(self.deck.cards@, self.hands@, self.discard, self.firework, c)
    }

    /// Conservation: no identity occurs more often than its physical copies.
    #[verifier::inline]
    pub open spec fn conserved(self) -> bool {
        conserved_parts(self.deck.cards@, self.hands@, self.discard, self.firework)
    }

    /// The deck plus all hands.
    pub open spec fn cards_held(self) -> int {
        self.deck.cards@.len() + hand_sizes(self.hands@)
    }

    pub open spec fn wf(self, rules: Rules) -> bool {
        &&& rules.wf()
        &&& self.number_of_players == rules.number_of_players
        &&& self.hands@.len() == rules.number_of_players
        &&& forall|j: int|
            0 <= j < self.hands@.len() ==> (#[trigger] self.hands@[j]).max_size == rules.hand_size
                && self.hands@[j].clued_cards@.len() <= rules.hand_size
        &&& self.firework.wf()
        &&& self.discard.wf()
        &&& self.remaining_hints <= rules.max_clues
        &&& self.strikes <= 3
        &&& self.active_player_id < rules.number_of_players
        &&& self.number_of_actions_with_empty_deck <= self.number_of_players
        &&& self.conserved()
    }

    /// Whether and how the game has ended: `Some(None)` for a loss on
    /// strikes, `Some(Some(score))` for a finished game.
    pub open spec fn concluded_spec(self) -> Option<Option<usize>> {
        if self.strikes == 3 {
            Option::Some(Option::None)
        } else if self.number_of_actions_with_empty_deck == self.number_of_players || (
        forall|col: crate::card::Color| #[trigger] self.firework.top_spec(col) == 5) {
            Option::Some(Option::Some((self.firework.sum_tops(5)) as usize))
        } else {
            Option::None
        }
    }

    /// The table before any card is dealt.
    pub fn new(rules: &Rules, deck: Deck) -> (r: Self)
        requires
            rules.wf(),
            valid_deck_cards(deck.cards@),
        ensures
            r.wf(*rules),
            r.deck.cards@ == deck.cards@,
            r.active_player_id == 0,
            r.remaining_hints == rules.max_clues,
            r.strikes == 0,
            r.number_of_actions_with_empty_deck == 0,
            forall|j: int|
                0 <= j < r.hands@.len() ==> (#[trigger] r.hands@[j]).clued_cards@.len() == 0,
            forall|col: crate::card::Color| #[trigger] r.firework.top_spec(col) == 0,
            forall|c: Card| #[trigger] r.discard.mult_spec(c) == 0,
    {
        let firework = Firework::new(&rules.used_colors());
        let number_of_players = rules.number_of_players;
        let mut hands: Vec<Hand> = Vec::new();
        let mut j: usize = 0;
        while j < number_of_players
            invariant
                j <= number_of_players,
                hands@.len() == j,
                forall|k: int|
                    0 <= k < j ==> (#[trigger] hands@[k]).max_size == rules.hand_size
                        && hands@[k].clued_cards@.len() == 0,
            decreases number_of_players - j,
        {
            hands.push(Hand::new(rules.hand_size));
            j = j + 1;
        }
        let r = Self {
            deck,
            active_player_id: 0,
            remaining_hints: rules.max_clues,
            strikes: 0,
            firework,
            number_of_players,
            number_of_actions_with_empty_deck: 0,
            hands,
            discard: CardPile::new(),
        };
        proof {
            assert forall|c: Card| #[trigger] r.total_count(c) <= c.number.copies_spec() by {
                lemma_hands_count_empty(r.hands@, c);
            }
        }
        r
    }

    /// Move the top deck card, if any, into the active player's hand.
    pub fn draw(&mut self) -> (r: Option<Card>)
        requires
            old(self).active_player_id < old(self).hands@.len(),
            old(self).hands@[old(self).active_player_id as int].clued_cards@.len() < old(
                self,
            ).hands@[old(self).active_player_id as int].max_size,
        ensures
            old(self).deck.cards@.len() == 0 ==> {
                &&& r is None
                &&& final(self).deck.cards@ == old(self).deck.cards@
                &&& final(self).hands@ == old(self).hands@
                &&& forall|c: Card| #[trigger] final(self).total_count(c) == old(
                    self,
                ).total_count(c)
                &&& final(self).cards_held() == old(self).cards_held()
            },
            old(self).deck.cards@.len() > 0 ==> {
                &&& r == Option::Some(old(self).deck.cards@.last())
                &&& final(self).deck.cards@ == old(self).deck.cards@.drop_last()
                &&& final(self).hands@ =~= old(self).hands@.update(
                    old(self).active_player_id as int,
                    final(self).hands@[old(self).active_player_id as int],
                )
                &&& final(self).hands@.len() == old(self).hands@.len()
                &&& final(self).hands@[old(self).active_player_id as int].clued_cards@.len()
                    == old(self).hands@[old(self).active_player_id as int].clued_cards@.len() + 1
                &&& (final(self).hands@[old(self).active_player_id as int].clued_cards@[0]).0
                    == old(self).deck.cards@.last()
                &&& forall|i: int|
                    #![trigger final(self).hands@[old(self).active_player_id as int].clued_cards@[i]]
                    1 <= i < final(self).hands@[old(self).active_player_id as int].clued_cards@.len()
                        ==> final(self).hands@[old(self).active_player_id as int].clued_cards@[i]
                        == old(self).hands@[old(self).active_player_id as int].clued_cards@[i - 1]
                &&& final(self).hands@[old(self).active_player_id as int].max_size == old(
                    self,
                ).hands@[old(self).active_player_id as int].max_size
                &&& forall|j: int|
                    0 <= j < old(self).hands@.len() && j != old(self).active_player_id
                        ==> final(self).hands@[j] == #[trigger] old(self).hands@[j]
                &&& forall|c: Card| #[trigger] final(self).total_count(c) == old(
                    self,
                ).total_count(c)
                &&& final(self).cards_held() == old(self).cards_held()
            },
            final(self).active_player_id == old(self).active_player_id,
            final(self).remaining_hints == old(self).remaining_hints,
            final(self).strikes == old(self).strikes,
            final(self).firework == old(self).firework,
            final(self).discard == old(self).discard,
            final(self).number_of_players == old(self).number_of_players,
            final(self).number_of_actions_with_empty_deck == old(
                self,
            ).number_of_actions_with_empty_deck,
            old(self).conserved() ==> final(self).conserved(),
            final(self).cards_held() == old(self).cards_held(),
    {
        let new_card = match self.deck.draw() {
            Option::Some(c) => c,
            Option::None => {
                proof {
                    assert forall|c: Card| #[trigger] self.total_count(c) == old(
                        self,
                    ).total_count(c) by {
                        assert(self.total_count(c) == old(self).total_count(c));
                    }
                    if old(self).conserved() {
                        assert(self.conserved());
                    }
                }
                return Option::None;
            },
        };
        let ghost pre_hands = self.hands@;
        let ghost ap = self.active_player_id as int;
        let hand = &mut self.hands[self.active_player_id];
        hand.draw(new_card);
        proof {
            assert(self.hands@ =~= pre_hands.update(ap, self.hands@[ap]));
            lemma_hand_sizes_update(pre_hands, ap, self.hands@[ap]);
            assert forall|c: Card| #[trigger] self.total_count(c) == old(self).total_count(
                c,
            ) by {
                lemma_hands_count_update(pre_hands, ap, self.hands@[ap], c);
                crate::rules::lemma_count_cards_push(self.deck.cards@, new_card, c);
                assert(self.deck.cards@.push(new_card) =~= old(self).deck.cards@);
            }
            if old(self).conserved() {
                assert(self.conserved());
            }
        }
        Option::Some(new_card)
    }

    /// Whether and how the game has ended.
    pub fn is_concluded(&self) -> (r: Option<Option<usize>>)
        requires
            self.firework.wf(),
        ensures
            r == self.concluded_spec(),
    {
        if self.strikes == 3 {
            Option::Some(Option::None)
        } else if self.number_of_actions_with_empty_deck == self.number_of_players
            || self.firework.is_complete() {
            Option::Some(Option::Some(self.firework.score()))
        } else {
            Option::None
        }
    }
}

impl State {
    /// The identity at a 1-based position of the active player's hand.
    pub open spec fn active_hand_card(self, position: int) -> Card {
        self.hands@[self.active_player_id as int].clued_cards@[position - 1].0
    }

    pub open spec fn active_hand_len(self) -> int {
        self.hands@[self.active_player_id as int].clued_cards@.len() as int
    }

    /// The fields an action never changes are kept.
    pub open spec fn frame_spec(self, pre: State) -> bool {
        &&& self.number_of_players == pre.number_of_players
        &&& self.active_player_id == pre.active_player_id
        &&& self.number_of_actions_with_empty_deck == pre.number_of_actions_with_empty_deck
    }

    /// The active player plays the card at `position`.
    fn apply_play(&mut self, position: usize, rules: &Rules) -> (r: Result<
        (Option<Card>, Option<Card>),
        RuleViolation,
    >)
        requires
            old(self).wf(*rules),
            old(self).strikes < 3,
        ensures
            final(self).wf(*rules),
            final(self).frame_spec(*old(self)),
            (position == 0 || position > old(self).active_hand_len()) <==> r == Result::<
                (Option<Card>, Option<Card>),
                RuleViolation,
            >::Err(RuleViolation::InvalidCardPosition),
            r is Ok ==> final(self).cards_held() == old(self).cards_held() - 1,
            r is Err ==> {
                &&& final(self).cards_held() == old(self).cards_held()
                &&& final(self).hands@ =~= old(self).hands@
                &&& final(self).remaining_hints == old(self).remaining_hints
                &&& final(self).strikes == old(self).strikes
                &&& final(self).firework == old(self).firework
                &&& final(self).discard == old(self).discard
                &&& final(self).deck == old(self).deck
            },
            1 <= position <= old(self).active_hand_len() ==> {
                let c = old(self).active_hand_card(position as int);
                &&& (r matches Result::Ok(pair) && pair.0 == Option::Some(c))
                &&& (old(self).firework.playable_spec(c) ==> {
                    &&& final(self).firework.top_spec(c.color) == c.number.rank_spec()
                    &&& (forall|col: crate::card::Color|
                        col != c.color ==> #[trigger] final(self).firework.top_spec(col) == old(
                            self,
                        ).firework.top_spec(col))
                    &&& final(self).strikes == old(self).strikes
                    &&& final(self).discard == old(self).discard
                    &&& final(self).remaining_hints == old(self).remaining_hints + (if c.number
                        == crate::card::Number::Five && old(self).remaining_hints
                        < rules.max_clues {
                        1int
                    } else {
                        0int
                    })
                })
                &&& (!old(self).firework.playable_spec(c) ==> {
                    &&& final(self).firework == old(self).firework
                    &&& final(self).strikes == old(self).strikes + 1
                    &&& final(self).discard.mult_spec(c) == old(self).discard.mult_spec(c) + 1
                    &&& (forall|c2: Card|
                        c2 != c ==> #[trigger] final(self).discard.mult_spec(c2) == old(
                            self,
                        ).discard.mult_spec(c2))
                    &&& final(self).remaining_hints == old(self).remaining_hints
                })
                &&& (old(self).deck.cards@.len() > 0 ==> (r matches Result::Ok(pair) && pair.1
                    == Option::Some(old(self).deck.cards@.last())) && final(self).deck.cards@
                    == old(self).deck.cards@.drop_last())
                &&& (old(self).deck.cards@.len() == 0 ==> (r matches Result::Ok(pair) && pair.1
                    is None) && final(self).deck.cards@ == old(self).deck.cards@)
            },
    {
        let ghost pre = *old(self);
        let ap = self.active_player_id;
        let ghost api = ap as int;
        let ghost hands0 = self.hands@;
        let card = match self.hands[ap].remove(position) {
            Result::Ok(c) => c,
            Result::Err(e) => {
                proof {
                    assert(self.hands@ =~= hands0.update(api, self.hands@[api]));
                    assert(self.hands@[api] == hands0[api]);
                    assert(self.hands@ =~= hands0);
                    assert forall|c2: Card| #[trigger] self.total_count(c2) == pre.total_count(
                        c2,
                    ) by {
                        assert(self.total_count(c2) == pre.total_count(c2));
                    }
                    assert(self.conserved());
                    assert(hand_sizes(self.hands@) == hand_sizes(pre.hands@));
                }
                return Result::Err(e);
            },
        };
        proof {
            lemma_after_removal(pre, *self, hands0, api, card);
        }
        let ghost mid = *self;
        if self.firework.add(card) {
            if matches!(card.number, crate::card::Number::Five) && self.remaining_hints
                < rules.max_clues {
                self.remaining_hints = self.remaining_hints + 1;
            }
            proof {
                lemma_conserved_after_play(mid, *self, card);
            }
        } else {
            self.strikes = self.strikes + 1;
            proof {
                lemma_mult_small(mid, card);
            }
            self.discard.add(&card);
            proof {
                assert forall|c2: Card| #[trigger] self.total_count(c2)
                    <= c2.number.copies_spec() by {
                    if c2 == card {
                        assert(self.total_count(c2) == mid.total_count(c2) + 1);
                        assert(mid.total_count(card) <= card.number.copies_spec() - 1);
                    } else {
                        assert(self.total_count(c2) == mid.total_count(c2));
                        assert(mid.total_count(c2) <= c2.number.copies_spec());
                    }
                }
                assert(self.conserved());
            }
        }
        let ghost before_draw = *self;
        let drawn = self.draw();
        proof {
            lemma_sizes_after_removal(pre, before_draw, hands0, api);
        }
        Result::Ok((Option::Some(card), drawn))
    }

    /// The active player discards the card at `position`.
    fn apply_discard(&mut self, position: usize, rules: &Rules) -> (r: Result<
        (Option<Card>, Option<Card>),
        RuleViolation,
    >)
        requires
            old(self).wf(*rules),
            old(self).remaining_hints < rules.max_clues,
        ensures
            final(self).wf(*rules),
            final(self).frame_spec(*old(self)),
            (position == 0 || position > old(self).active_hand_len()) <==> r == Result::<
                (Option<Card>, Option<Card>),
                RuleViolation,
            >::Err(RuleViolation::InvalidCardPosition),
            r is Ok ==> final(self).cards_held() == old(self).cards_held() - 1,
            r is Err ==> {
                &&& final(self).cards_held() == old(self).cards_held()
                &&& final(self).hands@ =~= old(self).hands@
                &&& final(self).remaining_hints == old(self).remaining_hints
                &&& final(self).strikes == old(self).strikes
                &&& final(self).firework == old(self).firework
                &&& final(self).discard == old(self).discard
                &&& final(self).deck == old(self).deck
            },
            1 <= position <= old(self).active_hand_len() ==> {
                let c = old(self).active_hand_card(position as int);
                &&& (r matches Result::Ok(pair) && pair.0 == Option::Some(c))
                &&& final(self).discard.mult_spec(c) == old(self).discard.mult_spec(c) + 1
                &&& (forall|c2: Card|
                    c2 != c ==> #[trigger] final(self).discard.mult_spec(c2) == old(
                        self,
                    ).discard.mult_spec(c2))
                &&& final(self).remaining_hints == old(self).remaining_hints + 1
                &&& final(self).strikes == old(self).strikes
                &&& final(self).firework == old(self).firework
                &&& (old(self).deck.cards@.len() > 0 ==> (r matches Result::Ok(pair) && pair.1
                    == Option::Some(old(self).deck.cards@.last())) && final(self).deck.cards@
                    == old(self).deck.cards@.drop_last())
                &&& (old(self).deck.cards@.len() == 0 ==> (r matches Result::Ok(pair) && pair.1
                    is None) && final(self).deck.cards@ == old(self).deck.cards@)
            },
    {
        let ghost pre = *old(self);
        let ap = self.active_player_id;
        let ghost api = ap as int;
        let ghost hands0 = self.hands@;
        let card = match self.hands[ap].remove(position) {
            Result::Ok(c) => c,
            Result::Err(e) => {
                proof {
                    assert(self.hands@ =~= hands0.update(api, self.hands@[api]));
                    assert(self.hands@[api] == hands0[api]);
                    assert(self.hands@ =~= hands0);
                    assert forall|c2: Card| #[trigger] self.total_count(c2) == pre.total_count(
                        c2,
                    ) by {
                        assert(self.total_count(c2) == pre.total_count(c2));
                    }
                    assert(self.conserved());
                    assert(hand_sizes(self.hands@) == hand_sizes(pre.hands@));
                }
                return Result::Err(e);
            },
        };
        proof {
            lemma_after_removal(pre, *self, hands0, api, card);
        }
        let ghost mid = *self;
        proof {
            lemma_mult_small(mid, card);
        }
        self.discard.add(&card);
        proof {
            assert forall|c2: Card| #[trigger] self.total_count(c2)
                <= c2.number.copies_spec() by {
                if c2 == card {
                    assert(self.total_count(c2) == mid.total_count(c2) + 1);
                    assert(mid.total_count(card) <= card.number.copies_spec() - 1);
                } else {
                    assert(self.total_count(c2) == mid.total_count(c2));
                    assert(mid.total_count(c2) <= c2.number.copies_spec());
                }
            }
            assert(self.conserved());
        }
        self.remaining_hints = self.remaining_hints + 1;
        let ghost before_draw = *self;
        let drawn = self.draw();
        proof {
            lemma_sizes_after_removal(pre, before_draw, hands0, api);
        }
        Result::Ok((Option::Some(card), drawn))
    }

    /// A hint to `receiver` is checked against the true hand.
    fn apply_hint(
        &mut self,
        receiver: usize,
        hinted_property: Property,
        positions: PositionSet,
        rules: &Rules,
    ) -> (r: Result<(Option<Card>, Option<Card>), RuleViolation>)
        requires
            old(self).wf(*rules),
            receiver != old(self).active_player_id,
            receiver < old(self).number_of_players,
            old(self).remaining_hints > 0,
            !positions.is_empty_spec(),
        ensures
            final(self).wf(*rules),
            final(self).frame_spec(*old(self)),
            final(self).cards_held() == old(self).cards_held(),
            r is Ok <==> forall|i: int|
                0 <= i < old(self).hands@[receiver as int].clued_cards@.len() ==> (#[trigger] old(
                    self,
                ).hands@[receiver as int].clued_cards@[i]).0.satisfies_spec(hinted_property)
                    == positions.contains_spec(i + 1),
            r is Err ==> r == Result::<
                (Option<Card>, Option<Card>),
                RuleViolation,
            >::Err(RuleViolation::IncorrectHint) && final(self).remaining_hints == old(
                self,
            ).remaining_hints && final(self).hands@ =~= old(self).hands@,
            r matches Result::Ok(pair) ==> pair == (Option::<Card>::None, Option::<Card>::None)
                && final(self).remaining_hints == old(self).remaining_hints - 1,
            final(self).firework == old(self).firework,
            final(self).discard == old(self).discard,
            final(self).strikes == old(self).strikes,
            final(self).deck == old(self).deck,
    {
        let ghost pre = *old(self);
        let ghost hands0 = self.hands@;
        let hint_result = self.hands[receiver].give_hint(hinted_property, positions);
        proof {
            assert(self.hands@ =~= hands0.update(receiver as int, self.hands@[receiver as int]));
            lemma_hand_sizes_update(hands0, receiver as int, self.hands@[receiver as int]);
            assert forall|c2: Card| #[trigger] self.total_count(c2) == pre.total_count(c2) by {
                lemma_hands_count_update(
                    hands0,
                    receiver as int,
                    self.hands@[receiver as int],
                    c2,
                );
            }
            assert forall|c2: Card| #[trigger] self.total_count(c2)
                <= c2.number.copies_spec() by {
                assert(self.total_count(c2) == pre.total_count(c2));
                assert(pre.total_count(c2) <= c2.number.copies_spec());
            }
            assert(self.conserved());
        }
        match hint_result {
            Result::Ok(u) => {
                self.remaining_hints = self.remaining_hints - 1;
                Result::Ok((Option::None, Option::None))
            },
            Result::Err(e) => Result::Err(e),
        }
    }

    /// Validate and apply one proposed action; on success, the identity of
    /// the moved card and of the drawn replacement are reported.
    pub fn apply_action(&mut self, action: Action, rules: &Rules) -> (r: Result<
        (Option<Card>, Option<Card>),
        RuleViolation,
    >)
        requires
            old(self).wf(*rules),
            old(self).concluded_spec() is None,
        ensures
            final(self).wf(*rules),
            final(self).number_of_players == old(self).number_of_players,
            final(self).active_player_id == old(self).active_player_id,
            final(self).number_of_actions_with_empty_deck == old(
                self,
            ).number_of_actions_with_empty_deck + (if old(self).deck.cards@.len() == 0 {
                1int
            } else {
                0int
            }),
            r is Ok && !(action matches Action::Hint { .. }) ==> final(self).cards_held() == old(
                self,
            ).cards_held() - 1,
            r is Ok && (action matches Action::Hint { .. }) ==> final(self).cards_held() == old(
                self,
            ).cards_held() && final(self).remaining_hints == old(self).remaining_hints - 1,
            r is Err ==> final(self).hands@ =~= old(self).hands@ && final(self).deck.cards@ == old(
                self,
            ).deck.cards@ && final(self).firework == old(self).firework && final(self).discard
                == old(self).discard && final(self).remaining_hints == old(self).remaining_hints
                && final(self).strikes == old(self).strikes,
            r is Ok && !(action matches Action::Hint { .. }) && old(self).deck.cards@.len() > 0
                ==> (r matches Result::Ok(pair) && pair.1 == Option::Some(
                old(self).deck.cards@.last(),
            )) && final(self).deck.cards@ == old(self).deck.cards@.drop_last(),
            r is Ok && !(action matches Action::Hint { .. }) && old(self).deck.cards@.len() == 0
                ==> (r matches Result::Ok(pair) && pair.1 is None) && final(self).deck.cards@
                == old(self).deck.cards@,
            r is Ok && (action matches Action::Hint { .. }) ==> final(self).deck.cards@ == old(
                self,
            ).deck.cards@,
            action matches Action::Play { card: Option::Some(cc), .. } ==> r == Result::<
                (Option<Card>, Option<Card>),
                RuleViolation,
            >::Err(RuleViolation::InvalidCardInformation),
            action matches Action::Play { card: Option::None, position } ==> {
                &&& ((position == 0 || position > old(self).active_hand_len()) ==> r == Result::<
                    (Option<Card>, Option<Card>),
                    RuleViolation,
                >::Err(RuleViolation::InvalidCardPosition))
                &&& (1 <= position <= old(self).active_hand_len() ==> {
                    let c = old(self).active_hand_card(position as int);
                    &&& (r matches Result::Ok(pair) && pair.0 == Option::Some(c))
                    &&& (old(self).firework.playable_spec(c) ==> {
                        &&& final(self).firework.top_spec(c.color) == c.number.rank_spec()
                        &&& (forall|col: crate::card::Color|
                            col != c.color ==> #[trigger] final(self).firework.top_spec(col)
                                == old(self).firework.top_spec(col))
                        &&& final(self).strikes == old(self).strikes
                        &&& final(self).discard == old(self).discard
                        &&& final(self).remaining_hints == old(self).remaining_hints + (
                        if c.number == crate::card::Number::Five && old(self).remaining_hints
                            < rules.max_clues {
                            1int
                        } else {
                            0int
                        })
                    })
                    &&& (!old(self).firework.playable_spec(c) ==> {
                        &&& final(self).firework == old(self).firework
                        &&& final(self).strikes == old(self).strikes + 1
                        &&& final(self).discard.mult_spec(c) == old(self).discard.mult_spec(c)
                            + 1
                        &&& (forall|c2: Card|
                            c2 != c ==> #[trigger] final(self).discard.mult_spec(c2) == old(
                                self,
                            ).discard.mult_spec(c2))
                        &&& final(self).remaining_hints == old(self).remaining_hints
                    })
                })
            },
            action matches Action::Discard { card: Option::Some(cc), .. } ==> r == Result::<
                (Option<Card>, Option<Card>),
                RuleViolation,
            >::Err(RuleViolation::InvalidCardInformation),
            action matches Action::Discard { card: Option::None, position } ==> {
                &&& (old(self).remaining_hints == rules.max_clues ==> r == Result::<
                    (Option<Card>, Option<Card>),
                    RuleViolation,
                >::Err(RuleViolation::NoMoreDiscardsAvailable))
                &&& (old(self).remaining_hints != rules.max_clues && (position == 0 || position
                    > old(self).active_hand_len()) ==> r == Result::<
                    (Option<Card>, Option<Card>),
                    RuleViolation,
                >::Err(RuleViolation::InvalidCardPosition))
                &&& (old(self).remaining_hints != rules.max_clues && 1 <= position <= old(
                    self,
                ).active_hand_len() ==> {
                    let c = old(self).active_hand_card(position as int);
                    &&& (r matches Result::Ok(pair) && pair.0 == Option::Some(c))
                    &&& final(self).discard.mult_spec(c) == old(self).discard.mult_spec(c) + 1
                    &&& (forall|c2: Card|
                        c2 != c ==> #[trigger] final(self).discard.mult_spec(c2) == old(
                            self,
                        ).discard.mult_spec(c2))
                    &&& final(self).remaining_hints == old(self).remaining_hints + 1
                    &&& final(self).strikes == old(self).strikes
                    &&& final(self).firework == old(self).firework
                })
            },
            action matches Action::Hint { receiver, hinted_property, positions } ==> {
                &&& ((receiver == old(self).active_player_id || receiver >= old(
                    self,
                ).number_of_players) ==> r == Result::<
                    (Option<Card>, Option<Card>),
                    RuleViolation,
                >::Err(RuleViolation::InvalidReceiver))
                &&& (receiver != old(self).active_player_id && receiver < old(
                    self,
                ).number_of_players && old(self).remaining_hints == 0 ==> r == Result::<
                    (Option<Card>, Option<Card>),
                    RuleViolation,
                >::Err(RuleViolation::NoMoreHintsAvailable))
                &&& (receiver != old(self).active_player_id && receiver < old(
                    self,
                ).number_of_players && old(self).remaining_hints != 0
                    && positions.is_empty_spec() ==> r == Result::<
                    (Option<Card>, Option<Card>),
                    RuleViolation,
                >::Err(RuleViolation::NullHint))
                &&& (receiver != old(self).active_player_id && receiver < old(
                    self,
                ).number_of_players && old(self).remaining_hints != 0
                    && !positions.is_empty_spec() ==> {
                    &&& (r is Ok <==> forall|i: int|
                        0 <= i < old(self).hands@[receiver as int].clued_cards@.len()
                            ==> (#[trigger] old(
                            self,
                        ).hands@[receiver as int].clued_cards@[i]).0.satisfies_spec(
                            hinted_property,
                        ) == positions.contains_spec(i + 1))
                    &&& (r is Err ==> r == Result::<
                        (Option<Card>, Option<Card>),
                        RuleViolation,
                    >::Err(RuleViolation::IncorrectHint))
                    &&& (r matches Result::Ok(pair) ==> pair == (
                        Option::<Card>::None,
                        Option::<Card>::None,
                    ) && final(self).remaining_hints == old(self).remaining_hints - 1
                        && final(self).firework == old(self).firework && final(self).discard
                        == old(self).discard && final(self).strikes == old(self).strikes)
                })
            },
    {
        let ghost pre = *old(self);
        if self.deck.is_empty() {
            self.number_of_actions_with_empty_deck = self.number_of_actions_with_empty_deck + 1;
        }
        proof {
            assert forall|c: Card| #[trigger] self.total_count(c) == pre.total_count(c) by {
                assert(self.total_count(c) == pre.total_count(c));
            }
            assert(self.conserved());
        }
        match action {
            Action::Play { position, card: no_card } => {
                if no_card.is_some() {
                    return Result::Err(RuleViolation::InvalidCardInformation);
                }
                self.apply_play(position, rules)
            },
            Action::Discard { card: no_card, position } => {
                if no_card.is_some() {
                    return Result::Err(RuleViolation::InvalidCardInformation);
                }
                if self.remaining_hints == rules.max_clues {
                    return Result::Err(RuleViolation::NoMoreDiscardsAvailable);
                }
                self.apply_discard(position, rules)
            },
            Action::Hint { receiver, hinted_property, positions } => {
                if receiver == self.active_player_id || self.number_of_players <= receiver {
                    return Result::Err(RuleViolation::InvalidReceiver);
                }
                if self.remaining_hints == 0 {
                    return Result::Err(RuleViolation::NoMoreHintsAvailable);
                }
                if positions.is_empty() {
                    return Result::Err(RuleViolation::NullHint);
                }
                self.apply_hint(receiver, hinted_property, positions, rules)
            },
        }
    }
}

/// After taking one card out of a hand, every identity is still conserved and
/// the taken identity leaves room in the discard pile.
proof fn lemma_after_removal(pre: State, cur: State, hands0: Seq<Hand>, api: int, card: Card)
    requires
        pre.conserved(),
        0 <= api < hands0.len(),
        cur.hands@ == hands0.update(api, cur.hands@[api]),
        hands0 == pre.hands@,
        cur.deck == pre.deck,
        cur.discard == pre.discard,
        cur.firework == pre.firework,
        forall|c2: Card|
            #[trigger] count_hand(cur.hands@[api].clued_cards@, c2) == count_hand(
                hands0[api].clued_cards@,
                c2,
            ) - (if card == c2 {
                1int
            } else {
                0int
            }),
    ensures
        forall|c2: Card|
            #[trigger] cur.total_count(c2) == pre.total_count(c2) - (if card == c2 {
                1int
            } else {
                0int
            }),
        cur.conserved(),
        cur.discard.mult_spec(card) <= card.number.copies_spec() - 1 - played_ind(
            cur.firework,
            card,
        ),
{
    assert forall|c2: Card|
        #[trigger] cur.total_count(c2) == pre.total_count(c2) - (if card == c2 {
            1int
        } else {
            0int
        }) by {
        lemma_hands_count_update(hands0, api, cur.hands@[api], c2);
    }
    crate::rules::lemma_count_cards_nonneg(cur.deck.cards@, card);
    lemma_hands_count_nonneg(cur.hands@, card);
    assert(cur.total_count(card) <= card.number.copies_spec() - 1);
}

/// A successful play conserves every identity.
proof fn lemma_conserved_after_play(mid: State, cur: State, card: Card)
    requires
        mid.conserved(),
        mid.firework.playable_spec(card),
        mid.total_count(card) <= card.number.copies_spec() - 1,
        cur.deck == mid.deck,
        cur.hands == mid.hands,
        cur.discard == mid.discard,
        cur.firework.top_spec(card.color) == card.number.rank_spec(),
        forall|col: crate::card::Color|
            col != card.color ==> #[trigger] cur.firework.top_spec(col) == mid.firework.top_spec(
                col,
            ),
    ensures
        cur.conserved(),
{
    assert forall|c2: Card| #[trigger] cur.total_count(c2) <= c2.number.copies_spec() by {
        assert(hands_count(cur.hands@, c2) == hands_count(mid.hands@, c2));
        if c2.color == card.color {
            if c2.number.rank_spec() == card.number.rank_spec() {
                crate::card::lemma_card_index_injective(c2, card);
                assert(played_ind(cur.firework, c2) == played_ind(mid.firework, c2) + 1);
            } else {
                assert(played_ind(cur.firework, c2) == played_ind(mid.firework, c2));
            }
        } else {
            assert(played_ind(cur.firework, c2) == played_ind(mid.firework, c2));
        }
        assert(cur.total_count(c2) == mid.total_count(c2) + (if c2 == card {
            1int
        } else {
            0int
        }));
    }
}

/// Conservation leaves room in the discard pile for a card just taken out of
/// a hand.
proof fn lemma_mult_small(mid: State, card: Card)
    requires
        mid.discard.mult_spec(card) <= card.number.copies_spec() - 1 - played_ind(
            mid.firework,
            card,
        ),
    ensures
        mid.discard.mult_spec(card) <= 2,
{
}

/// Card counts after a removal followed by a draw.
proof fn lemma_sizes_after_removal(pre: State, before_draw: State, hands0: Seq<Hand>, api: int)
    requires
        0 <= api < hands0.len(),
        hands0 == pre.hands@,
        before_draw.deck == pre.deck,
        before_draw.hands@ == hands0.update(api, before_draw.hands@[api]),
        before_draw.hands@[api].clued_cards@.len() == hands0[api].clued_cards@.len() - 1,
    ensures
        before_draw.cards_held() == pre.cards_held() - 1,
{
    lemma_hand_sizes_update(hands0, api, before_draw.hands@[api]);
}

proof fn lemma_hands_count_empty(hands: Seq<Hand>, c: Card)
    requires
        forall|j: int| 0 <= j < hands.len() ==> (#[trigger] hands[j]).clued_cards@.len() == 0,
    ensures
        hands_count(hands, c) == 0,
    decreases hands.len(),
{
    if hands.len() > 0 {
        lemma_hands_count_empty(hands.drop_last(), c);
    }
}

impl State {
    /// Pass the turn to the next seat, round robin.
    pub fn go_to_next_player(&mut self)
        requires
            old(self).number_of_players > 0,
            old(self).active_player_id < old(self).number_of_players,
        ensures
            final(self).active_player_id == (old(self).active_player_id + 1) % (old(
                self,
            ).number_of_players as int),
            final(self).deck == old(self).deck,
            final(self).hands == old(self).hands,
            final(self).discard == old(self).discard,
            final(self).firework == old(self).firework,
            final(self).remaining_hints == old(self).remaining_hints,
            final(self).strikes == old(self).strikes,
            final(self).number_of_players == old(self).number_of_players,
            final(self).number_of_actions_with_empty_deck == old(
                self,
            ).number_of_actions_with_empty_deck,
    {
        self.active_player_id = (self.active_player_id + 1) % self.number_of_players;
    }
}

proof fn lemma_hand_sizes_nonneg(hands: Seq<Hand>)
    ensures
        hand_sizes(hands) >= 0,
    decreases hands.len(),
{
    if hands.len() > 0 {
        lemma_hand_sizes_nonneg(hands.drop_last());
    }
}

/// The full story of one finished game: its parameters, the deck it was
/// played from, and every action in order.
pub struct Record {
    pub rules: Rules,
    pub deck: Deck,
    pub actions: Vec<Action>,
}

/// Run a full game: deal, then let each seat act in turn until the game
/// concludes. Every seat observes every draw and action. The first illegal
/// action aborts the game with its violation.
pub fn record_game<P: Player>(rules: Rules, deck: Deck, players: Vec<P>) -> (r: Result<
    (Option<usize>, Record),
    RuleViolation,
>)
    requires
        rules.wf(),
        players@.len() == rules.number_of_players,
        forall|i: int| 0 <= i < players@.len() ==> (#[trigger] players@[i]).inv(),
        valid_deck_cards(deck.cards@),
        deck.cards@.len() >= rules.number_of_players * rules.hand_size,
    ensures
        r matches Result::Ok(pair) ==> (pair.0 matches Option::Some(score) ==> score <= 25),
        r matches Result::Ok(pair) ==> pair.1.rules == rules && pair.1.deck.cards@
            == deck.cards@,
{
    let mut players = players;
    let np = rules.number_of_players;
    let hs = rules.hand_size;
    let deck_for_state = deck.clone();
    let mut state = State::new(&rules, deck_for_state);
    let ghost deck_len0 = deck.cards@.len() as int;

    let mut p_id: usize = 0;
    while p_id < np
        invariant
            rules.wf(),
            np == rules.number_of_players,
            hs == rules.hand_size,
            players@.len() == np,
            forall|i: int| 0 <= i < players@.len() ==> (#[trigger] players@[i]).inv(),
            state.wf(rules),
            p_id <= np,
            state.active_player_id == p_id % np,
            p_id < np ==> state.active_player_id == p_id,
            state.deck.cards@.len() == deck_len0 - p_id * hs,
            deck_len0 >= np * hs,
            state.strikes == 0,
            state.number_of_actions_with_empty_deck == 0,
            forall|j: int|
                0 <= j < np ==> (#[trigger] state.hands@[j]).clued_cards@.len() == (if j < p_id {
                    hs as int
                } else {
                    0int
                }),
            forall|col: crate::card::Color| #[trigger] state.firework.top_spec(col) == 0,
        decreases np - p_id,
    {
        let mut q: usize = 0;
        while q < hs
            invariant
                rules.wf(),
                np == rules.number_of_players,
                hs == rules.hand_size,
                players@.len() == np,
                forall|i: int| 0 <= i < players@.len() ==> (#[trigger] players@[i]).inv(),
                state.wf(rules),
                p_id < np,
                q <= hs,
                state.active_player_id == p_id,
                state.deck.cards@.len() == deck_len0 - p_id * hs - q,
                deck_len0 >= np * hs,
                state.strikes == 0,
                state.number_of_actions_with_empty_deck == 0,
                forall|j: int|
                    0 <= j < np ==> (#[trigger] state.hands@[j]).clued_cards@.len() == (
                    if j < p_id {
                        hs as int
                    } else if j == p_id {
                        q as int
                    } else {
                        0int
                    }),
                forall|col: crate::card::Color| #[trigger] state.firework.top_spec(col) == 0,
            decreases hs - q,
        {
            proof {
                assert(p_id * hs + hs <= np * hs) by (nonlinear_arith)
                    requires
                        p_id < np,
                        hs >= 0,
                ;
            }
            let card = match state.draw() {
                Option::Some(c) => c,
                Option::None => {
                    proof {
                        assert(false);
                    }
                    return Result::Err(RuleViolation::InvalidCardPosition);
                },
            };
            let mut pp_id: usize = 0;
            while pp_id < np
                invariant
                    players@.len() == np,
                    forall|i: int| 0 <= i < players@.len() ==> (#[trigger] players@[i]).inv(),
                    pp_id <= np,
                    p_id < np,
                decreases np - pp_id,
            {
                let seen = if p_id != pp_id {
                    Option::Some(card)
                } else {
                    Option::None
                };
                players[pp_id].witness_draw(p_id, seen);
                proof {
                    assert forall|i: int|
                        0 <= i < players@.len() implies (#[trigger] players@[i]).inv() by {}
                }
                pp_id = pp_id + 1;
            }
            q = q + 1;
        }
        state.go_to_next_player();
        p_id = p_id + 1;
        proof {
            assert(p_id * hs == (p_id - 1) * hs + hs) by (nonlinear_arith);
            if p_id < np {
                assert((p_id as int) % (np as int) == p_id as int) by (nonlinear_arith)
                    requires
                        0 <= p_id < np,
                ;
            }
        }
    }

    let mut recorded: Vec<Action> = Vec::new();

    loop
        invariant
            rules.wf(),
            np == rules.number_of_players,
            players@.len() == np,
            forall|i: int| 0 <= i < players@.len() ==> (#[trigger] players@[i]).inv(),
            state.wf(rules),
        decreases state.cards_held(), state.remaining_hints,
    {
        proof {
            lemma_hand_sizes_nonneg(state.hands@);
        }
        match state.is_concluded() {
            Option::Some(score) => {
                proof {
                    if score matches Option::Some(sc) {
                        crate::firework::lemma_sum_tops_bound(state.firework);
                    }
                }
                return Result::Ok(
                    (score, Record { rules, deck, actions: recorded }),
                );
            },
            Option::None => {},
        }
        let mut action = players[state.active_player_id].request_action();
        let step = state.apply_action(action, &rules);
        let (old_card, new_card) = match step {
            Result::Ok(pair) => pair,
            Result::Err(e) => {
                return Result::Err(e);
            },
        };
        recorded.push(action);
        if let Option::Some(oldc) = old_card {
            action.add_card_information(oldc);
        }
        let mut pp_id: usize = 0;
        while pp_id < np
            invariant
                players@.len() == np,
                forall|i: int| 0 <= i < players@.len() ==> (#[trigger] players@[i]).inv(),
                pp_id <= np,
            decreases np - pp_id,
        {
            players[pp_id].witness_action(action, state.active_player_id);
            proof {
                assert forall|i: int|
                    0 <= i < players@.len() implies (#[trigger] players@[i]).inv() by {}
            }
            pp_id = pp_id + 1;
        }
        if let Option::Some(new_seen) = new_card {
            let active = state.active_player_id;
            let mut pp_id2: usize = 0;
            while pp_id2 < np
                invariant
                    players@.len() == np,
                    forall|i: int| 0 <= i < players@.len() ==> (#[trigger] players@[i]).inv(),
                    pp_id2 <= np,
                    active < np,
                decreases np - pp_id2,
            {
                let seen = if active != pp_id2 {
                    Option::Some(new_seen)
                } else {
                    Option::None
                };
                players[pp_id2].witness_draw(active, seen);
                proof {
                    assert forall|i: int|
                        0 <= i < players@.len() implies (#[trigger] players@[i]).inv() by {}
                }
                pp_id2 = pp_id2 + 1;
            }
        }
        proof {
            lemma_hand_sizes_nonneg(state.hands@);
        }
        state.go_to_next_player();
    }
}

} // verus!
