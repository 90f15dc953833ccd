//! The convention-driven heuristic player.

use vstd::prelude::*;

use crate::action::Action;
use crate::assessment::{
    lemma_better_eq_total, lemma_better_eq_transitive, ActionAssessment, ActionType,
};
use crate::card::{Card, Number, Property};
use crate::card_set::{bit, CardSet};
use crate::firework::Firework;
use crate::imap::{imap_entries, iset_contents, iset_elems};
use crate::player::{Player, PositionSet};
use crate::player_state::PlayerState;
use crate::public_state::PublicState;
use crate::rules::Rules;

verus! {

/// A count capped at the three physical copies a discard pile can hold.
pub open spec fn capped3(x: int) -> int {
    if x >= 3 {
        3
    } else {
        x
    }
}

/// One seat's agent: its belief state about every hand, the cards it has
/// witnessed, and its copy of the public state.
pub struct BasicPlayer {
    pub player_states: Vec<PlayerState>,
    pub witnessed_cards: Vec<Option<Card>>,
    pub player_id: usize,
    pub public_state: PublicState,
}

impl BasicPlayer {
    pub open spec fn wf(self) -> bool {
        &&& self.public_state.wf()
        &&& self.player_states@.len() == self.public_state.rules.number_of_players
        &&& self.player_id < self.public_state.rules.number_of_players
        &&& forall|j: int|
            0 <= j < self.player_states@.len() ==> (#[trigger] self.player_states@[j]).wf()
        &&& forall|j: int, k: u64|
            0 <= j < self.player_states@.len() && #[trigger] self.player_states@[j].dom().contains(
                k,
            ) ==> k < self.witnessed_cards@.len()
    }

    /// The identity this agent has witnessed for card id `k`, if any.
    pub open spec fn witnessed_spec(self, k: u64) -> Option<Card> {
        if k < self.witnessed_cards@.len() {
            self.witnessed_cards@[k as int]
        } else {
            Option::None
        }
    }

    /// `c` is a touched card of seat `j`'s hand, as this agent witnessed it.
    pub open spec fn touched_in_hand_spec(self, j: int, c: Card) -> bool {
        exists|k: u64|
            #[trigger] iset_contents(self.player_states@[j].touched).contains(k)
                && self.witnessed_spec(k) == Option::Some(c)
    }

    /// `c` is touched in a hand this seat sees, other than seat `pid`'s.
    pub open spec fn touched_elsewhere_spec(self, pid: int, c: Card) -> bool {
        exists|p: int|
            0 <= p < self.public_state.rules.number_of_players && p != self.player_id && p != pid
                && #[trigger] self.touched_in_hand_spec(p, c)
    }

    /// `c` is touched in a hand other than this seat's own.
    pub open spec fn touched_not_by_me_spec(self, c: Card) -> bool {
        exists|p: int|
            0 <= p < self.public_state.rules.number_of_players && p != self.player_id
                && #[trigger] self.touched_in_hand_spec(p, c)
    }

    /// `c` is still worth entertaining for a touched card of seat `pid`'s own
    /// hand: not yet played, not touched in a hand both can see.
    pub open spec fn candidate_spec(self, pid: int, c: Card) -> bool {
        &&& !(c.number.rank_spec() <= self.public_state.firework.top_spec(c.color))
        &&& !self.touched_elsewhere_spec(pid, c)
    }

    /// How many copies of `c` this agent has witnessed among the first `upto`
    /// positions of seat `p`'s hand.
    pub open spec fn hand_occ_spec(self, p: int, upto: int, c: Card) -> int
        decreases upto,
    {
        if upto < 1 {
            0
        } else {
            self.hand_occ_spec(p, upto - 1, c) + (if self.witnessed_spec(
                self.player_states@[p].cards.id_at(upto) as u64,
            ) == Option::Some(c) {
                1int
            } else {
                0int
            })
        }
    }

    /// How many copies of `c` this agent has witnessed across the first `pu`
    /// hands, skipping its own and seat `pid`'s.
    pub open spec fn visible_occ_spec(self, pid: int, pu: int, c: Card) -> int
        decreases pu,
    {
        if pu <= 0 {
            0
        } else {
            self.visible_occ_spec(pid, pu - 1, c) + (if pu - 1 != self.player_id && pu - 1 != pid {
                self.hand_occ_spec(pu - 1, self.player_states@[pu - 1].n(), c)
            } else {
                0int
            })
        }
    }

    /// Every physical copy of `c` is accounted for from the view this seat and
    /// seat `pid` share: discarded, played, or witnessed in another hand.
    pub open spec fn sees_all_copies_spec(self, pid: int, c: Card) -> bool {
        self.public_state.discard_pile.mult_spec(c) + crate::referee::played_ind(
            self.public_state.firework,
            c,
        ) + self.visible_occ_spec(
            pid,
            self.public_state.rules.number_of_players as int,
            c,
        ) >= c.number.copies_spec()
    }

    /// `c` is an identity some touched card of this seat's own hand might
    /// still be, by the hints alone.
    pub open spec fn possible_touch_spec(self, c: Card) -> bool {
        &&& exists|k: u64|
            #[trigger] iset_contents(
                self.player_states@[self.player_id as int].touched,
            ).contains(k) && bit(
                self.player_states@[self.player_id as int].possible_bits(k),
                c.index_spec() as u32,
            )
        &&& !self.sees_all_copies_spec(self.player_id as int, c)
    }

    /// What seat `j` itself might still entertain for its card at position
    /// `p`, from the view this agent keeps of it.
    pub open spec fn entertained_for_spec(self, j: int, p: int, c: Card) -> bool {
        let st = self.player_states@[j];
        &&& bit(st.possible_bits(st.cards.id_at(p) as u64), c.index_spec() as u32)
        &&& !self.sees_all_copies_spec(j, c)
        &&& st.interp_allows_spec(st.cards.id_at(p) as u64, c)
        &&& (st.touched_at(p) ==> self.candidate_spec(j, c))
    }

    /// Seat `j` surely knows its card at `p` is playable right now, judging
    /// an untouched card against everything touched elsewhere or possibly
    /// touched in this seat's own hand.
    pub open spec fn aware_playable_at_spec(self, j: int, p: int) -> bool {
        let st = self.player_states@[j];
        &&& !(!st.touched_at(p) && exists|c: Card|
            #[trigger] self.entertained_for_spec(j, p, c) && (self.touched_elsewhere_spec(j, c)
                || self.possible_touch_spec(c)))
        &&& (forall|c: Card|
            #[trigger] self.entertained_for_spec(j, p, c)
                ==> self.public_state.firework.playable_spec(c))
    }

    /// Seat `j` may be locked: every held card touched, none surely known
    /// playable.
    pub open spec fn locked_for_spec(self, j: int) -> bool {
        let st = self.player_states@[j];
        &&& (forall|p: int| 1 <= p <= st.n() ==> st.touched_at(p))
        &&& !(exists|p: int| 1 <= p <= st.n() && #[trigger] self.aware_playable_at_spec(j, p))
    }

    /// How pressed seat `j` visibly is to spend a clue rather than act.
    pub open spec fn stall_severity_spec(self, j: int) -> int {
        if self.public_state.clues == self.public_state.rules.max_clues {
            4
        } else if self.locked_for_spec(j) {
            3
        } else {
            0
        }
    }

    /// This seat surely knows that every identity it might entertain for its
    /// own card at `p` is playable right now, judging an untouched card
    /// against everything touched in the other hands.
    pub open spec fn aware_own_play_spec(self, p: int) -> bool {
        let me = self.player_id as int;
        let st = self.player_states@[me];
        &&& !(!st.touched_at(p) && exists|c: Card|
            #[trigger] self.entertained_for_spec(me, p, c) && self.touched_not_by_me_spec(c))
        &&& (forall|c: Card|
            #[trigger] self.entertained_for_spec(me, p, c)
                ==> self.public_state.firework.playable_spec(c))
    }

    fn rules(&self) -> (r: &Rules)
        ensures
            *r == self.public_state.rules,
    {
        &self.public_state.rules
    }

    /// A fresh agent for one seat, before any card is dealt.
    pub fn new(rules: Rules, player_id: usize) -> (r: Self)
        requires
            rules.wf(),
            player_id < rules.number_of_players,
        ensures
            r.wf(),
            r.player_id == player_id,
            r.public_state.rules == rules,
            r.witnessed_cards@.len() == 0,
            forall|j: int|
                0 <= j < r.player_states@.len() ==> (#[trigger] r.player_states@[j]).n() == 0,
    {
        let mut player_states: Vec<PlayerState> = Vec::new();
        let mut j: usize = 0;
        while j < rules.number_of_players
            invariant
                j <= rules.number_of_players,
                player_states@.len() == j,
                forall|k: int| 0 <= k < j ==> (#[trigger] player_states@[k]).wf(),
                forall|k: int| 0 <= k < j ==> (#[trigger] player_states@[k]).n() == 0,
                forall|k: int, i: u64|
                    0 <= k < j ==> !(#[trigger] player_states@[k].dom().contains(i)),
            decreases rules.number_of_players - j,
        {
            let ps = PlayerState::new();
            proof {
                assert forall|i: u64| !ps.dom().contains(i) by {
                    if ps.dom().contains(i) {
                        assert(ps.cards.holds_id(i as usize));
                    }
                }
            }
            player_states.push(ps);
            j = j + 1;
        }
        BasicPlayer {
            player_states,
            witnessed_cards: Vec::new(),
            player_id,
            public_state: PublicState::new(rules),
        }
    }

    /// The identity this agent has seen for a card id, if any.
    fn witnessed(&self, card_id: usize) -> (r: Option<Card>)
        ensures
            card_id < self.witnessed_cards@.len() ==> r == self.witnessed_cards@[card_id as int],
            card_id >= self.witnessed_cards@.len() ==> r is None,
    {
        if card_id < self.witnessed_cards.len() {
            self.witnessed_cards[card_id]
        } else {
            Option::None
        }
    }

    /// Identities still worth considering for touched cards of a player's own
    /// hand: not yet played, not touched elsewhere.
    fn potentially_entertained_candidates_for_touched_in_that_players_own_hand(
        &self,
        player_id: usize,
    ) -> (r: CardSet)
        requires
            self.wf(),
        ensures
            r.inv(),
            forall|c: Card|
                #[trigger] r.contains_spec(c) == self.candidate_spec(player_id as int, c),
    {
        let mut result = CardSet::all();

        let played = self.public_state.firework.already_played();
        result.exclude(&played);

        let touched_in_other_hands = self.touched_in_other_hands_or_less(player_id);
        result.exclude(&touched_in_other_hands);

        result
    }

    /// Identities this seat's own touched cards might be, by the hints alone.
    fn possible_touches_in_hand(&self, player: usize) -> (r: CardSet)
        requires
            self.wf(),
            player == self.player_id,
        ensures
            r.inv(),
            forall|c: Card| #[trigger] r.contains_spec(c) == self.possible_touch_spec(c),
    {
        let mut result = CardSet::none();

        let full_sets_seen = self.cards_that_player_definitely_sees_all_copies_of(player);
        let ids = iset_elems(&self.player_states[self.player_id].touched);
        let mut i: usize = 0;
        while i < ids.len()
            invariant
                self.wf(),
                player == self.player_id,
                result.inv(),
                full_sets_seen.inv(),
                forall|c: Card|
                    #[trigger] full_sets_seen.contains_spec(c) == self.sees_all_copies_spec(
                        self.player_id as int,
                        c,
                    ),
                i <= ids@.len(),
                forall|j: int|
                    0 <= j < ids@.len() ==> iset_contents(
                        self.player_states@[self.player_id as int].touched,
                    ).contains(#[trigger] ids@[j]),
                forall|k: u64|
                    iset_contents(self.player_states@[self.player_id as int].touched).contains(k)
                        ==> exists|j: int| 0 <= j < ids@.len() && #[trigger] ids@[j] == k,
                forall|c: Card|
                    #[trigger] result.contains_spec(c) == ((exists|j: int|
                        0 <= j < i && bit(
                            self.player_states@[self.player_id as int].possible_bits(
                                #[trigger] ids@[j],
                            ),
                            c.index_spec() as u32,
                        )) && !self.sees_all_copies_spec(self.player_id as int, c)),
            decreases ids@.len() - i,
        {
            let card_id = ids[i];
            proof {
                assert(self.player_states@[self.player_id as int].dom().contains(ids@[i as int]));
                assert((card_id as usize) as u64 == card_id);
            }
            let more = self.player_states[
                self.player_id
            ].objectively_possible_cards_according_to_hints_minus_visible_full_sets(
                card_id as usize,
                &full_sets_seen,
            );
            result.extend(more);
            i = i + 1;
        }
        proof {
            let st = self.player_states@[self.player_id as int];
            assert forall|c: Card|
                #[trigger] result.contains_spec(c) == self.possible_touch_spec(c) by {
                if result.contains_spec(c) {
                    let j = choose|j: int|
                        0 <= j < ids@.len() && bit(
                            st.possible_bits(#[trigger] ids@[j]),
                            c.index_spec() as u32,
                        );
                    assert(iset_contents(st.touched).contains(ids@[j]) && bit(
                        st.possible_bits(ids@[j]),
                        c.index_spec() as u32,
                    ));
                }
                if self.possible_touch_spec(c) {
                    let k = choose|k: u64|
                        #[trigger] iset_contents(st.touched).contains(k) && bit(
                            st.possible_bits(k),
                            c.index_spec() as u32,
                        );
                    let j = choose|j: int| 0 <= j < ids@.len() && #[trigger] ids@[j] == k;
                    assert(bit(st.possible_bits(ids@[j]), c.index_spec() as u32));
                }
            }
        }
        result
    }

    /// `c` could be the aim of a new touch without breaking good touch: not
    /// definite trash, not touched in another hand, not already a possible
    /// touch of this seat's own hand.
    pub open spec fn good_touchable_spec(self, c: Card) -> bool {
        &&& !(c.number.rank_spec() <= self.public_state.firework.top_spec(c.color)
            || crate::public_state::unreachable_spec(self.public_state.discard_pile, c))
        &&& !self.touched_elsewhere_spec(self.player_id as int, c)
        &&& !self.possible_touch_spec(c)
    }

    /// Identities a new touch could aim at without breaking good touch.
    fn definitely_good_touchable_cards_definitely_known_by_this_player(
        &self,
        player: usize,
    ) -> (r: CardSet)
        requires
            self.wf(),
            player == self.player_id,
        ensures
            r.inv(),
            forall|c: Card| #[trigger] r.contains_spec(c) == self.good_touchable_spec(c),
    {
        let mut result = CardSet::all();

        let definite_trash = self.public_state.definite_trash();
        result.exclude(&definite_trash);

        let touched_in_other_hands = self.touched_in_other_hands_or_less(player);
        result.exclude(&touched_in_other_hands);

        result.exclude(&self.possible_touches_in_hand(player));
        result
    }

    /// Update the belief state for a card leaving a hand: the announced
    /// position's id is retired from that seat's hand; a malformed
    /// announcement changes nothing.
    fn play_or_discard_card(&mut self, seen_card: Card, player: usize, position: usize)
        requires
            old(self).wf(),
        ensures
            final(self).wf(),
            final(self).public_state == old(self).public_state,
            final(self).player_id == old(self).player_id,
            final(self).witnessed_cards@.len() == old(self).witnessed_cards@.len(),
            final(self).player_states@.len() == old(self).player_states@.len(),
            forall|j: int|
                0 <= j < old(self).player_states@.len() && j != player
                    ==> final(self).player_states@[j] == #[trigger] old(self).player_states@[j],
            player < old(self).player_states@.len() && 1 <= position <= old(
                self,
            ).player_states@[player as int].n() ==> {
                let st = final(self).player_states@[player as int];
                let pre = old(self).player_states@[player as int];
                &&& st.n() == pre.n() - 1
                &&& st.dom() =~= pre.dom().remove(pre.cards.id_at(position as int) as u64)
            },
            !(player < old(self).player_states@.len() && 1 <= position <= old(
                self,
            ).player_states@[player as int].n()) ==> final(self).player_states@ == old(
                self,
            ).player_states@,
    {
        if player >= self.player_states.len() {
            return ;
        }
        if position < 1 || position > self.player_states[player].cards.current_hand_size {
            return ;
        }
        let card_id = self.player_states[player].cards.get(position);
        if player == self.player_id && card_id < self.witnessed_cards.len() {
            if matches!(self.witnessed_cards[card_id], Option::None) {
                self.witnessed_cards[card_id] = Option::Some(seen_card);
            }
        }
        let ghost pre_states = self.player_states@;
        let st = &mut self.player_states[player];
        st.play_or_discard_card(position);
        proof {
            assert(self.player_states@ =~= pre_states.update(
                player as int,
                self.player_states@[player as int],
            ));
        }
    }

    /// The true partition of a receiver's hand by a property, as this agent
    /// has witnessed it.
    fn get_positions(&self, hinted_property: Property, receiver: usize) -> (r: PositionSet)
        requires
            self.wf(),
            receiver < self.player_states@.len(),
        ensures
            r.wf(),
            r.hand_size_spec() == self.player_states@[receiver as int].n(),
            forall|p: int|
                #[trigger] r.contains_spec(p) == ({
                    &&& 1 <= p <= self.player_states@[receiver as int].n()
                    &&& self.witnessed_cards@.len() > self.player_states@[
                        receiver as int].cards.id_at(p)
                    &&& self.witnessed_cards@[self.player_states@[receiver as int].cards.id_at(
                        p,
                    ) as int] matches Option::Some(c) && c.satisfies_spec(hinted_property)
                }),
    {
        let receiver_cards_n = self.player_states[receiver].cards.current_hand_size;
        let mut positions = PositionSet::new(receiver_cards_n);
        let mut pos: usize = 1;
        while pos <= receiver_cards_n
            invariant
                self.wf(),
                receiver < self.player_states@.len(),
                receiver_cards_n == self.player_states@[receiver as int].cards.current_hand_size,
                1 <= pos <= receiver_cards_n + 1,
                positions.wf(),
                positions.hand_size_spec() == receiver_cards_n,
                forall|p: int|
                    #[trigger] positions.contains_spec(p) == ({
                        &&& 1 <= p < pos
                        &&& self.witnessed_cards@.len() > self.player_states@[
                            receiver as int].cards.id_at(p)
                        &&& self.witnessed_cards@[self.player_states@[
                            receiver as int].cards.id_at(p) as int] matches Option::Some(c)
                            && c.satisfies_spec(hinted_property)
                    }),
            decreases receiver_cards_n + 1 - pos,
        {
            let card_id = self.player_states[receiver].cards.get(pos);
            match self.witnessed(card_id) {
                Option::Some(card) => {
                    if card.satisfies(hinted_property) {
                        positions.insert(pos);
                    }
                },
                Option::None => {},
            }
            pos = pos + 1;
        }
        positions
    }

    /// `positions` names exactly the cards of the receiver's hand that this
    /// agent has witnessed to satisfy the property.
    pub open spec fn true_partition_spec(
        self,
        receiver: int,
        hinted_property: Property,
        positions: PositionSet,
    ) -> bool {
        &&& positions.wf()
        &&& positions.hand_size_spec() == self.player_states@[receiver].n()
        &&& forall|p: int|
            #[trigger] positions.contains_spec(p) == (1 <= p
                <= self.player_states@[receiver].n() && (self.witnessed_spec(
                self.player_states@[receiver].cards.id_at(p) as u64,
            ) matches Option::Some(c) && c.satisfies_spec(hinted_property)))
    }

    /// `a` is one of the candidates this seat enumerates on its turn: a play
    /// or discard of a held position, or a legal hint naming the true
    /// partition of another seat's hand.
    pub open spec fn enumerated_candidate_spec(self, a: Action) -> bool {
        match a {
            Action::Play { card, position } => card is None && 1 <= position
                <= self.player_states@[self.player_id as int].n(),
            Action::Discard { card, position } => card is None && self.public_state.clues
                != self.public_state.rules.max_clues && 1 <= position <= self.player_states@[
                self.player_id as int].n(),
            Action::Hint { receiver, hinted_property, positions } => {
                &&& self.public_state.clues != 0
                &&& receiver < self.player_states@.len()
                &&& receiver != self.player_id
                &&& !positions.is_empty_spec()
                &&& self.true_partition_spec(receiver as int, hinted_property, positions)
            },
        }
    }

    /// `sk` holds exactly the surely known touched cards.
    pub open spec fn holds_surely_known(self, sk: CardSet) -> bool {
        forall|c2: Card| #[trigger] sk.contains_spec(c2) == self.surely_known_spec(c2)
    }

    /// The receiver would read a hint of `hinted_property` naming exactly
    /// `positions` in a way that matches the real cards: a stalling re-clue
    /// carries no inference at all, and any other hint restricts the focus
    /// card to the convention set, which must then hold its real identity.
    pub open spec fn hint_reads_true_spec(
        self,
        receiver: int,
        hinted_property: Property,
        positions: PositionSet,
    ) -> bool {
        let st = self.player_states@[receiver];
        exists|fp: int|
            1 <= fp <= st.n() && #[trigger] st.is_focus_spec(positions, fp) && {
                ||| (self.stall_severity_spec(self.player_id as int) >= 2 && st.touched_at(fp))
                ||| (exists|sk: CardSet|
                    #[trigger] self.holds_surely_known(sk) && (self.witnessed_spec(
                        st.cards.id_at(fp) as u64,
                    ) matches Option::Some(c) && crate::player_state::focus_restriction_spec(
                        self.public_state,
                        sk,
                        hinted_property,
                        st.chop_at(fp),
                        c,
                    )))
            }
    }

    /// Some newly touched card would break good touch: its identity is
    /// unseen, duplicated among the newly touched cards, or not one a new
    /// touch may aim at.
    pub open spec fn hint_breaks_good_touch_spec(
        self,
        receiver: int,
        positions: PositionSet,
    ) -> bool {
        let st = self.player_states@[receiver];
        ||| (exists|p: int|
            #[trigger] self.new_pos_spec(receiver, positions, p) && self.witnessed_spec(
                st.cards.id_at(p) as u64,
            ) is None)
        ||| (exists|p: int, q: int|
            #![trigger self.new_pos_spec(receiver, positions, p), self.new_pos_spec(receiver, positions, q)]
            self.new_pos_spec(receiver, positions, p) && self.new_pos_spec(receiver, positions, q)
                && p != q && self.witnessed_spec(st.cards.id_at(p) as u64) == self.witnessed_spec(
                st.cards.id_at(q) as u64,
            ))
        ||| (exists|p: int, c: Card|
            #![trigger self.new_pos_spec(receiver, positions, p), self.good_touchable_spec(c)]
            self.new_pos_spec(receiver, positions, p) && self.witnessed_spec(
                st.cards.id_at(p) as u64,
            ) == Option::Some(c) && !self.good_touchable_spec(c))
    }

    /// Weigh a hint this seat could give: unconventional exactly when the
    /// receiver would read it wrong or some newly touched card breaks good
    /// touch, else scored by its new touches and distance to the receiver.
    fn assess_hint_this_player(
        &self,
        receiver: usize,
        hinted_property: Property,
        positions: PositionSet,
    ) -> (r: ActionAssessment)
        requires
            self.wf(),
            receiver < self.player_states@.len(),
            receiver != self.player_id,
            positions.wf(),
            positions.hand_size_spec() == self.player_states@[receiver as int].n(),
            !positions.is_empty_spec(),
        ensures
            r.is_unconventional_spec() == !(self.hint_reads_true_spec(
                receiver as int,
                hinted_property,
                positions,
            ) && !self.hint_breaks_good_touch_spec(receiver as int, positions)),
            !r.is_unconventional_spec() ==> {
                &&& r.action_type == ActionType::Hint
                &&& r.sure_influence_on_clue_count == -1
                &&& !r.last_resort
                &&& r.tempo == 0
                &&& r.new_touches == self.new_pos_count_spec(
                    receiver as int,
                    positions,
                    self.player_states@[receiver as int].n(),
                )
                &&& r.delay_until_relevant == ((self.public_state.rules.number_of_players
                    + receiver - self.player_id) as int) % (
                self.public_state.rules.number_of_players as int)
                &&& !r.next_player_might_be_locked_with_no_clue
            },
            r.is_unconventional_spec() ==> r.new_touches == 100 && !r.last_resort
                && !r.next_player_might_be_locked_with_no_clue,
    {
        let ghost rec = receiver as int;
        let ghost st = self.player_states@[rec];
        let giver_stall_severity = self.stall_severity_of(self.player_id);
        let surely_known = self.all_surely_known_touched_cards_in_hands();
        let interpretations = self.player_states[receiver].get_hint_interpretations(
            hinted_property,
            positions,
            &self.public_state,
            giver_stall_severity,
            &surely_known,
        );
        let inters = match interpretations {
            Option::Some(inters) => inters,
            Option::None => {
                proof {
                    assert(false);
                }
                return ActionAssessment::unconvectional();
            },
        };
        proof {
            self.lemma_hint_truth_bridge(
                receiver,
                hinted_property,
                positions,
                giver_stall_severity as int,
                surely_known,
                inters,
            );
        }

        let correct_interpretation = inters.get_truth(&self.witnessed_cards);

        if matches!(correct_interpretation, Option::None) {
            proof {
                assert(!(exists|j: int|
                    0 <= j < inters.ors@.len() && (#[trigger] inters.ors@[j]).is_true_spec(
                        self.witnessed_cards@,
                    )));
                assert(!inters.ors@[0].is_true_spec(self.witnessed_cards@));
            }
            return ActionAssessment::unconvectional();
        }
        proof {
            let j = choose|j: int|
                0 <= j < inters.ors@.len() && (#[trigger] inters.ors@[j]).is_true_spec(
                    self.witnessed_cards@,
                );
            assert(j == 0);
            assert(self.hint_reads_true_spec(rec, hinted_property, positions));
        }

        let new_cards = self.new_cards(positions, receiver);
        let ghost ps = choose|ps: Seq<int>|
            #[trigger] self.lists_new_positions(ps, positions, rec, new_cards@);
        let mut touchable = self.definitely_good_touchable_cards_definitely_known_by_this_player(
            self.player_id,
        );
        let mut i: usize = 0;
        while i < new_cards.len()
            invariant
                self.wf(),
                rec == receiver as int,
                st == self.player_states@[rec],
                receiver < self.player_states@.len(),
                touchable.inv(),
                i <= new_cards@.len(),
                self.lists_new_positions(ps, positions, rec, new_cards@),
                self.hint_reads_true_spec(rec, hinted_property, positions),
                forall|k: int|
                    0 <= k < i ==> (#[trigger] self.witnessed_spec(new_cards@[k] as u64)) is Some,
                forall|k: int, c: Card|
                    #![trigger self.witnessed_spec(new_cards@[k] as u64), self.good_touchable_spec(c)]
                    0 <= k < i && self.witnessed_spec(new_cards@[k] as u64) == Option::Some(c)
                        ==> self.good_touchable_spec(c),
                forall|k1: int, k2: int|
                    0 <= k1 < k2 < i ==> self.witnessed_spec(
                        #[trigger] new_cards@[k1] as u64,
                    ) != self.witnessed_spec(#[trigger] new_cards@[k2] as u64),
                forall|c: Card|
                    #[trigger] touchable.contains_spec(c) == (self.good_touchable_spec(c) && !(
                    exists|k: int|
                        0 <= k < i && self.witnessed_spec(#[trigger] new_cards@[k] as u64)
                            == Option::Some(c))),
            decreases new_cards@.len() - i,
        {
            let new_card_id = new_cards[i];
            match self.witnessed(new_card_id) {
                Option::Some(card) => {
                    let succ = touchable.remove(card);
                    if !succ {
                        proof {
                            assert(self.witnessed_spec(new_cards@[i as int] as u64)
                                == Option::Some(card));
                            if self.good_touchable_spec(card) {
                                let k = choose|k: int|
                                    0 <= k < i && self.witnessed_spec(
                                        #[trigger] new_cards@[k] as u64,
                                    ) == Option::Some(card);
                                assert(self.new_pos_spec(rec, positions, ps[k])
                                    && self.new_pos_spec(rec, positions, ps[i as int]) && ps[k]
                                    != ps[i as int] && self.witnessed_spec(
                                    st.cards.id_at(ps[k]) as u64,
                                ) == self.witnessed_spec(st.cards.id_at(ps[i as int]) as u64));
                            } else {
                                assert(self.new_pos_spec(rec, positions, ps[i as int])
                                    && self.witnessed_spec(st.cards.id_at(ps[i as int]) as u64)
                                    == Option::Some(card) && !self.good_touchable_spec(card));
                            }
                            assert(self.hint_breaks_good_touch_spec(rec, positions));
                        }
                        return ActionAssessment::unconvectional();
                    }
                },
                Option::None => {
                    proof {
                        assert(self.witnessed_spec(new_cards@[i as int] as u64) is None);
                        assert(self.new_pos_spec(rec, positions, ps[i as int])
                            && self.witnessed_spec(st.cards.id_at(ps[i as int]) as u64) is None);
                        assert(self.hint_breaks_good_touch_spec(rec, positions));
                    }
                    return ActionAssessment::unconvectional();
                },
            }
            i = i + 1;
        }
        proof {
            assert(!self.hint_breaks_good_touch_spec(rec, positions)) by {
                if exists|p: int|
                    #[trigger] self.new_pos_spec(rec, positions, p) && self.witnessed_spec(
                        st.cards.id_at(p) as u64,
                    ) is None {
                    let p = choose|p: int|
                        #[trigger] self.new_pos_spec(rec, positions, p) && self.witnessed_spec(
                            st.cards.id_at(p) as u64,
                        ) is None;
                    let k = choose|k: int| 0 <= k < ps.len() && ps[k] == p;
                    assert(self.witnessed_spec(new_cards@[k] as u64) is Some);
                }
                if exists|p: int, q: int|
                    #![trigger self.new_pos_spec(rec, positions, p), self.new_pos_spec(rec, positions, q)]
                    self.new_pos_spec(rec, positions, p) && self.new_pos_spec(rec, positions, q)
                        && p != q && self.witnessed_spec(st.cards.id_at(p) as u64)
                        == self.witnessed_spec(st.cards.id_at(q) as u64) {
                    let (p, q) = choose|p: int, q: int|
                        #![trigger self.new_pos_spec(rec, positions, p), self.new_pos_spec(rec, positions, q)]
                        self.new_pos_spec(rec, positions, p) && self.new_pos_spec(
                            rec,
                            positions,
                            q,
                        ) && p != q && self.witnessed_spec(st.cards.id_at(p) as u64)
                            == self.witnessed_spec(st.cards.id_at(q) as u64);
                    let k1 = choose|k: int| 0 <= k < ps.len() && ps[k] == p;
                    let k2 = choose|k: int| 0 <= k < ps.len() && ps[k] == q;
                    assert(k1 != k2);
                    assert(self.witnessed_spec(new_cards@[k1] as u64) == self.witnessed_spec(
                        new_cards@[k2] as u64,
                    ));
                    if k1 < k2 {
                    } else {
                    }
                }
                if exists|p: int, c: Card|
                    #![trigger self.new_pos_spec(rec, positions, p), self.good_touchable_spec(c)]
                    self.new_pos_spec(rec, positions, p) && self.witnessed_spec(
                        st.cards.id_at(p) as u64,
                    ) == Option::Some(c) && !self.good_touchable_spec(c) {
                    let (p, c) = choose|p: int, c: Card|
                        #![trigger self.new_pos_spec(rec, positions, p), self.good_touchable_spec(c)]
                        self.new_pos_spec(rec, positions, p) && self.witnessed_spec(
                            st.cards.id_at(p) as u64,
                        ) == Option::Some(c) && !self.good_touchable_spec(c);
                    let k = choose|k: int| 0 <= k < ps.len() && ps[k] == p;
                    assert(self.witnessed_spec(new_cards@[k] as u64) == Option::Some(c));
                }
            }
        }

        ActionAssessment::new(
            new_cards.len(),
            (self.rules().number_of_players + receiver - self.player_id)
                % self.rules().number_of_players,
            ActionType::Hint,
            -1,
            false,
            0,
        )
    }

    /// The single recorded branch of the receiver's interpretation matches
    /// the witnessed cards exactly when the hint reads true.
    proof fn lemma_hint_truth_bridge(
        self,
        receiver: usize,
        hinted_property: Property,
        positions: PositionSet,
        giver_stall_severity: int,
        surely_known: CardSet,
        inters: crate::player_state::Interpretations,
    )
        requires
            self.wf(),
            receiver < self.player_states@.len(),
            giver_stall_severity == self.stall_severity_spec(self.player_id as int),
            forall|c: Card|
                #[trigger] surely_known.contains_spec(c) == self.surely_known_spec(c),
            inters.ors@.len() == 1,
            exists|fp: int|
                #![trigger self.player_states@[receiver as int].is_focus_spec(positions, fp)]
                {
                    let st = self.player_states@[receiver as int];
                    &&& 1 <= fp <= st.n()
                    &&& st.is_focus_spec(positions, fp)
                    &&& (giver_stall_severity >= 2 && st.touched_at(fp) ==> imap_entries(
                        inters.ors@[0].card_id_to_possibilities,
                    ).dom() =~= Set::empty())
                    &&& (!(giver_stall_severity >= 2 && st.touched_at(fp)) ==> {
                        &&& imap_entries(inters.ors@[0].card_id_to_possibilities).dom()
                            =~= Set::empty().insert(st.cards.id_at(fp) as u64)
                        &&& forall|c: Card|
                            bit(
                                imap_entries(inters.ors@[0].card_id_to_possibilities)[
                                    st.cards.id_at(fp) as u64] as u32,
                                c.index_spec() as u32,
                            ) == crate::player_state::focus_restriction_spec(
                                self.public_state,
                                surely_known,
                                hinted_property,
                                st.chop_at(fp),
                                c,
                            )
                    })
                },
        ensures
            inters.ors@[0].is_true_spec(self.witnessed_cards@) == self.hint_reads_true_spec(
                receiver as int,
                hinted_property,
                positions,
            ),
    {
        let rec = receiver as int;
        let st = self.player_states@[rec];
        let w = self.witnessed_cards@;
        let b0 = inters.ors@[0];
        let dom = imap_entries(b0.card_id_to_possibilities).dom();
        assert(self.holds_surely_known(surely_known));
        let fp = choose|fp: int|
            {
                &&& 1 <= fp <= st.n()
                &&& #[trigger] st.is_focus_spec(positions, fp)
                &&& (giver_stall_severity >= 2 && st.touched_at(fp) ==> imap_entries(
                    b0.card_id_to_possibilities,
                ).dom() =~= Set::empty())
                &&& (!(giver_stall_severity >= 2 && st.touched_at(fp)) ==> {
                    &&& imap_entries(b0.card_id_to_possibilities).dom() =~= Set::empty().insert(
                        st.cards.id_at(fp) as u64,
                    )
                    &&& forall|c: Card|
                        bit(
                            imap_entries(b0.card_id_to_possibilities)[
                                st.cards.id_at(fp) as u64] as u32,
                            c.index_spec() as u32,
                        ) == crate::player_state::focus_restriction_spec(
                            self.public_state,
                            surely_known,
                            hinted_property,
                            st.chop_at(fp),
                            c,
                        )
                })
            };
        let id = st.cards.id_at(fp) as u64;
        if giver_stall_severity >= 2 && st.touched_at(fp) {
            assert(b0.is_true_spec(w)) by {
                assert(forall|k: u64| !(#[trigger] dom.contains(k)));
            }
            assert(1 <= fp <= st.n() && st.is_focus_spec(positions, fp) && (
            self.stall_severity_spec(self.player_id as int) >= 2 && st.touched_at(fp)));
            assert(self.hint_reads_true_spec(rec, hinted_property, positions));
        } else {
            if b0.is_true_spec(w) {
                assert(dom.contains(id));
                assert(id < w.len() && (w[id as int] matches Option::Some(c) && bit(
                    imap_entries(b0.card_id_to_possibilities)[id] as u32,
                    c.index_spec() as u32,
                )));
                let c = w[id as int]->0;
                assert(self.witnessed_spec(id) == Option::Some(c));
                assert(crate::player_state::focus_restriction_spec(
                    self.public_state,
                    surely_known,
                    hinted_property,
                    st.chop_at(fp),
                    c,
                ));
                assert(self.hint_reads_true_spec(rec, hinted_property, positions));
            }
            if self.hint_reads_true_spec(rec, hinted_property, positions) {
                let fp2 = choose|fp2: int|
                    1 <= fp2 <= st.n() && #[trigger] st.is_focus_spec(positions, fp2) && {
                        ||| (self.stall_severity_spec(self.player_id as int) >= 2
                            && st.touched_at(fp2))
                        ||| (exists|sk: CardSet|
                            #[trigger] self.holds_surely_known(sk) && (self.witnessed_spec(
                                st.cards.id_at(fp2) as u64,
                            ) matches Option::Some(c)
                                && crate::player_state::focus_restriction_spec(
                                self.public_state,
                                sk,
                                hinted_property,
                                st.chop_at(fp2),
                                c,
                            )))
                    };
                crate::player_state::lemma_focus_unique(st, positions, fp2, fp);
                let sk = choose|sk: CardSet|
                    #[trigger] self.holds_surely_known(sk) && (self.witnessed_spec(id)
                        matches Option::Some(c) && crate::player_state::focus_restriction_spec(
                        self.public_state,
                        sk,
                        hinted_property,
                        st.chop_at(fp),
                        c,
                    ));
                let c = self.witnessed_spec(id)->0;
                assert(crate::player_state::focus_restriction_spec(
                    self.public_state,
                    surely_known,
                    hinted_property,
                    st.chop_at(fp),
                    c,
                )) by {
                    crate::firework::lemma_ext_top_same(
                        self.public_state.firework.top_spec(c.color),
                        sk,
                        surely_known,
                        c.color,
                    );
                }
                assert(b0.is_true_spec(w)) by {
                    assert(id < w.len());
                    assert forall|k: u64| #[trigger] dom.contains(k) implies k < w.len() && (
                    w[k as int] matches Option::Some(c2) && bit(
                        imap_entries(b0.card_id_to_possibilities)[k] as u32,
                        c2.index_spec() as u32,
                    )) by {
                        assert(k == id);
                        assert(w[id as int] == Option::Some(c));
                    }
                }
            }
        }
    }

    /// Project an action onto copies of the public and next seat's state and
    /// flag it if the next player might then be locked with no clue left.
    fn apply_hypothetical(&self, action: Action, assessment: &mut ActionAssessment)
        requires
            self.wf(),
            action matches Action::Hint { .. } ==> self.public_state.clues != 0,
            action matches Action::Play { card: c, .. } ==> c is None,
            action matches Action::Discard { card: c, .. } ==> c is None,
            action matches Action::Hint { receiver, hinted_property, positions } ==> positions.wf()
                && !positions.is_empty_spec() && receiver < self.player_states@.len()
                && positions.hand_size_spec() == self.player_states@[receiver as int].n(),
        ensures
            final(assessment).new_touches == old(assessment).new_touches,
            final(assessment).delay_until_relevant == old(assessment).delay_until_relevant,
            final(assessment).is_unconventional == old(assessment).is_unconventional,
            final(assessment).action_type == old(assessment).action_type,
            final(assessment).sure_influence_on_clue_count == old(
                assessment,
            ).sure_influence_on_clue_count,
            final(assessment).last_resort == old(assessment).last_resort,
            final(assessment).tempo == old(assessment).tempo,
    {
        let next_id = self.next_player_id();
        let mut hypothetical_next = self.clone_player_state(next_id);
        let mut hypothetical_state = self.public_state.clone();

        hypothetical_state.apply_action(action);

        match action {
            Action::Hint { receiver, hinted_property, positions } => {
                if receiver == next_id && positions.hand_size()
                    == hypothetical_next.cards.current_hand_size {
                    let giver_stall_severity = self.stall_severity_of(self.player_id);
                    let surely_known = self.all_surely_known_touched_cards_in_hands();
                    hypothetical_next.fr_apply_hint(
                        hinted_property,
                        positions,
                        &hypothetical_state,
                        giver_stall_severity,
                        &surely_known,
                    );
                }
            },
            _ => {},
        }

        let might_lock = hypothetical_state.clues == 0 && (next_id != self.player_id
            && hypothetical_next.potentially_is_locked_with_no_known_playable_card(
            &hypothetical_state.firework,
            &self.potentially_entertained_candidates_for_touched_in_that_players_own_hand(
                next_id,
            ),
            &self.touched_in_other_hands_or_more(next_id),
            &self.cards_that_player_definitely_sees_all_copies_of(next_id),
        ));

        assessment.next_player_might_be_locked_with_no_clue = might_lock;
    }

    /// A faithful copy of one seat's belief state.
    fn clone_player_state(&self, player_id: usize) -> (r: PlayerState)
        requires
            self.wf(),
            player_id < self.player_states@.len(),
        ensures
            r.wf(),
            r.cards.slots@ == self.player_states@[player_id as int].cards.slots@,
            r.cards.current_hand_size == self.player_states@[
                player_id as int].cards.current_hand_size,
            r.dom() == self.player_states@[player_id as int].dom(),
            iset_contents(r.touched) == iset_contents(
                self.player_states@[player_id as int].touched,
            ),
            forall|k: u64|
                r.dom().contains(k) ==> #[trigger] r.possible_bits(k)
                    == self.player_states@[player_id as int].possible_bits(k),
    {
        let st = &self.player_states[player_id];
        let r = PlayerState {
            cards: clone_hand_cards(&st.cards),
            objectively_possible_cards_according_to_hints: crate::imap::imap_clone(
                &st.objectively_possible_cards_according_to_hints,
            ),
            touched: crate::imap::iset_clone(&st.touched),
            interpretations_some_of_which_self_should_entertain: clone_interpretations_list(
                &st.interpretations_some_of_which_self_should_entertain,
            ),
        };
        proof {
            let orig = self.player_states@[player_id as int];
            assert(r.cards.slots@ == orig.cards.slots@);
            assert(r.cards.wf());
            assert forall|p: int|
                1 <= p <= r.n() implies r.dom().contains(
                #[trigger] r.cards.id_at(p) as u64,
            ) by {
                assert(r.cards.id_at(p) == orig.cards.id_at(p));
            }
            assert forall|k: u64|
                #[trigger] r.dom().contains(k) implies r.cards.holds_id(k as usize) && (
            k as usize) as u64 == k by {
                assert(imap_entries(r.objectively_possible_cards_according_to_hints)
                    == imap_entries(orig.objectively_possible_cards_according_to_hints));
                assert(orig.dom().contains(k));
                assert(orig.cards.holds_id(k as usize));
                let p = choose|p: int|
                    1 <= p <= orig.cards.current_hand_size && #[trigger] orig.cards.id_at(p)
                        == k as usize;
                assert(r.cards.id_at(p) == k as usize);
            }
            assert(r.wf());
        }
        r
    }

    /// Enumerate one play per held position.
    fn assess_plays_this_player(&self) -> (r: Vec<(ActionAssessment, Action)>)
        requires
            self.wf(),
        ensures
            r@.len() == self.player_states@[self.player_id as int].n(),
            forall|k: int|
                0 <= k < r@.len() ==> (#[trigger] r@[k]).1 == (Action::Play {
                    card: Option::None,
                    position: (k + 1) as usize,
                }),
            forall|k: int| 0 <= k < r@.len() ==> !(#[trigger] r@[k]).0.is_unconventional_spec(),
    {
        let mut options: Vec<(ActionAssessment, Action)> = Vec::new();
        let n = self.player_states[self.player_id].cards.current_hand_size;
        let mut position: usize = 1;
        while position <= n
            invariant
                self.wf(),
                n == self.player_states@[self.player_id as int].cards.current_hand_size,
                1 <= position <= n + 1,
                options@.len() == position - 1,
                forall|k: int|
                    0 <= k < options@.len() ==> (#[trigger] options@[k]).1 == (Action::Play {
                        card: Option::None,
                        position: (k + 1) as usize,
                    }),
                forall|k: int|
                    0 <= k < options@.len() ==> !(#[trigger] options@[k]).0.is_unconventional_spec(),
            decreases n + 1 - position,
        {
            let a = self.assess_play_this_player(position);
            options.push((a, Action::Play { card: Option::None, position }));
            position = position + 1;
        }
        options
    }

    /// Enumerate one hint per other seat and property whose true partition
    /// is non-empty.
    fn assess_hints_this_player(&self) -> (r: Vec<(ActionAssessment, Action)>)
        requires
            self.wf(),
            self.public_state.clues != 0,
        ensures
            forall|k: int|
                0 <= k < r@.len() ==> ({
                    &&& (#[trigger] r@[k]).1 matches Action::Hint {
                        receiver,
                        hinted_property,
                        positions,
                    } && receiver < self.player_states@.len() && receiver != self.player_id
                        && positions.wf() && !positions.is_empty_spec()
                        && positions.hand_size_spec() == self.player_states@[receiver as int].n()
                        && self.true_partition_spec(receiver as int, hinted_property, positions)
                }),
    {
        let mut options: Vec<(ActionAssessment, Action)> = Vec::new();

        let mut receiver: usize = 0;
        while receiver < self.public_state.rules.number_of_players
            invariant
                self.wf(),
                self.public_state.clues != 0,
                receiver <= self.public_state.rules.number_of_players,
                forall|k: int|
                    0 <= k < options@.len() ==> ({
                        &&& (#[trigger] options@[k]).1 matches Action::Hint {
                            receiver,
                            hinted_property,
                            positions,
                        } && receiver < self.player_states@.len() && receiver != self.player_id
                            && positions.wf() && !positions.is_empty_spec()
                            && positions.hand_size_spec() == self.player_states@[
                            receiver as int].n() && self.true_partition_spec(
                            receiver as int,
                            hinted_property,
                            positions,
                        )
                    }),
            decreases self.public_state.rules.number_of_players - receiver,
        {
            if receiver != self.player_id {
                let properties = Property::all(&self.public_state.rules);
                let mut pi: usize = 0;
                while pi < properties.len()
                    invariant
                        self.wf(),
                        self.public_state.clues != 0,
                        receiver < self.player_states@.len(),
                        receiver != self.player_id,
                        pi <= properties@.len(),
                        forall|k: int|
                            0 <= k < options@.len() ==> ({
                                &&& (#[trigger] options@[k]).1 matches Action::Hint {
                                    receiver,
                                    hinted_property,
                                    positions,
                                } && receiver < self.player_states@.len() && receiver
                                    != self.player_id && positions.wf()
                                    && !positions.is_empty_spec() && positions.hand_size_spec()
                                    == self.player_states@[receiver as int].n()
                                    && self.true_partition_spec(
                                    receiver as int,
                                    hinted_property,
                                    positions,
                                )
                            }),
                    decreases properties@.len() - pi,
                {
                    let hinted_property = properties[pi];
                    let positions = self.get_positions(hinted_property, receiver);
                    if !positions.is_empty() {
                        proof {
                            assert(self.true_partition_spec(
                                receiver as int,
                                hinted_property,
                                positions,
                            ));
                        }
                        let assessment = self.assess_hint_this_player(
                            receiver,
                            hinted_property,
                            positions,
                        );
                        options.push(
                            (assessment, Action::Hint { receiver, hinted_property, positions }),
                        );
                    }
                    pi = pi + 1;
                }
            }
            receiver = receiver + 1;
        }

        options
    }

    /// The touched cards of one other hand, as witnessed.
    fn touched_in_other_hand(&self, player_id: usize) -> (r: CardSet)
        requires
            self.wf(),
            player_id != self.player_id,
            player_id < self.player_states@.len(),
        ensures
            r.inv(),
            forall|c: Card|
                #[trigger] r.contains_spec(c) == self.touched_in_hand_spec(player_id as int, c),
    {
        let mut result = CardSet::none();

        let ids = iset_elems(&self.player_states[player_id].touched);
        let mut i: usize = 0;
        while i < ids.len()
            invariant
                self.wf(),
                player_id < self.player_states@.len(),
                result.inv(),
                i <= ids@.len(),
                forall|j: int|
                    0 <= j < ids@.len() ==> iset_contents(
                        self.player_states@[player_id as int].touched,
                    ).contains(#[trigger] ids@[j]),
                forall|k: u64|
                    iset_contents(self.player_states@[player_id as int].touched).contains(k)
                        ==> exists|j: int| 0 <= j < ids@.len() && #[trigger] ids@[j] == k,
                forall|c: Card|
                    #[trigger] result.contains_spec(c) == exists|j: int|
                        0 <= j < i && self.witnessed_spec(#[trigger] ids@[j]) == Option::Some(c),
            decreases ids@.len() - i,
        {
            let id = ids[i];
            proof {
                let st = self.player_states@[player_id as int];
                assert(iset_contents(st.touched).contains(ids@[i as int]));
                assert(st.wf());
                assert(st.dom().contains(id));
                assert(id < self.witnessed_cards@.len());
                assert((id as usize) as u64 == id);
            }
            match self.witnessed(id as usize) {
                Option::Some(card) => {
                    result.add(card);
                    proof {
                        assert(self.witnessed_spec(ids@[i as int]) == Option::Some(card));
                    }
                },
                Option::None => {
                    proof {
                        assert(self.witnessed_spec(ids@[i as int]) is None);
                    }
                },
            }
            i = i + 1;
        }
        proof {
            assert forall|c: Card|
                #[trigger] result.contains_spec(c) == self.touched_in_hand_spec(
                    player_id as int,
                    c,
                ) by {
                if result.contains_spec(c) {
                    let j = choose|j: int|
                        0 <= j < ids@.len() && self.witnessed_spec(#[trigger] ids@[j])
                            == Option::Some(c);
                    assert(iset_contents(self.player_states@[player_id as int].touched).contains(
                        ids@[j],
                    ) && self.witnessed_spec(ids@[j]) == Option::Some(c));
                }
                if self.touched_in_hand_spec(player_id as int, c) {
                    let k = choose|k: u64|
                        #[trigger] iset_contents(
                            self.player_states@[player_id as int].touched,
                        ).contains(k) && self.witnessed_spec(k) == Option::Some(c);
                    let j = choose|j: int| 0 <= j < ids@.len() && #[trigger] ids@[j] == k;
                    assert(self.witnessed_spec(ids@[j]) == Option::Some(c));
                }
            }
        }
        result
    }

    /// Touched cards in every hand this seat can see.
    fn touched_in_other_hands_or_less(&self, player_id: usize) -> (r: CardSet)
        requires
            self.wf(),
        ensures
            r.inv(),
            forall|c: Card|
                #[trigger] r.contains_spec(c) == self.touched_elsewhere_spec(player_id as int, c),
    {
        self.touched_visible_by_me_and(player_id)
    }

    /// Touched cards in every hand but this seat's own.
    fn touched_not_by_me(&self) -> (r: CardSet)
        requires
            self.wf(),
        ensures
            r.inv(),
            forall|c: Card| #[trigger] r.contains_spec(c) == self.touched_not_by_me_spec(c),
    {
        let mut result = CardSet::none();
        let mut p_id: usize = 0;
        while p_id < self.rules().number_of_players
            invariant
                self.wf(),
                result.inv(),
                p_id <= self.public_state.rules.number_of_players,
                forall|c: Card|
                    #[trigger] result.contains_spec(c) == exists|p: int|
                        0 <= p < p_id && p != self.player_id && #[trigger] self.touched_in_hand_spec(
                            p,
                            c,
                        ),
            decreases self.public_state.rules.number_of_players - p_id,
        {
            if p_id != self.player_id {
                let more = self.touched_in_other_hand(p_id);
                result.extend(more);
            }
            p_id = p_id + 1;
        }
        result
    }

    /// Touched cards this seat can see, plus what its own touched cards might
    /// be.
    fn touched_in_other_hands_or_more(&self, player_id: usize) -> (r: CardSet)
        requires
            self.wf(),
        ensures
            r.inv(),
            forall|c: Card|
                #[trigger] r.contains_spec(c) == (self.touched_elsewhere_spec(player_id as int, c)
                    || self.possible_touch_spec(c)),
    {
        let mut result = self.touched_visible_by_me_and(player_id);
        let own = self.possible_touches_in_hand(self.player_id);
        result.merge(&own);
        result
    }

    /// Touched cards in every hand other than this seat's and `player_id`'s.
    fn touched_visible_by_me_and(&self, player_id: usize) -> (r: CardSet)
        requires
            self.wf(),
        ensures
            r.inv(),
            forall|c: Card|
                #[trigger] r.contains_spec(c) == self.touched_elsewhere_spec(player_id as int, c),
    {
        let mut result = CardSet::none();
        let mut p_id: usize = 0;
        while p_id < self.rules().number_of_players
            invariant
                self.wf(),
                result.inv(),
                p_id <= self.public_state.rules.number_of_players,
                forall|c: Card|
                    #[trigger] result.contains_spec(c) == exists|p: int|
                        0 <= p < p_id && p != self.player_id && p != player_id
                            && #[trigger] self.touched_in_hand_spec(p, c),
            decreases self.public_state.rules.number_of_players - p_id,
        {
            if p_id != self.player_id && p_id != player_id {
                let more = self.touched_in_other_hand(p_id);
                result.extend(more);
            }
            p_id = p_id + 1;
        }
        result
    }

    /// Position `p` of the receiver's hand would be newly touched by a hint
    /// naming exactly `positions`.
    pub open spec fn new_pos_spec(self, receiver: int, positions: PositionSet, p: int) -> bool {
        &&& 1 <= p <= self.player_states@[receiver].n()
        &&& positions.contains_spec(p)
        &&& !self.player_states@[receiver].touched_at(p)
    }

    /// How many of the first `upto` positions of the receiver's hand a hint
    /// naming exactly `positions` would newly touch.
    pub open spec fn new_pos_count_spec(
        self,
        receiver: int,
        positions: PositionSet,
        upto: int,
    ) -> int
        decreases upto,
    {
        if upto < 1 {
            0
        } else {
            self.new_pos_count_spec(receiver, positions, upto - 1) + (if self.new_pos_spec(
                receiver,
                positions,
                upto,
            ) {
                1int
            } else {
                0int
            })
        }
    }

    /// `ps` lists exactly the positions of the receiver's hand that a hint
    /// naming `positions` would newly touch, in increasing order, and `ids`
    /// holds their card ids.
    pub open spec fn lists_new_positions(
        self,
        ps: Seq<int>,
        positions: PositionSet,
        receiver: int,
        ids: Seq<usize>,
    ) -> bool {
        &&& ps.len() == ids.len()
        &&& (forall|i: int|
            0 <= i < ps.len() ==> self.new_pos_spec(receiver, positions, #[trigger] ps[i])
                && self.player_states@[receiver].cards.id_at(ps[i]) == ids[i])
        &&& (forall|p: int|
            #[trigger] self.new_pos_spec(receiver, positions, p) ==> exists|i: int|
                0 <= i < ps.len() && ps[i] == p)
        &&& (forall|i: int, k: int| 0 <= i < k < ps.len() ==> ps[i] < ps[k])
    }

    /// The ids a hint would newly touch in the receiver's hand: one id for
    /// each newly touched position, in position order.
    fn new_cards(&self, positions: PositionSet, receiver: usize) -> (r: Vec<usize>)
        requires
            self.wf(),
            receiver < self.player_states@.len(),
        ensures
            r@.len() <= 5,
            r@.len() == self.new_pos_count_spec(
                receiver as int,
                positions,
                self.player_states@[receiver as int].n(),
            ),
            exists|ps: Seq<int>| #[trigger] self.lists_new_positions(ps, positions, receiver as int, r@),
    {
        let mut result: Vec<usize> = Vec::new();
        let ghost mut ps: Seq<int> = Seq::empty();

        let n = self.player_states[receiver].cards.current_hand_size;
        let mut pos: usize = 1;
        while pos <= n
            invariant
                self.wf(),
                receiver < self.player_states@.len(),
                n == self.player_states@[receiver as int].cards.current_hand_size,
                1 <= pos <= n + 1,
                result@.len() < pos,
                result@.len() == self.new_pos_count_spec(receiver as int, positions, pos - 1),
                ps.len() == result@.len(),
                forall|i: int|
                    0 <= i < ps.len() ==> 1 <= #[trigger] ps[i] < pos && self.new_pos_spec(
                        receiver as int,
                        positions,
                        ps[i],
                    ) && self.player_states@[receiver as int].cards.id_at(ps[i]) == result@[i],
                forall|p: int|
                    1 <= p < pos && #[trigger] self.new_pos_spec(receiver as int, positions, p)
                        ==> exists|i: int| 0 <= i < ps.len() && ps[i] == p,
                forall|i: int, k: int| 0 <= i < k < ps.len() ==> ps[i] < ps[k],
            decreases n + 1 - pos,
        {
            let ghost pre_ps = ps;
            if positions.contains(pos) {
                let card_id = self.player_states[receiver].cards.get(pos);
                if !crate::imap::iset_contains(
                    &self.player_states[receiver].touched,
                    card_id as u64,
                ) {
                    result.push(card_id);
                    proof {
                        ps = ps.push(pos as int);
                        assert(self.new_pos_spec(receiver as int, positions, pos as int));
                        assert forall|p: int|
                            1 <= p < pos + 1 && #[trigger] self.new_pos_spec(
                                receiver as int,
                                positions,
                                p,
                            ) implies exists|i: int| 0 <= i < ps.len() && ps[i] == p by {
                            if p == pos as int {
                                assert(ps[ps.len() - 1] == p);
                            } else {
                                let i = choose|i: int| 0 <= i < pre_ps.len() && pre_ps[i] == p;
                                assert(ps[i] == p);
                            }
                        }
                    }
                } else {
                    proof {
                        assert(!self.new_pos_spec(receiver as int, positions, pos as int));
                    }
                }
            } else {
                proof {
                    assert(!self.new_pos_spec(receiver as int, positions, pos as int));
                }
            }
            pos = pos + 1;
        }
        proof {
            assert(self.lists_new_positions(ps, positions, receiver as int, result@));
        }
        result
    }

    fn next_player_id(&self) -> (r: usize)
        requires
            self.wf(),
        ensures
            r == (self.player_id + 1) % (self.public_state.rules.number_of_players as int),
            r < self.public_state.rules.number_of_players,
    {
        (self.player_id + 1) % self.rules().number_of_players
    }

    /// Weigh playing one of this seat's own cards: a conventional, tempo-one
    /// play exactly when the seat surely knows everything it might entertain
    /// for the card is playable right now, with a clue refund exactly when
    /// every entertained identity is a five; otherwise a last-resort gamble.
    fn assess_play_this_player(&self, position: usize) -> (r: ActionAssessment)
        requires
            self.wf(),
            1 <= position <= self.player_states@[self.player_id as int].n(),
        ensures
            !r.is_unconventional_spec(),
            r.action_type == ActionType::Play,
            r.new_touches == 0,
            r.delay_until_relevant == 0,
            !r.next_player_might_be_locked_with_no_clue,
            r.last_resort == !self.aware_own_play_spec(position as int),
            self.aware_own_play_spec(position as int) ==> r.tempo == 1
                && r.sure_influence_on_clue_count == (if forall|c: Card|
                #[trigger] self.entertained_for_spec(
                    self.player_id as int,
                    position as int,
                    c,
                ) ==> c.number == Number::Five {
                1i8
            } else {
                0i8
            }),
            !self.aware_own_play_spec(position as int) ==> r.tempo == 0
                && r.sure_influence_on_clue_count == 0,
    {
        let cand = self.potentially_entertained_candidates_for_touched_in_that_players_own_hand(
            self.player_id,
        );
        let seen = self.cards_that_player_definitely_sees_all_copies_of(self.player_id);
        let possibilities = self.player_states[self.player_id].possibilities_self_might_entertain(
            position,
            &cand,
            &seen,
        );

        let is_touched = self.player_states[self.player_id].touched_positions().contains(position);
        let tnbm = self.touched_not_by_me();

        let r = assess_play_given(&possibilities, is_touched, &self.public_state.firework, &tnbm);
        proof {
            let me = self.player_id as int;
            let p = position as int;
            let st = self.player_states@[me];
            assert forall|c: Card|
                #[trigger] possibilities.contains_spec(c) == self.entertained_for_spec(
                    me,
                    p,
                    c,
                ) by {}
            assert(is_touched == st.touched_at(p));
            let aware_set = !(!is_touched && exists|c: Card|
                possibilities.contains_spec(c) && tnbm.contains_spec(c)) && (forall|c: Card|
                #[trigger] possibilities.contains_spec(c)
                    ==> self.public_state.firework.playable_spec(c));
            assert(aware_set == self.aware_own_play_spec(p)) by {
                assert((forall|c: Card|
                    #[trigger] possibilities.contains_spec(c)
                        ==> self.public_state.firework.playable_spec(c)) == (forall|c: Card|
                    #[trigger] self.entertained_for_spec(me, p, c)
                        ==> self.public_state.firework.playable_spec(c))) by {
                    if forall|c: Card|
                        #[trigger] possibilities.contains_spec(c)
                            ==> self.public_state.firework.playable_spec(c) {
                        assert forall|c: Card|
                            #[trigger] self.entertained_for_spec(me, p, c) implies
                            self.public_state.firework.playable_spec(c) by {
                            assert(possibilities.contains_spec(c));
                        }
                    }
                    if forall|c: Card|
                        #[trigger] self.entertained_for_spec(me, p, c)
                            ==> self.public_state.firework.playable_spec(c) {
                        assert forall|c: Card|
                            #[trigger] possibilities.contains_spec(c) implies
                            self.public_state.firework.playable_spec(c) by {
                            assert(self.entertained_for_spec(me, p, c));
                        }
                    }
                }
                if !is_touched {
                    if exists|c: Card| possibilities.contains_spec(c) && tnbm.contains_spec(c) {
                        let w = choose|c: Card|
                            possibilities.contains_spec(c) && tnbm.contains_spec(c);
                        assert(self.entertained_for_spec(me, p, w)
                            && self.touched_not_by_me_spec(w));
                    }
                    if exists|c: Card|
                        #[trigger] self.entertained_for_spec(me, p, c)
                            && self.touched_not_by_me_spec(c) {
                        let w = choose|c: Card|
                            #[trigger] self.entertained_for_spec(me, p, c)
                                && self.touched_not_by_me_spec(c);
                        assert(possibilities.contains_spec(w) && tnbm.contains_spec(w));
                    }
                }
            }
            if aware_set {
                assert((forall|c: Card|
                    #[trigger] possibilities.contains_spec(c) ==> c.number == Number::Five) == (
                forall|c: Card|
                    #[trigger] self.entertained_for_spec(me, p, c) ==> c.number
                        == Number::Five)) by {
                    if forall|c: Card|
                        #[trigger] possibilities.contains_spec(c) ==> c.number == Number::Five {
                        assert forall|c: Card|
                            #[trigger] self.entertained_for_spec(me, p, c) implies c.number
                            == Number::Five by {
                            assert(possibilities.contains_spec(c));
                        }
                    }
                    if forall|c: Card|
                        #[trigger] self.entertained_for_spec(me, p, c) ==> c.number
                            == Number::Five {
                        assert forall|c: Card|
                            #[trigger] possibilities.contains_spec(c) implies c.number
                            == Number::Five by {
                            assert(self.entertained_for_spec(me, p, c));
                        }
                    }
                }
            }
        }
        r
    }

    /// Enumerate one discard per held position.
    fn assedd_discards_this_player(&self) -> (r: Vec<(ActionAssessment, Action)>)
        requires
            self.wf(),
        ensures
            r@.len() == self.player_states@[self.player_id as int].n(),
            forall|k: int|
                0 <= k < r@.len() ==> (#[trigger] r@[k]).1 == (Action::Discard {
                    card: Option::None,
                    position: (k + 1) as usize,
                }),
    {
        let mut options: Vec<(ActionAssessment, Action)> = Vec::new();
        let n = self.player_states[self.player_id].cards.current_hand_size;
        let mut position: usize = 1;
        while position <= n
            invariant
                self.wf(),
                n == self.player_states@[self.player_id as int].cards.current_hand_size,
                1 <= position <= n + 1,
                options@.len() == position - 1,
                forall|k: int|
                    0 <= k < options@.len() ==> (#[trigger] options@[k]).1 == (Action::Discard {
                        card: Option::None,
                        position: (k + 1) as usize,
                    }),
            decreases n + 1 - position,
        {
            let a = self.assess_discard(position);
            options.push((a, Action::Discard { card: Option::None, position }));
            position = position + 1;
        }
        options
    }

    /// Weigh a discard: conventional only at the chop; a forced discard with
    /// no chop is a last resort.
    pub fn assess_discard(&self, position: usize) -> (r: ActionAssessment)
        requires
            self.wf(),
        ensures
            (exists|cp: int|
                self.player_states@[self.player_id as int].chop_at(cp) && cp != position)
                ==> r.is_unconventional_spec(),
            (forall|cp: int|
                #[trigger] self.player_states@[self.player_id as int].chop_at(cp) ==> cp
                    == position) ==> (!r.is_unconventional_spec() && r.action_type
                == ActionType::Discard && r.sure_influence_on_clue_count == 1 && r.new_touches
                == 0 && r.delay_until_relevant == 0 && r.last_resort == !(exists|cp: int|
                self.player_states@[self.player_id as int].chop_at(cp))),
    {
        let chop = self.player_states[self.player_id].chop_position();
        let last_resort = match chop {
            Option::Some(chop_position) => {
                if position != chop_position {
                    proof {
                        assert(self.player_states@[self.player_id as int].chop_at(
                            chop_position as int,
                        ));
                    }
                    return ActionAssessment::unconvectional();
                }
                false
            },
            Option::None => true,
        };
        proof {
            match chop {
                Option::Some(cp) => {
                    assert(self.player_states@[self.player_id as int].chop_at(cp as int));
                },
                Option::None => {
                    assert forall|cp: int|
                        !(#[trigger] self.player_states@[self.player_id as int].chop_at(
                            cp,
                        )) by {
                        if self.player_states@[self.player_id as int].chop_at(cp) {
                            assert(self.player_states@[self.player_id as int].touched_at(cp));
                        }
                    }
                },
            }
        }
        ActionAssessment::new(0, 0, ActionType::Discard, 1, last_resort, 0)
    }

    /// Identities of which this seat and `player_id` can both account for
    /// every physical copy: discarded, played, or visible in a third hand.
    fn cards_that_player_definitely_sees_all_copies_of(&self, player_id: usize) -> (r: CardSet)
        requires
            self.wf(),
        ensures
            r.inv(),
            forall|c: Card|
                #[trigger] r.contains_spec(c) == self.sees_all_copies_spec(player_id as int, c),
    {
        let ghost d = self.public_state.discard_pile;
        let ghost fw = self.public_state.firework;
        let mut pile = self.public_state.discard_pile;
        let played = self.public_state.firework.already_played();
        let played_cards = played.iter();
        proof {
            assert forall|c: Card| #[trigger] pile.mult_spec(c) == capped3(d.mult_spec(c)) by {
                d.lemma_mult_bounds(c);
            }
        }
        let mut i: usize = 0;
        while i < played_cards.len()
            invariant
                pile.wf(),
                i <= played_cards@.len(),
                forall|k1: int, k2: int|
                    0 <= k1 < k2 < played_cards@.len() ==> played_cards@[k1] != played_cards@[k2],
                forall|c: Card|
                    played.contains_spec(c) <==> exists|k: int|
                        0 <= k < played_cards@.len() && #[trigger] played_cards@[k] == c,
                forall|c: Card| #[trigger] played.contains_spec(c) == (c.number.rank_spec()
                    <= fw.top_spec(c.color)),
                forall|c: Card|
                    #[trigger] pile.mult_spec(c) == capped3(
                        d.mult_spec(c) + (if exists|k: int|
                            0 <= k < i && #[trigger] played_cards@[k] == c {
                            1int
                        } else {
                            0int
                        }),
                    ),
            decreases played_cards@.len() - i,
        {
            let ghost prev = pile;
            let cc = played_cards[i];
            pile.add_capped(&cc);
            proof {
                d.lemma_mult_bounds(cc);
                assert forall|c: Card|
                    #[trigger] pile.mult_spec(c) == capped3(
                        d.mult_spec(c) + (if exists|k: int|
                            0 <= k < i + 1 && #[trigger] played_cards@[k] == c {
                            1int
                        } else {
                            0int
                        }),
                    ) by {
                    if c == cc {
                        assert(!(exists|k: int| 0 <= k < i && #[trigger] played_cards@[k] == c));
                        assert(played_cards@[i as int] == c);
                    } else {
                        assert(pile.mult_spec(c) == prev.mult_spec(c));
                        assert((exists|k: int| 0 <= k < i + 1 && #[trigger] played_cards@[k] == c)
                            == (exists|k: int| 0 <= k < i && #[trigger] played_cards@[k] == c));
                    }
                }
            }
            i = i + 1;
        }
        proof {
            assert forall|c: Card|
                #[trigger] pile.mult_spec(c) == capped3(
                    d.mult_spec(c) + crate::referee::played_ind(fw, c),
                ) by {
                if c.number.rank_spec() <= fw.top_spec(c.color) {
                    assert(played.contains_spec(c));
                } else {
                    assert(!played.contains_spec(c));
                    assert(!(exists|k: int|
                        0 <= k < played_cards@.len() && #[trigger] played_cards@[k] == c));
                }
            }
        }

        let mut p_id: usize = 0;
        while p_id < self.rules().number_of_players
            invariant
                self.wf(),
                pile.wf(),
                p_id <= self.public_state.rules.number_of_players,
                d == self.public_state.discard_pile,
                fw == self.public_state.firework,
                forall|c: Card|
                    #[trigger] pile.mult_spec(c) == capped3(
                        d.mult_spec(c) + crate::referee::played_ind(fw, c)
                            + self.visible_occ_spec(player_id as int, p_id as int, c),
                    ),
            decreases self.public_state.rules.number_of_players - p_id,
        {
            if p_id != self.player_id && p_id != player_id {
                let n = self.player_states[p_id].cards.current_hand_size;
                let mut pos: usize = 1;
                while pos <= n
                    invariant
                        self.wf(),
                        pile.wf(),
                        p_id < self.player_states@.len(),
                        p_id != self.player_id && p_id != player_id,
                        n == self.player_states@[p_id as int].cards.current_hand_size,
                        1 <= pos <= n + 1,
                        d == self.public_state.discard_pile,
                        fw == self.public_state.firework,
                        forall|c: Card|
                            #[trigger] pile.mult_spec(c) == capped3(
                                d.mult_spec(c) + crate::referee::played_ind(fw, c)
                                    + self.visible_occ_spec(player_id as int, p_id as int, c)
                                    + self.hand_occ_spec(p_id as int, pos - 1, c),
                            ),
                    decreases n + 1 - pos,
                {
                    let ghost prev = pile;
                    let card_id = self.player_states[p_id].cards.get(pos);
                    match self.witnessed(card_id) {
                        Option::Some(card) => {
                            pile.add_capped(&card);
                            proof {
                                d.lemma_mult_bounds(card);
                                assert(self.witnessed_spec(card_id as u64) == Option::Some(card));
                                assert forall|c: Card|
                                    #[trigger] self.hand_occ_spec(p_id as int, pos as int, c)
                                        == self.hand_occ_spec(p_id as int, pos - 1, c) + (if c
                                        == card {
                                        1int
                                    } else {
                                        0int
                                    }) by {}
                                assert forall|c: Card|
                                    c != card implies #[trigger] pile.mult_spec(c)
                                    == prev.mult_spec(c) by {}
                            }
                        },
                        Option::None => {
                            proof {
                                assert(self.witnessed_spec(card_id as u64) is None);
                                assert forall|c: Card|
                                    #[trigger] self.hand_occ_spec(p_id as int, pos as int, c)
                                        == self.hand_occ_spec(p_id as int, pos - 1, c) by {}
                            }
                        },
                    }
                    pos = pos + 1;
                }
                proof {
                    assert forall|c: Card|
                        #[trigger] self.visible_occ_spec(player_id as int, p_id + 1, c)
                            == self.visible_occ_spec(player_id as int, p_id as int, c)
                            + self.hand_occ_spec(
                            p_id as int,
                            self.player_states@[p_id as int].n(),
                            c,
                        ) by {}
                }
            } else {
                proof {
                    assert forall|c: Card|
                        #[trigger] self.visible_occ_spec(player_id as int, p_id + 1, c)
                            == self.visible_occ_spec(player_id as int, p_id as int, c) by {}
                }
            }
            p_id = p_id + 1;
        }

        let r = pile.full_sets();
        proof {
            assert forall|c: Card|
                #[trigger] r.contains_spec(c) == self.sees_all_copies_spec(
                    player_id as int,
                    c,
                ) by {
                let total = d.mult_spec(c) + crate::referee::played_ind(fw, c)
                    + self.visible_occ_spec(
                    player_id as int,
                    self.public_state.rules.number_of_players as int,
                    c,
                );
                assert(pile.mult_spec(c) == capped3(total));
                assert(c.number.copies_spec() <= 3);
                assert((capped3(total) >= c.number.copies_spec()) == (total
                    >= c.number.copies_spec()));
            }
        }
        r
    }

    /// How pressed a seat visibly is to spend a clue rather than act.
    fn stall_severity_of(&self, giver: usize) -> (r: usize)
        requires
            self.wf(),
            giver < self.player_states@.len(),
        ensures
            r == self.stall_severity_spec(giver as int),
    {
        let cand = self.potentially_entertained_candidates_for_touched_in_that_players_own_hand(
            giver,
        );
        let tm = self.touched_in_other_hands_or_more(giver);
        let seen = self.cards_that_player_definitely_sees_all_copies_of(giver);
        let r = self.player_states[giver].stall_severity(&self.public_state, &cand, &tm, &seen);
        proof {
            self.lemma_locked_bridge(giver as int, cand, seen, tm);
        }
        r
    }

    /// The set-valued lock test over sets with the stated memberships agrees
    /// with the predicate-level one.
    proof fn lemma_locked_bridge(self, j: int, cand: CardSet, seen: CardSet, tm: CardSet)
        requires
            self.wf(),
            0 <= j < self.player_states@.len(),
            forall|c: Card| #[trigger] cand.contains_spec(c) == self.candidate_spec(j, c),
            forall|c: Card| #[trigger] seen.contains_spec(c) == self.sees_all_copies_spec(j, c),
            forall|c: Card|
                #[trigger] tm.contains_spec(c) == (self.touched_elsewhere_spec(j, c)
                    || self.possible_touch_spec(c)),
        ensures
            self.player_states@[j].locked_spec(cand, seen, tm, self.public_state.firework)
                == self.locked_for_spec(j),
    {
        let st = self.player_states@[j];
        let fw = self.public_state.firework;
        assert forall|p: int, c: Card|
            st.entertained_spec(p, cand, seen, c) == #[trigger] self.entertained_for_spec(
                j,
                p,
                c,
            ) by {}
        assert forall|p: int|
            st.definitely_aware_playable_at_spec(p, cand, seen, tm, fw)
                == #[trigger] self.aware_playable_at_spec(j, p) by {
            if !st.touched_at(p) {
                if exists|c: Card|
                    #[trigger] st.entertained_spec(p, cand, seen, c) && tm.contains_spec(c) {
                    let w = choose|c: Card|
                        #[trigger] st.entertained_spec(p, cand, seen, c) && tm.contains_spec(c);
                    assert(self.entertained_for_spec(j, p, w) && (self.touched_elsewhere_spec(
                        j,
                        w,
                    ) || self.possible_touch_spec(w)));
                }
                if exists|c: Card|
                    #[trigger] self.entertained_for_spec(j, p, c) && (self.touched_elsewhere_spec(
                        j,
                        c,
                    ) || self.possible_touch_spec(c)) {
                    let w = choose|c: Card|
                        #[trigger] self.entertained_for_spec(j, p, c) && (
                        self.touched_elsewhere_spec(j, c) || self.possible_touch_spec(c));
                    assert(st.entertained_spec(p, cand, seen, w) && tm.contains_spec(w));
                }
            }
            assert forall|c: Card|
                #[trigger] st.entertained_spec(p, cand, seen, c) implies
                self.entertained_for_spec(j, p, c) by {}
            assert forall|c: Card|
                #[trigger] self.entertained_for_spec(j, p, c) implies st.entertained_spec(
                p,
                cand,
                seen,
                c,
            ) by {}
        }
        if exists|p: int|
            1 <= p <= st.n() && #[trigger] st.definitely_aware_playable_at_spec(
                p,
                cand,
                seen,
                tm,
                fw,
            ) {
            let w = choose|p: int|
                1 <= p <= st.n() && #[trigger] st.definitely_aware_playable_at_spec(
                    p,
                    cand,
                    seen,
                    tm,
                    fw,
                );
            assert(self.aware_playable_at_spec(j, w));
        }
        if exists|p: int| 1 <= p <= st.n() && #[trigger] self.aware_playable_at_spec(j, p) {
            let w = choose|p: int|
                1 <= p <= st.n() && #[trigger] self.aware_playable_at_spec(j, p);
            assert(st.definitely_aware_playable_at_spec(w, cand, seen, tm, fw));
        }
    }

    /// Seat `j`'s card at `p` is touched and, from the view this agent keeps
    /// of seat `j`, can only be identity `c`.
    pub open spec fn surely_known_at_spec(self, j: int, p: int, c: Card) -> bool {
        &&& 1 <= p <= self.player_states@[j].n()
        &&& self.player_states@[j].touched_at(p)
        &&& (forall|c2: Card| self.entertained_for_spec(j, p, c2) == (c2 == c))
    }

    /// `c` is a touched card somewhere whose holder has pinned its identity
    /// down to exactly one possibility.
    pub open spec fn surely_known_spec(self, c: Card) -> bool {
        exists|j: int, p: int|
            0 <= j < self.player_states@.len() && #[trigger] self.surely_known_at_spec(j, p, c)
    }

    /// Touched cards anywhere whose identity their holder has pinned down to
    /// exactly one possibility.
    fn all_surely_known_touched_cards_in_hands(&self) -> (r: CardSet)
        requires
            self.wf(),
        ensures
            r.inv(),
            forall|c: Card| #[trigger] r.contains_spec(c) == self.surely_known_spec(c),
    {
        let mut result = CardSet::none();
        let mut j: usize = 0;
        while j < self.player_states.len()
            invariant
                self.wf(),
                result.inv(),
                j <= self.player_states@.len(),
                forall|c: Card|
                    #[trigger] result.contains_spec(c) == exists|j2: int, p2: int|
                        0 <= j2 < j && #[trigger] self.surely_known_at_spec(j2, p2, c),
            decreases self.player_states@.len() - j,
        {
            let candidates =
                self.potentially_entertained_candidates_for_touched_in_that_players_own_hand(j);
            let seen_full = self.cards_that_player_definitely_sees_all_copies_of(j);
            let n = self.player_states[j].cards.current_hand_size;
            let mut pos: usize = 1;
            while pos <= n
                invariant
                    self.wf(),
                    result.inv(),
                    candidates.inv(),
                    seen_full.inv(),
                    forall|c: Card|
                        #[trigger] candidates.contains_spec(c) == self.candidate_spec(j as int, c),
                    forall|c: Card|
                        #[trigger] seen_full.contains_spec(c) == self.sees_all_copies_spec(
                            j as int,
                            c,
                        ),
                    j < self.player_states@.len(),
                    n == self.player_states@[j as int].cards.current_hand_size,
                    1 <= pos <= n + 1,
                    forall|c: Card|
                        #[trigger] result.contains_spec(c) == ((exists|j2: int, p2: int|
                            0 <= j2 < j && #[trigger] self.surely_known_at_spec(j2, p2, c))
                            || (exists|p2: int|
                            1 <= p2 < pos && #[trigger] self.surely_known_at_spec(
                                j as int,
                                p2,
                                c,
                            ))),
                decreases n + 1 - pos,
            {
                let ghost pre = result;
                let card_id = self.player_states[j].cards.get(pos);
                if crate::imap::iset_contains(&self.player_states[j].touched, card_id as u64) {
                    let poss = self.player_states[j].possibilities_self_might_entertain(
                        pos,
                        &candidates,
                        &seen_full,
                    );
                    proof {
                        let st = self.player_states@[j as int];
                        assert forall|c2: Card|
                            #[trigger] poss.contains_spec(c2) == self.entertained_for_spec(
                                j as int,
                                pos as int,
                                c2,
                            ) by {}
                    }
                    match poss.unique() {
                        Option::Some(card) => {
                            result.add(card);
                            proof {
                                assert(self.surely_known_at_spec(j as int, pos as int, card)) by {
                                    assert forall|c2: Card|
                                        self.entertained_for_spec(j as int, pos as int, c2) == (c2
                                            == card) by {
                                        assert(poss.contains_spec(c2) == (c2 == card));
                                    }
                                }
                                assert forall|c: Card, p2: int|
                                    1 <= p2 < pos + 1 && #[trigger] self.surely_known_at_spec(
                                        j as int,
                                        p2,
                                        c,
                                    ) && !(1 <= p2 < pos) implies c == card by {
                                    assert(self.entertained_for_spec(j as int, pos as int, c));
                                }
                            }
                        },
                        Option::None => {
                            proof {
                                assert forall|c: Card|
                                    !(#[trigger] self.surely_known_at_spec(
                                        j as int,
                                        pos as int,
                                        c,
                                    )) by {
                                    if self.surely_known_at_spec(j as int, pos as int, c) {
                                        assert forall|c2: Card|
                                            poss.contains_spec(c2) == (c2 == c) by {
                                            assert(self.entertained_for_spec(
                                                j as int,
                                                pos as int,
                                                c2,
                                            ) == (c2 == c));
                                        }
                                        crate::card_set::lemma_singleton_len(poss, c);
                                    }
                                }
                            }
                        },
                    }
                } else {
                    proof {
                        assert forall|c: Card|
                            !(#[trigger] self.surely_known_at_spec(j as int, pos as int, c)) by {
                            assert(!self.player_states@[j as int].touched_at(pos as int));
                        }
                    }
                }
                pos = pos + 1;
            }
            proof {
                assert forall|c: Card|
                    #[trigger] result.contains_spec(c) == exists|j2: int, p2: int|
                        0 <= j2 < j + 1 && #[trigger] self.surely_known_at_spec(j2, p2, c) by {
                    if exists|j2: int, p2: int|
                        0 <= j2 < j + 1 && #[trigger] self.surely_known_at_spec(j2, p2, c) {
                        let (j2, p2) = choose|j2: int, p2: int|
                            0 <= j2 < j + 1 && #[trigger] self.surely_known_at_spec(j2, p2, c);
                        if j2 == j {
                            assert(1 <= p2 < n + 1);
                        }
                    }
                }
            }
            j = j + 1;
        }
        result
    }

    /// The index of a best option: its assessment ranks at least as high as
    /// every other; among equals the latest wins, as the enumeration order
    /// breaks ties.
    fn best_option(options: &Vec<(ActionAssessment, Action)>) -> (r: usize)
        requires
            options@.len() > 0,
        ensures
            r < options@.len(),
            forall|k: int|
                0 <= k < options@.len() ==> options@[r as int].0.better_eq_spec(
                    (#[trigger] options@[k]).0,
                ),
    {
        let mut best: usize = 0;
        let mut i: usize = 1;
        while i < options.len()
            invariant
                options@.len() > 0,
                best < i,
                i <= options@.len(),
                forall|k: int|
                    0 <= k < i ==> options@[best as int].0.better_eq_spec(
                        (#[trigger] options@[k]).0,
                    ),
            decreases options@.len() - i,
        {
            let cand = &options[i];
            if cand.0.at_least_as_good(&options[best].0) {
                proof {
                    assert forall|k: int|
                        0 <= k < i + 1 implies options@[i as int].0.better_eq_spec(
                        (#[trigger] options@[k]).0,
                    ) by {
                        if k < i {
                            lemma_better_eq_transitive(
                                options@[i as int].0,
                                options@[best as int].0,
                                options@[k].0,
                            );
                        }
                    }
                }
                best = i;
            } else {
                proof {
                    lemma_better_eq_total(options@[i as int].0, options@[best as int].0);
                }
            }
            i = i + 1;
        }
        best
    }
}

/// Weigh a play given what the seat might entertain for the card: if the
/// seat surely knows every entertained identity is playable right now, a
/// conventional play whose guaranteed clue effect is one exactly when every
/// entertained identity is a five; otherwise a last-resort gamble.
fn assess_play_given(
    possibilities: &CardSet,
    is_touched: bool,
    firework: &Firework,
    touched_not_by_me: &CardSet,
) -> (r: ActionAssessment)
    requires
        possibilities.inv(),
        firework.wf(),
    ensures
        ({
            let aware = !(!is_touched && exists|c: Card|
                possibilities.contains_spec(c) && touched_not_by_me.contains_spec(c)) && (
            forall|c: Card|
                #[trigger] possibilities.contains_spec(c) ==> firework.playable_spec(c));
            &&& !r.is_unconventional_spec()
            &&& r.action_type == ActionType::Play
            &&& r.new_touches == 0
            &&& r.delay_until_relevant == 0
            &&& !r.next_player_might_be_locked_with_no_clue
            &&& r.last_resort == !aware
            &&& (aware ==> r.tempo == 1 && r.sure_influence_on_clue_count == (if forall|c: Card|
                #[trigger] possibilities.contains_spec(c) ==> c.number == Number::Five {
                1i8
            } else {
                0i8
            }))
            &&& (!aware ==> r.tempo == 0 && r.sure_influence_on_clue_count == 0)
        }),
{
    let aware = if !is_touched && possibilities.intersects(touched_not_by_me) {
        false
    } else {
        firework.are_all_playable(possibilities)
    };
    if aware {
        let fives = CardSet::with_property(Property::Number(Number::Five));
        let mut others = *possibilities;
        others.exclude(&fives);
        let all_fives = others.is_empty();
        proof {
            if all_fives {
                assert forall|c: Card|
                    #[trigger] possibilities.contains_spec(c) implies c.number
                    == Number::Five by {
                    assert(!others.contains_spec(c));
                    if c.number != Number::Five {
                        assert(!c.satisfies_spec(Property::Number(Number::Five)));
                    }
                }
            } else {
                let w = choose|c: Card| others.contains_spec(c);
                assert(possibilities.contains_spec(w) && w.number != Number::Five) by {
                    assert(!w.satisfies_spec(Property::Number(Number::Five)));
                }
            }
        }
        let sure_influence_on_clue_count: i8 = if all_fives {
            1
        } else {
            0
        };

        return ActionAssessment::new(0, 0, ActionType::Play, sure_influence_on_clue_count, false, 1);
    }

    ActionAssessment::new(0, 0, ActionType::Play, 0, true, 0)
}

/// A faithful copy of hand slots.
fn clone_hand_cards(cards: &crate::player_state::HandCards) -> (r: crate::player_state::HandCards)
    ensures
        r.slots@ == cards.slots@,
        r.current_hand_size == cards.current_hand_size,
{
    let mut slots: Vec<Option<usize>> = Vec::new();
    let mut i: usize = 0;
    while i < cards.slots.len()
        invariant
            i <= cards.slots@.len(),
            slots@ =~= cards.slots@.subrange(0, i as int),
        decreases cards.slots@.len() - i,
    {
        slots.push(cards.slots[i]);
        proof {
            assert(slots@ =~= cards.slots@.subrange(0, i + 1));
        }
        i = i + 1;
    }
    proof {
        assert(slots@ =~= cards.slots@);
    }
    crate::player_state::HandCards { slots, current_hand_size: cards.current_hand_size }
}

/// A faithful copy of the recorded interpretations.
fn clone_interpretations_list(
    list: &Vec<crate::player_state::Interpretations>,
) -> (r: Vec<crate::player_state::Interpretations>)
    ensures
        r@.len() == list@.len(),
{
    let mut r: Vec<crate::player_state::Interpretations> = Vec::new();
    let mut i: usize = 0;
    while i < list.len()
        invariant
            i <= list@.len(),
            r@.len() == i,
        decreases list@.len() - i,
    {
        r.push(list[i].clone());
        i = i + 1;
    }
    r
}

impl Rules {
    /// One heuristic agent per seat: seat `i` gets the agent with
    /// `player_id == i`, a fresh belief state, and these rules.
    pub fn get_basic_player(&self) -> (r: Vec<BasicPlayer>)
        requires
            self.wf(),
        ensures
            r@.len() == self.number_of_players,
            forall|i: int| 0 <= i < r@.len() ==> (#[trigger] r@[i]).inv(),
            forall|i: int|
                0 <= i < r@.len() ==> (#[trigger] r@[i]).player_id == i && r@[i].public_state.rules
                    == *self && r@[i].witnessed_cards@.len() == 0,
    {
        let mut r: Vec<BasicPlayer> = Vec::new();
        let mut id: usize = 0;
        while id < self.number_of_players
            invariant
                self.wf(),
                id <= self.number_of_players,
                r@.len() == id,
                forall|i: int| 0 <= i < r@.len() ==> (#[trigger] r@[i]).inv(),
                forall|i: int|
                    0 <= i < r@.len() ==> (#[trigger] r@[i]).player_id == i
                        && r@[i].public_state.rules == *self && r@[i].witnessed_cards@.len() == 0,
            decreases self.number_of_players - id,
        {
            r.push(BasicPlayer::new(*self, id));
            id = id + 1;
        }
        r
    }
}

impl Player for BasicPlayer {
    open spec fn inv(&self) -> bool {
        self.wf()
    }

    /// Replay an announced action onto this agent's beliefs: a play or
    /// discard retires the announced position's card and applies the public
    /// effect, a hint is interpreted for the receiver and spends a clue;
    /// malformed announcements are ignored rather than trusted.
    fn witness_action(&mut self, action: Action, player: usize)
        ensures
            final(self).player_id == old(self).player_id,
            final(self).public_state.rules == old(self).public_state.rules,
            action matches Action::Hint { receiver, hinted_property, positions } ==> {
                &&& final(self).witnessed_cards@ == old(self).witnessed_cards@
                &&& final(self).public_state.clues == (if old(self).public_state.clues != 0 {
                    old(self).public_state.clues - 1
                } else {
                    0int
                })
                &&& final(self).public_state.strikes == old(self).public_state.strikes
                &&& final(self).public_state.discard_pile == old(self).public_state.discard_pile
                &&& (forall|j: int|
                    0 <= j < old(self).player_states@.len() && j != receiver
                        ==> final(self).player_states@[j] == #[trigger] old(
                        self,
                    ).player_states@[j])
                &&& ((receiver < old(self).player_states@.len() && positions.wf()
                    && positions.hand_size_spec() == old(self).player_states@[receiver as int].n()
                    && !positions.is_empty_spec()) ==> final(self).player_states@[receiver as int].interpretations_some_of_which_self_should_entertain@.len()
                    == old(
                    self,
                ).player_states@[receiver as int].interpretations_some_of_which_self_should_entertain@.len()
                    + 1)
                &&& (!(receiver < old(self).player_states@.len() && positions.wf()
                    && positions.hand_size_spec() == old(self).player_states@[receiver as int].n()
                    && !positions.is_empty_spec()) ==> final(self).player_states@ == old(
                    self,
                ).player_states@)
            },
            action matches Action::Play { card: Option::Some(card), position } ==> {
                &&& (forall|j: int|
                    0 <= j < old(self).player_states@.len() && j != player
                        ==> final(self).player_states@[j] == #[trigger] old(
                        self,
                    ).player_states@[j])
                &&& (player < old(self).player_states@.len() && 1 <= position <= old(
                    self,
                ).player_states@[player as int].n() ==> final(self).player_states@[player as int].n() == old(
                    self,
                ).player_states@[player as int].n() - 1)
                &&& ((old(self).public_state.strikes < 3 && old(
                    self,
                ).public_state.discard_pile.mult_spec(card) <= 2) ==> {
                    &&& (old(self).public_state.firework.playable_spec(card) ==> {
                        &&& final(self).public_state.firework.top_spec(card.color)
                            == card.number.rank_spec()
                        &&& final(self).public_state.discard_pile == old(
                            self,
                        ).public_state.discard_pile
                        &&& final(self).public_state.strikes == old(self).public_state.strikes
                    })
                    &&& (!old(self).public_state.firework.playable_spec(card) ==> {
                        &&& final(self).public_state.firework == old(self).public_state.firework
                        &&& final(self).public_state.strikes == old(self).public_state.strikes
                            + 1
                        &&& final(self).public_state.discard_pile.mult_spec(card) == old(
                            self,
                        ).public_state.discard_pile.mult_spec(card) + 1
                        &&& final(self).public_state.clues == old(self).public_state.clues
                    })
                })
                &&& (!(old(self).public_state.strikes < 3 && old(
                    self,
                ).public_state.discard_pile.mult_spec(card) <= 2) ==> final(self).public_state
                    == old(self).public_state)
            },
            action matches Action::Discard { card: Option::Some(card), position } ==> {
                &&& (forall|j: int|
                    0 <= j < old(self).player_states@.len() && j != player
                        ==> final(self).player_states@[j] == #[trigger] old(
                        self,
                    ).player_states@[j])
                &&& (player < old(self).player_states@.len() && 1 <= position <= old(
                    self,
                ).player_states@[player as int].n() ==> final(self).player_states@[player as int].n() == old(
                    self,
                ).player_states@[player as int].n() - 1)
                &&& ((old(self).public_state.clues < old(self).public_state.rules.max_clues && old(
                    self,
                ).public_state.discard_pile.mult_spec(card) <= 2) ==> {
                    &&& final(self).public_state.clues == old(self).public_state.clues + 1
                    &&& final(self).public_state.discard_pile.mult_spec(card) == old(
                        self,
                    ).public_state.discard_pile.mult_spec(card) + 1
                    &&& final(self).public_state.firework == old(self).public_state.firework
                    &&& final(self).public_state.strikes == old(self).public_state.strikes
                })
                &&& (!(old(self).public_state.clues < old(self).public_state.rules.max_clues
                    && old(self).public_state.discard_pile.mult_spec(card) <= 2) ==> final(self).public_state == old(self).public_state)
            },
            action matches Action::Play { card: Option::None, .. } ==> *final(self) == *old(self),
            action matches Action::Discard { card: Option::None, .. } ==> *final(self) == *old(
                self,
            ),
    {
        match action {
            Action::Play { card: Option::Some(card), position } => {
                self.play_or_discard_card(card, player, position);
                if self.public_state.strikes < 3
                    && self.public_state.discard_pile.can_take_another(&card) {
                    self.public_state.play(card);
                }
            },
            Action::Discard { card: Option::Some(card), position } => {
                self.play_or_discard_card(card, player, position);
                if self.public_state.clues < self.public_state.rules.max_clues
                    && self.public_state.discard_pile.can_take_another(&card) {
                    self.public_state.discard(card);
                }
            },
            Action::Hint { receiver, hinted_property, positions } => {
                if receiver < self.player_states.len() && positions.is_wf()
                    && positions.hand_size()
                    == self.player_states[receiver].cards.current_hand_size
                    && !positions.is_empty() {
                    let giver_stall_severity = if player < self.player_states.len() {
                        self.stall_severity_of(player)
                    } else {
                        0
                    };
                    let surely_known = self.all_surely_known_touched_cards_in_hands();
                    let ghost pre_states = self.player_states@;
                    let public_state_view = self.public_state.clone();
                    let st = &mut self.player_states[receiver];
                    st.fr_apply_hint(
                        hinted_property,
                        positions,
                        &public_state_view,
                        giver_stall_severity,
                        &surely_known,
                    );
                    proof {
                        assert(self.player_states@ =~= pre_states.update(
                            receiver as int,
                            self.player_states@[receiver as int],
                        ));
                    }
                }
                if self.public_state.clues != 0 {
                    self.public_state.hint();
                }
            },
            _ => {},
        }
    }

    /// Record a draw: a fresh id for the card, seen or hidden. The id enters
    /// seat `player`'s hand at position one with every identity possible.
    fn witness_draw(&mut self, player: usize, card: Option<Card>)
        ensures
            final(self).witnessed_cards@ == old(self).witnessed_cards@.push(card),
            final(self).public_state == old(self).public_state,
            final(self).player_id == old(self).player_id,
            final(self).player_states@.len() == old(self).player_states@.len(),
            forall|j: int|
                0 <= j < old(self).player_states@.len() && j != player
                    ==> final(self).player_states@[j] == #[trigger] old(self).player_states@[j],
            player < old(self).player_states@.len() && old(self).player_states@[player as int].n()
                < 5 ==> {
                let st = final(self).player_states@[player as int];
                let id = old(self).witnessed_cards@.len();
                &&& st.n() == old(self).player_states@[player as int].n() + 1
                &&& st.cards.id_at(1) == id
                &&& (forall|c: Card|
                    bit(#[trigger] st.possible_bits(id as u64), c.index_spec() as u32))
            },
            !(player < old(self).player_states@.len() && old(
                self,
            ).player_states@[player as int].n() < 5)
                ==> final(self).player_states@ == old(self).player_states@,
    {
        let id = self.witnessed_cards.len();
        self.witnessed_cards.push(card);
        if player < self.player_states.len()
            && self.player_states[player].cards.current_hand_size < 5 {
            proof {
                let st = self.player_states@[player as int];
                if st.cards.holds_id(id) {
                    assert(st.dom().contains(id as u64));
                }
            }
            let ghost pre_states = self.player_states@;
            let st = &mut self.player_states[player];
            st.add_card(id);
            proof {
                assert(self.player_states@ =~= pre_states.update(
                    player as int,
                    self.player_states@[player as int],
                ));
            }
        }
    }

    /// Choose this seat's action: enumerate plays, hints and discards,
    /// drop the unconventional ones, project each on the next seat, and take
    /// the highest-ranked; with no conventional candidate, fall back to
    /// discarding the chop.
    fn request_action(&self) -> (r: Action)
        ensures
            valid_candidate_spec(*self, r),
            self.player_states@[self.player_id as int].n() >= 1 ==> self.enumerated_candidate_spec(
                r,
            ),
    {
        let mut options: Vec<(ActionAssessment, Action)> = Vec::new();

        let plays = self.assess_plays_this_player();
        let mut i: usize = 0;
        while i < plays.len()
            invariant
                self.wf(),
                i <= plays@.len(),
                plays@.len() == self.player_states@[self.player_id as int].n(),
                options@.len() == i,
                forall|k: int|
                    0 <= k < plays@.len() ==> (#[trigger] plays@[k]).1 == (Action::Play {
                        card: Option::None,
                        position: (k + 1) as usize,
                    }),
                forall|k: int|
                    0 <= k < plays@.len() ==> !(#[trigger] plays@[k]).0.is_unconventional_spec(),
                forall|k: int|
                    0 <= k < options@.len() ==> valid_candidate_spec(
                        *self,
                        (#[trigger] options@[k]).1,
                    ),
                forall|k: int|
                    0 <= k < options@.len() ==> self.enumerated_candidate_spec(
                        (#[trigger] options@[k]).1,
                    ),
                forall|k: int|
                    0 <= k < options@.len() ==> !(#[trigger] options@[k]).0.is_unconventional_spec(),
            decreases plays@.len() - i,
        {
            options.push(plays[i]);
            i = i + 1;
        }
        let ghost n_plays = options@.len() as int;

        if self.public_state.clues != 0 {
            let hints = self.assess_hints_this_player();
            let mut j: usize = 0;
            while j < hints.len()
                invariant
                    self.wf(),
                    self.public_state.clues != 0,
                    j <= hints@.len(),
                    forall|k: int|
                        0 <= k < hints@.len() ==> ({
                            &&& (#[trigger] hints@[k]).1 matches Action::Hint {
                                receiver,
                                hinted_property,
                                positions,
                            } && receiver < self.player_states@.len() && receiver
                                != self.player_id && positions.wf() && !positions.is_empty_spec()
                                && positions.hand_size_spec() == self.player_states@[
                                receiver as int].n() && self.true_partition_spec(
                                receiver as int,
                                hinted_property,
                                positions,
                            )
                        }),
                    n_plays <= options@.len(),
                    forall|k: int|
                        0 <= k < n_plays ==> !(#[trigger] options@[k]).0.is_unconventional_spec(),
                    forall|k: int|
                        0 <= k < options@.len() ==> valid_candidate_spec(
                            *self,
                            (#[trigger] options@[k]).1,
                        ),
                    forall|k: int|
                        0 <= k < options@.len() ==> self.enumerated_candidate_spec(
                            (#[trigger] options@[k]).1,
                        ),
                decreases hints@.len() - j,
            {
                options.push(hints[j]);
                j = j + 1;
            }
        }

        if self.public_state.clues != self.public_state.rules.max_clues {
            let discards = self.assedd_discards_this_player();
            let mut j: usize = 0;
            while j < discards.len()
                invariant
                    self.wf(),
                    j <= discards@.len(),
                    self.public_state.clues != self.public_state.rules.max_clues,
                    discards@.len() == self.player_states@[self.player_id as int].n(),
                    forall|k: int|
                        0 <= k < discards@.len() ==> (#[trigger] discards@[k]).1 == (
                        Action::Discard { card: Option::None, position: (k + 1) as usize }),
                    n_plays <= options@.len(),
                    forall|k: int|
                        0 <= k < n_plays ==> !(#[trigger] options@[k]).0.is_unconventional_spec(),
                    forall|k: int|
                        0 <= k < options@.len() ==> valid_candidate_spec(
                            *self,
                            (#[trigger] options@[k]).1,
                        ),
                    forall|k: int|
                        0 <= k < options@.len() ==> self.enumerated_candidate_spec(
                            (#[trigger] options@[k]).1,
                        ),
                decreases discards@.len() - j,
            {
                options.push(discards[j]);
                j = j + 1;
            }
        }

        let mut conventional: Vec<(ActionAssessment, Action)> = Vec::new();
        let mut j: usize = 0;
        while j < options.len()
            invariant
                self.wf(),
                j <= options@.len(),
                n_plays <= options@.len(),
                n_plays == self.player_states@[self.player_id as int].n(),
                forall|k: int|
                    0 <= k < n_plays ==> !(#[trigger] options@[k]).0.is_unconventional_spec(),
                forall|k: int|
                    0 <= k < options@.len() ==> valid_candidate_spec(
                        *self,
                        (#[trigger] options@[k]).1,
                    ),
                forall|k: int|
                    0 <= k < options@.len() ==> self.enumerated_candidate_spec(
                        (#[trigger] options@[k]).1,
                    ),
                forall|k: int|
                    0 <= k < conventional@.len() ==> valid_candidate_spec(
                        *self,
                        (#[trigger] conventional@[k]).1,
                    ),
                forall|k: int|
                    0 <= k < conventional@.len() ==> self.enumerated_candidate_spec(
                        (#[trigger] conventional@[k]).1,
                    ),
                (exists|k: int|
                    0 <= k < j && !(#[trigger] options@[k]).0.is_unconventional_spec())
                    ==> conventional@.len() > 0,
            decreases options@.len() - j,
        {
            if !*options[j].0.is_unconventional() {
                conventional.push(options[j]);
            }
            j = j + 1;
        }

        if conventional.len() == 0 {
            proof {
                if self.player_states@[self.player_id as int].n() >= 1 {
                    assert(!options@[0].0.is_unconventional_spec());
                    assert(false);
                }
            }
            let chop = self.player_states[self.player_id].chop_position();
            let position = match chop {
                Option::Some(p) => p,
                Option::None => 1,
            };
            return Action::Discard { card: Option::None, position };
        }

        let mut assessed: Vec<(ActionAssessment, Action)> = Vec::new();
        let mut j: usize = 0;
        while j < conventional.len()
            invariant
                self.wf(),
                j <= conventional@.len(),
                assessed@.len() == j,
                forall|k: int|
                    0 <= k < conventional@.len() ==> valid_candidate_spec(
                        *self,
                        (#[trigger] conventional@[k]).1,
                    ),
                forall|k: int|
                    0 <= k < assessed@.len() ==> valid_candidate_spec(
                        *self,
                        (#[trigger] assessed@[k]).1,
                    ),
                forall|k: int|
                    0 <= k < conventional@.len() ==> self.enumerated_candidate_spec(
                        (#[trigger] conventional@[k]).1,
                    ),
                forall|k: int|
                    0 <= k < assessed@.len() ==> self.enumerated_candidate_spec(
                        (#[trigger] assessed@[k]).1,
                    ),
            decreases conventional@.len() - j,
        {
            let action = conventional[j].1;
            let mut assessment = conventional[j].0;
            self.apply_hypothetical(action, &mut assessment);
            assessed.push((assessment, action));
            j = j + 1;
        }

        let best = Self::best_option(&assessed);
        assessed[best].1
    }
}

/// A candidate action this agent may later project hypothetically.
pub open spec fn valid_candidate_spec(bp: BasicPlayer, action: Action) -> bool {
    match action {
        Action::Play { card, .. } => card is None,
        Action::Discard { card, .. } => card is None,
        Action::Hint { receiver, hinted_property, positions } => {
            &&& bp.public_state.clues != 0
            &&& receiver < bp.player_states@.len()
            &&& positions.wf()
            &&& !positions.is_empty_spec()
            &&& positions.hand_size_spec() == bp.player_states@[receiver as int].n()
        },
    }
}

} // verus!
