//! One seat's belief model: hand slots with stable card ids, hint-derived
//! possibility sets, touched ids, and the recorded hint interpretations.

use vstd::prelude::*;

use indexmap::IndexMap;
use indexmap::IndexSet;

use crate::card::{Card, Number, Property};
use crate::card_set::{bit, CardSet};
use crate::firework::Firework;
use crate::imap::{
    imap_clone, imap_entries, imap_get, imap_insert, imap_new, imap_pairs, imap_swap_remove,
    iset_contains, iset_contents, iset_insert, iset_new, iset_swap_remove,
};
use crate::player::{chop_spec, PositionSet};
use crate::public_state::PublicState;

verus! {

/// Fixed-capacity ordered hand slots holding stable card ids; occupied slots
/// are contiguous from position 1.
pub struct HandCards {
    pub slots: Vec<Option<usize>>,
    pub current_hand_size: usize,
}

impl HandCards {
    pub open spec fn wf(self) -> bool {
        &&& self.slots@.len() == 6
        &&& self.current_hand_size <= 5
        &&& forall|p: int|
            1 <= p <= self.current_hand_size ==> (#[trigger] self.slots@[p]) is Some
        &&& forall|p: int|
            0 <= p < 6 && !(1 <= p <= self.current_hand_size) ==> (#[trigger] self.slots@[p])
                is None
        &&& forall|p: int, q: int|
            1 <= p < q <= self.current_hand_size ==> self.slots@[p] != self.slots@[q]
    }

    /// The id held at a 1-based position.
    pub open spec fn id_at(self, p: int) -> usize {
        self.slots@[p]->0
    }

    /// Whether some position holds the id.
    pub open spec fn holds_id(self, id: usize) -> bool {
        exists|p: int| 1 <= p <= self.current_hand_size && #[trigger] self.id_at(p) == id
    }

    pub fn new() -> (r: Self)
        ensures
            r.wf(),
            r.current_hand_size == 0,
    {
        let mut slots: Vec<Option<usize>> = Vec::new();
        let mut i: usize = 0;
        while i < 6
            invariant
                i <= 6,
                slots@.len() == i,
                forall|p: int| 0 <= p < i ==> (#[trigger] slots@[p]) is None,
            decreases 6 - i,
        {
            slots.push(Option::None);
            i = i + 1;
        }
        Self { slots, current_hand_size: 0 }
    }

    /// A newly drawn card enters at position 1; the others shift up.
    pub fn add_card(&mut self, id: usize)
        requires
            old(self).wf(),
            old(self).current_hand_size < 5,
            !old(self).holds_id(id),
        ensures
            final(self).wf(),
            final(self).current_hand_size == old(self).current_hand_size + 1,
            final(self).id_at(1) == id,
            forall|p: int|
                2 <= p <= final(self).current_hand_size ==> #[trigger] final(self).id_at(p)
                    == old(self).id_at(p - 1),
            forall|id2: usize|
                #[trigger] final(self).holds_id(id2) == (old(self).holds_id(id2) || id2 == id),
    {
        let n = self.current_hand_size;
        let mut p: usize = n;
        while p >= 1
            invariant
                old(self).wf(),
                p <= n,
                n == old(self).current_hand_size,
                n < 5,
                self.current_hand_size == n,
                self.slots@.len() == 6,
                forall|q: int| 1 <= q <= p ==> #[trigger] self.slots@[q] == old(self).slots@[q],
                forall|q: int|
                    p + 2 <= q <= n + 1 ==> #[trigger] self.slots@[q] == old(self).slots@[q - 1],
                forall|q: int|
                    0 <= q < 6 && !(1 <= q <= n + 1) ==> (#[trigger] self.slots@[q]) is None,
                self.slots@[0] is None,
            decreases p,
        {
            let v = self.slots[p];
            self.slots[p + 1] = v;
            p = p - 1;
        }
        self.slots[1] = Option::Some(id);
        self.current_hand_size = n + 1;
        proof {
            assert forall|id2: usize|
                #[trigger] self.holds_id(id2) == (old(self).holds_id(id2) || id2 == id) by {
                assert(self.id_at(1) == id);
                if old(self).holds_id(id2) {
                    let q = choose|q: int|
                        1 <= q <= old(self).current_hand_size && #[trigger] old(self).id_at(q)
                            == id2;
                    assert(self.id_at(q + 1) == id2);
                }
                if self.holds_id(id2) && id2 != id {
                    let q = choose|q: int|
                        1 <= q <= self.current_hand_size && #[trigger] self.id_at(q) == id2;
                    assert(q >= 2);
                    assert(old(self).id_at(q - 1) == id2);
                }
            }
            assert forall|p2: int, q2: int|
                1 <= p2 < q2 <= self.current_hand_size implies self.slots@[p2]
                != self.slots@[q2] by {
                if p2 == 1 {
                    assert(self.id_at(q2) == old(self).id_at(q2 - 1));
                    assert(old(self).holds_id(old(self).id_at(q2 - 1)));
                }
            }
        }
    }

    /// Take out the id at a 1-based position; later cards shift down.
    pub fn play_or_discard_card(&mut self, position: usize) -> (r: usize)
        requires
            old(self).wf(),
            1 <= position <= old(self).current_hand_size,
        ensures
            final(self).wf(),
            r == old(self).id_at(position as int),
            final(self).current_hand_size == old(self).current_hand_size - 1,
            forall|p: int|
                1 <= p < position ==> #[trigger] final(self).id_at(p) == old(self).id_at(p),
            forall|p: int|
                position <= p <= final(self).current_hand_size ==> #[trigger] final(self).id_at(
                    p,
                ) == old(self).id_at(p + 1),
            forall|id2: usize|
                #[trigger] final(self).holds_id(id2) == (old(self).holds_id(id2) && id2 != old(
                    self,
                ).id_at(position as int)),
    {
        let n = self.current_hand_size;
        let removed = match self.slots[position] {
            Option::Some(id) => id,
            Option::None => {
                proof {
                    assert(false);
                }
                0
            },
        };
        let mut p: usize = position;
        while p < n
            invariant
                old(self).wf(),
                position <= p <= n,
                n == old(self).current_hand_size,
                1 <= position <= n,
                self.current_hand_size == n,
                self.slots@.len() == 6,
                forall|q: int|
                    0 <= q < position ==> #[trigger] self.slots@[q] == old(self).slots@[q],
                forall|q: int|
                    position <= q < p ==> #[trigger] self.slots@[q] == old(self).slots@[q + 1],
                forall|q: int| (p as int) <= q < 6 ==> #[trigger] self.slots@[q] == old(self).slots@[q],
            decreases n - p,
        {
            let v = self.slots[p + 1];
            self.slots[p] = v;
            p = p + 1;
        }
        self.slots[n] = Option::None;
        self.current_hand_size = n - 1;
        proof {
            assert(removed == old(self).id_at(position as int));
            assert forall|id2: usize|
                #[trigger] self.holds_id(id2) == (old(self).holds_id(id2) && id2 != old(
                    self,
                ).id_at(position as int)) by {
                if self.holds_id(id2) {
                    let q = choose|q: int|
                        1 <= q <= self.current_hand_size && #[trigger] self.id_at(q) == id2;
                    if q < position {
                        assert(old(self).id_at(q) == id2);
                    } else {
                        assert(old(self).id_at(q + 1) == id2);
                    }
                }
                if old(self).holds_id(id2) && id2 != old(self).id_at(position as int) {
                    let q = choose|q: int|
                        1 <= q <= old(self).current_hand_size && #[trigger] old(self).id_at(q)
                            == id2;
                    if q < position {
                        assert(self.id_at(q) == id2);
                    } else {
                        assert(q > position);
                        assert(self.id_at(q - 1) == id2);
                    }
                }
            }
        }
        removed
    }

    /// The id at a 1-based position.
    pub fn get(&self, position: usize) -> (r: usize)
        requires
            self.wf(),
            1 <= position <= self.current_hand_size,
        ensures
            r == self.id_at(position as int),
    {
        match self.slots[position] {
            Option::Some(id) => id,
            Option::None => {
                proof {
                    assert(false);
                }
                0
            },
        }
    }
}

/// One inferred hypothesis: a map from card ids to the identities the hint
/// would allow for them, stored as raw masks.
pub struct Interpretation {
    pub card_id_to_possibilities: IndexMap<u64, u64>,
}

impl Interpretation {
    /// Whether every restriction of the hypothesis holds of the real cards.
    pub open spec fn is_true_spec(self, witnessed: Seq<Option<Card>>) -> bool {
        forall|k: u64|
            #[trigger] imap_entries(self.card_id_to_possibilities).dom().contains(k) ==> {
                &&& k < witnessed.len()
                &&& witnessed[k as int] matches Option::Some(c) && bit(
                    imap_entries(self.card_id_to_possibilities)[k] as u32,
                    c.index_spec() as u32,
                )
            }
    }

    /// Whether this hypothesis matches the real cards; a restriction on a
    /// card nobody has seen counts as a mismatch.
    fn is_true(&self, witnessed_cards: &Vec<Option<Card>>) -> (r: bool)
        ensures
            r == self.is_true_spec(witnessed_cards@),
    {
        let pairs = imap_pairs(&self.card_id_to_possibilities);
        let mut i: usize = 0;
        while i < pairs.len()
            invariant
                forall|j: int|
                    0 <= j < pairs@.len() ==> imap_entries(
                        self.card_id_to_possibilities,
                    ).contains_pair((#[trigger] pairs@[j]).0, pairs@[j].1),
                forall|k: u64|
                    imap_entries(self.card_id_to_possibilities).dom().contains(k)
                        ==> exists|j: int| 0 <= j < pairs@.len() && (#[trigger] pairs@[j]).0 == k,
                i <= pairs@.len(),
                forall|j: int|
                    0 <= j < i ==> {
                        let k = (#[trigger] pairs@[j]).0;
                        &&& k < witnessed_cards@.len()
                        &&& witnessed_cards@[k as int] matches Option::Some(c) && bit(
                            pairs@[j].1 as u32,
                            c.index_spec() as u32,
                        )
                    },
            decreases pairs@.len() - i,
        {
            let (k, v) = pairs[i];
            let ku = k as usize;
            if k >= (witnessed_cards.len() as u64) {
                proof {
                    assert(imap_entries(self.card_id_to_possibilities).dom().contains(k));
                }
                return false;
            }
            match witnessed_cards[ku] {
                Option::Some(c) => {
                    let set = CardSet::from_bits(v as u32);
                    if !set.contains(c) {
                        proof {
                            assert(imap_entries(self.card_id_to_possibilities).dom().contains(k));
                        }
                        return false;
                    }
                },
                Option::None => {
                    proof {
                        assert(imap_entries(self.card_id_to_possibilities).dom().contains(k));
                    }
                    return false;
                },
            }
            i = i + 1;
        }
        proof {
            assert forall|k: u64|
                #[trigger] imap_entries(self.card_id_to_possibilities).dom().contains(
                    k,
                ) implies {
                &&& k < witnessed_cards@.len()
                &&& witnessed_cards@[k as int] matches Option::Some(c) && bit(
                    imap_entries(self.card_id_to_possibilities)[k] as u32,
                    c.index_spec() as u32,
                )
            } by {
                let j = choose|j: int|
                    0 <= j < pairs@.len() && (#[trigger] pairs@[j]).0 == k;
                assert(imap_entries(self.card_id_to_possibilities).contains_pair(
                    pairs@[j].0,
                    pairs@[j].1,
                ));
            }
        }
        true
    }
}

impl Interpretation {
    /// The hypothesis that carries no inference at all.
    pub fn no_additional_info() -> (r: Self)
        ensures
            imap_entries(r.card_id_to_possibilities).dom() =~= Set::empty(),
    {
        Interpretation { card_id_to_possibilities: imap_new() }
    }
}

impl Clone for Interpretation {
    /// The copy restricts the same cards in the same way.
    fn clone(&self) -> (r: Self)
        ensures
            imap_entries(r.card_id_to_possibilities) == imap_entries(
                self.card_id_to_possibilities,
            ),
    {
        Interpretation { card_id_to_possibilities: imap_clone(&self.card_id_to_possibilities) }
    }
}

/// A non-empty disjunction of hypotheses about what one hint meant.
pub struct Interpretations {
    pub ors: Vec<Interpretation>,
}

impl Interpretations {
    /// Wrap a disjunction; an empty list is no interpretation at all.
    pub fn new(ors: Vec<Interpretation>) -> (r: Option<Self>)
        ensures
            ors@.len() == 0 <==> r is None,
            r matches Option::Some(inters) ==> inters.ors@ == ors@,
    {
        if ors.len() == 0 {
            Option::None
        } else {
            Option::Some(Self { ors })
        }
    }

    /// The single hypothesis, if the disjunction has collapsed to one branch.
    pub fn unique_interpretation(&self) -> (r: Option<&Interpretation>)
        ensures
            (r is Some) == (self.ors@.len() == 1),
            r matches Option::Some(inter) ==> *inter == self.ors@[0],
    {
        if self.ors.len() == 1 {
            Option::Some(&self.ors[0])
        } else {
            Option::None
        }
    }

    /// The first hypothesis that matches the real cards, if any; the result
    /// restricts the same cards in the same way as that matching branch.
    pub fn get_truth(&self, witnessed_cards: &Vec<Option<Card>>) -> (r: Option<Interpretation>)
        ensures
            (r is Some) == exists|j: int|
                0 <= j < self.ors@.len() && (#[trigger] self.ors@[j]).is_true_spec(
                    witnessed_cards@,
                ),
            r matches Option::Some(inter) ==> exists|j: int|
                0 <= j < self.ors@.len() && (#[trigger] self.ors@[j]).is_true_spec(
                    witnessed_cards@,
                ) && imap_entries(inter.card_id_to_possibilities) == imap_entries(
                    self.ors@[j].card_id_to_possibilities,
                ),
    {
        let mut i: usize = 0;
        while i < self.ors.len()
            invariant
                i <= self.ors@.len(),
                forall|j: int|
                    0 <= j < i ==> !(#[trigger] self.ors@[j]).is_true_spec(witnessed_cards@),
            decreases self.ors@.len() - i,
        {
            if self.ors[i].is_true(witnessed_cards) {
                return Option::Some(self.ors[i].clone());
            }
            i = i + 1;
        }
        Option::None
    }
}

impl Clone for Interpretations {
    /// The copy holds the same number of branches, restricting alike.
    fn clone(&self) -> (r: Self)
        ensures
            r.ors@.len() == self.ors@.len(),
            forall|j: int|
                0 <= j < self.ors@.len() ==> imap_entries(
                    (#[trigger] r.ors@[j]).card_id_to_possibilities,
                ) == imap_entries(self.ors@[j].card_id_to_possibilities),
    {
        let mut ors: Vec<Interpretation> = Vec::new();
        let mut i: usize = 0;
        while i < self.ors.len()
            invariant
                i <= self.ors@.len(),
                ors@.len() == i,
                forall|j: int|
                    0 <= j < i ==> imap_entries(
                        (#[trigger] ors@[j]).card_id_to_possibilities,
                    ) == imap_entries(self.ors@[j].card_id_to_possibilities),
            decreases self.ors@.len() - i,
        {
            ors.push(self.ors[i].clone());
            i = i + 1;
        }
        Interpretations { ors }
    }
}

/// What a hint allows the focus card to be: an identity playable now or
/// once the surely known touched cards reach the table, or, when the chop is
/// focused, a critical save, or any card of a hinted save rank (two or five).
pub open spec fn focus_restriction_spec(
    state: PublicState,
    known: CardSet,
    prop: Property,
    chop_focused: bool,
    c: Card,
) -> bool {
    ||| c.number.rank_spec() == crate::firework::ext_top_from(
        state.firework.top_spec(c.color),
        known,
        c.color,
    ) + 1
    ||| (chop_focused && state.critical_save_spec(c))
    ||| (chop_focused && (prop == Property::Number(Number::Two) || prop == Property::Number(
        Number::Five,
    )) && c.satisfies_spec(prop))
}

/// One seat's belief model.
pub struct PlayerState {
    pub cards: HandCards,
    pub objectively_possible_cards_according_to_hints: IndexMap<u64, u64>,
    pub touched: IndexSet<u64>,
    pub interpretations_some_of_which_self_should_entertain: Vec<Interpretations>,
}

impl PlayerState {
    pub open spec fn n(self) -> int {
        self.cards.current_hand_size as int
    }

    pub open spec fn dom(self) -> Set<u64> {
        imap_entries(self.objectively_possible_cards_according_to_hints).dom()
    }

    /// The hint-derived possibility mask of a held card id.
    pub open spec fn possible_bits(self, k: u64) -> u32 {
        imap_entries(self.objectively_possible_cards_according_to_hints)[k] as u32
    }

    /// Whether the card at position `p` has been touched by a hint.
    pub open spec fn touched_at(self, p: int) -> bool {
        iset_contents(self.touched).contains(self.cards.id_at(p) as u64)
    }

    /// `p` is the convention chop: the biggest untouched position.
    pub open spec fn chop_at(self, p: int) -> bool {
        &&& 1 <= p <= self.n()
        &&& !self.touched_at(p)
        &&& forall|q: int| p < q <= self.n() ==> self.touched_at(q)
    }

    /// Every hinted position was already touched before the hint.
    pub open spec fn hinted_all_touched(self, positions: PositionSet) -> bool {
        forall|p: int| positions.contains_spec(p) ==> self.touched_at(p)
    }

    /// The position a hint's inference lands on, by the focus convention.
    pub open spec fn is_focus_spec(self, positions: PositionSet, fp: int) -> bool {
        if self.hinted_all_touched(positions) {
            positions.is_smallest_spec(fp)
        } else if exists|p: int| self.chop_at(p) && positions.contains_spec(p) {
            self.chop_at(fp) && positions.contains_spec(fp)
        } else {
            positions.contains_spec(fp) && !self.touched_at(fp) && (forall|q: int|
                positions.contains_spec(q) && !self.touched_at(q) ==> fp <= q)
        }
    }

    /// Whether this seat itself might still entertain identity `c` for the
    /// card at position `p`: allowed by every hint, not a visible full set,
    /// allowed by every recorded interpretation whose disjunction has
    /// collapsed to one branch mentioning the card, and, exactly when the
    /// card is touched, among the good-touch candidates.
    /// Every recorded interpretation whose disjunction has collapsed to one
    /// branch mentioning card id `id` allows identity `c` for it.
    pub open spec fn interp_allows_spec(self, id: u64, c: Card) -> bool {
        forall|j: int|
            0 <= j < self.interpretations_some_of_which_self_should_entertain@.len() && (
            #[trigger] self.interpretations_some_of_which_self_should_entertain@[j]).ors@.len()
                == 1 && imap_entries(
                self.interpretations_some_of_which_self_should_entertain@[j].ors@[0].card_id_to_possibilities,
            ).dom().contains(id) ==> bit(
                imap_entries(
                    self.interpretations_some_of_which_self_should_entertain@[j].ors@[0].card_id_to_possibilities,
                )[id] as u32,
                c.index_spec() as u32,
            )
    }

    pub open spec fn entertained_spec(
        self,
        p: int,
        candidates: CardSet,
        seen_full: CardSet,
        c: Card,
    ) -> bool {
        let id = self.cards.id_at(p) as u64;
        &&& bit(self.possible_bits(id), c.index_spec() as u32)
        &&& !seen_full.contains_spec(c)
        &&& self.interp_allows_spec(id, c)
        &&& (self.touched_at(p) ==> candidates.contains_spec(c))
    }

    /// Whether this seat surely knows the card at `p` is playable right now:
    /// it entertains no identity that is touched in a hand it cannot rule
    /// out (unless the card itself is touched), and every identity it
    /// entertains extends its pile.
    pub open spec fn definitely_aware_playable_at_spec(
        self,
        p: int,
        candidates: CardSet,
        seen_full: CardSet,
        touched_more: CardSet,
        firework: Firework,
    ) -> bool {
        &&& !(!self.touched_at(p) && exists|c: Card|
            #[trigger] self.entertained_spec(p, candidates, seen_full, c)
                && touched_more.contains_spec(c))
        &&& (forall|c: Card|
            #[trigger] self.entertained_spec(p, candidates, seen_full, c)
                ==> firework.playable_spec(c))
    }

    pub open spec fn wf(self) -> bool {
        &&& self.cards.wf()
        &&& forall|p: int|
            1 <= p <= self.n() ==> self.dom().contains(#[trigger] self.cards.id_at(p) as u64)
        &&& forall|k: u64|
            #[trigger] self.dom().contains(k) ==> self.cards.holds_id(k as usize) && (
            k as usize) as u64 == k
        &&& forall|k: u64|
            self.dom().contains(k) ==> #[trigger] imap_entries(
                self.objectively_possible_cards_according_to_hints,
            )[k] < 0x2000000
        &&& forall|k: u64|
            #[trigger] iset_contents(self.touched).contains(k) ==> self.dom().contains(k)
    }

    /// An empty belief state for a seat whose hand is not yet dealt.
    pub fn new() -> (r: Self)
        ensures
            r.wf(),
            r.n() == 0,
            r.interpretations_some_of_which_self_should_entertain@.len() == 0,
            forall|k: u64| !(#[trigger] iset_contents(r.touched).contains(k)),
    {
        let r = Self {
            cards: HandCards::new(),
            objectively_possible_cards_according_to_hints: imap_new(),
            touched: iset_new(),
            interpretations_some_of_which_self_should_entertain: Vec::new(),
        };
        r
    }

    /// A newly drawn card: it enters at position 1 with every identity
    /// possible.
    pub fn add_card(&mut self, id: usize)
        requires
            old(self).wf(),
            old(self).n() < 5,
            !old(self).cards.holds_id(id),
        ensures
            final(self).wf(),
            final(self).n() == old(self).n() + 1,
            final(self).cards.id_at(1) == id,
            forall|p: int|
                2 <= p <= final(self).n() ==> #[trigger] final(self).cards.id_at(p) == old(
                    self,
                ).cards.id_at(p - 1),
            final(self).dom() =~= old(self).dom().insert(id as u64),
            forall|c: Card| bit(final(self).possible_bits(id as u64), c.index_spec() as u32),
            forall|k: u64|
                k != id as u64 && old(self).dom().contains(k) ==> final(self).possible_bits(k)
                    == old(self).possible_bits(k),
            iset_contents(final(self).touched) == iset_contents(old(self).touched),
            final(self).interpretations_some_of_which_self_should_entertain@ == old(
                self,
            ).interpretations_some_of_which_self_should_entertain@,
    {
        proof {
            if old(self).dom().contains(id as u64) {
                assert(old(self).cards.holds_id((id as u64) as usize));
                assert((id as u64) as usize == id);
            }
        }
        self.cards.add_card(id);
        let all = CardSet::all();
        let previous = imap_insert(
            &mut self.objectively_possible_cards_according_to_hints,
            id as u64,
            all.to_bits() as u64,
        );
        proof {
            assert(previous is None);
            assert forall|c: Card| bit(
                self.possible_bits(id as u64),
                c.index_spec() as u32,
            ) by {
                assert(all.contains_spec(c));
            }
            assert forall|p: int|
                1 <= p <= self.n() implies self.dom().contains(
                #[trigger] self.cards.id_at(p) as u64,
            ) by {
                if p >= 2 {
                    assert(self.cards.id_at(p) == old(self).cards.id_at(p - 1));
                }
            }
            assert forall|k: u64|
                #[trigger] self.dom().contains(k) implies self.cards.holds_id(k as usize) by {
                if k != id as u64 {
                    assert(old(self).dom().contains(k));
                    assert(self.cards.holds_id(k as usize));
                } else {
                    assert(self.cards.holds_id(id));
                    assert(k as usize == id);
                }
            }
            assert(self.wf());
        }
    }

    /// A played or discarded card leaves; its id is retired.
    pub fn play_or_discard_card(&mut self, position: usize)
        requires
            old(self).wf(),
            1 <= position <= old(self).n(),
        ensures
            final(self).wf(),
            final(self).n() == old(self).n() - 1,
            forall|p: int|
                1 <= p < position ==> #[trigger] final(self).cards.id_at(p) == old(
                    self,
                ).cards.id_at(p),
            forall|p: int|
                position <= p <= final(self).n() ==> #[trigger] final(self).cards.id_at(p)
                    == old(self).cards.id_at(p + 1),
            final(self).dom() =~= old(self).dom().remove(
                old(self).cards.id_at(position as int) as u64,
            ),
            iset_contents(final(self).touched) =~= iset_contents(old(self).touched).remove(
                old(self).cards.id_at(position as int) as u64,
            ),
    {
        let id = self.cards.play_or_discard_card(position);
        let removed = imap_swap_remove(
            &mut self.objectively_possible_cards_according_to_hints,
            id as u64,
        );
        proof {
            assert(removed is Some);
        }
        iset_swap_remove(&mut self.touched, id as u64);
        proof {
            assert forall|p: int|
                1 <= p <= self.n() implies self.dom().contains(
                #[trigger] self.cards.id_at(p) as u64,
            ) by {
                if p < position {
                    assert(self.cards.id_at(p) == old(self).cards.id_at(p));
                } else {
                    assert(self.cards.id_at(p) == old(self).cards.id_at(p + 1));
                }
                assert(self.cards.id_at(p) != id);
            }
            assert forall|k: u64|
                #[trigger] self.dom().contains(k) implies self.cards.holds_id(k as usize) by {
                assert(old(self).dom().contains(k));
                assert(old(self).cards.holds_id(k as usize));
                assert(k as usize != id);
            }
            assert(self.wf());
        }
    }

    /// The convention chop: the biggest untouched position, if any.
    pub fn chop_position(&self) -> (r: Option<usize>)
        requires
            self.wf(),
        ensures
            r matches Option::Some(p) ==> self.chop_at(p as int),
            r is None <==> (forall|p: int| 1 <= p <= self.n() ==> self.touched_at(p)),
    {
        let n = self.cards.current_hand_size;
        let mut pos: usize = n;
        while pos >= 1
            invariant
                self.wf(),
                pos <= n,
                n == self.cards.current_hand_size,
                forall|q: int| (pos as int) < q <= n ==> self.touched_at(q),
            decreases pos,
        {
            let id = self.cards.get(pos);
            if !iset_contains(&self.touched, id as u64) {
                proof {
                    assert(!self.touched_at(pos as int));
                }
                return Option::Some(pos);
            }
            proof {
                assert(self.touched_at(pos as int));
            }
            pos = pos - 1;
        }
        Option::None
    }

    /// The set of positions the hints have touched so far.
    pub fn touched_positions(&self) -> (r: PositionSet)
        requires
            self.wf(),
        ensures
            r.wf(),
            r.hand_size_spec() == self.n(),
            forall|p: int|
                #[trigger] r.contains_spec(p) == (1 <= p <= self.n() && self.touched_at(p)),
    {
        let n = self.cards.current_hand_size;
        let mut r = PositionSet::new(n);
        let mut p: usize = 1;
        while p <= n
            invariant
                self.wf(),
                1 <= p <= n + 1,
                n == self.cards.current_hand_size,
                r.wf(),
                r.hand_size_spec() == n,
                forall|q: int|
                    #[trigger] r.contains_spec(q) == (1 <= q < p && self.touched_at(q)),
            decreases n + 1 - p,
        {
            let id = self.cards.get(p);
            if iset_contains(&self.touched, id as u64) {
                r.insert(p);
            }
            p = p + 1;
        }
        r
    }

    /// Interpret a hint for this hand under the focus and save conventions:
    /// the focus card is restricted to the identities the convention allows.
    /// A hint that touches nothing new while its giver was visibly stalling
    /// carries no inference at all.
    pub fn get_hint_interpretations(
        &self,
        hinted_property: Property,
        positions: PositionSet,
        state: &PublicState,
        giver_stall_severity: usize,
        all_surely_known_touched_cards_in_hands: &CardSet,
    ) -> (r: Option<Interpretations>)
        requires
            self.wf(),
            state.wf(),
            positions.wf(),
            positions.hand_size_spec() == self.n(),
            !positions.is_empty_spec(),
        ensures
            r matches Option::Some(inters) ==> {
                &&& inters.ors@.len() == 1
                &&& exists|fp: int|
                    {
                        &&& 1 <= fp <= self.n()
                        &&& #[trigger] self.is_focus_spec(positions, fp)
                        &&& (giver_stall_severity >= 2 && self.touched_at(fp) ==> imap_entries(
                            inters.ors@[0].card_id_to_possibilities,
                        ).dom() =~= Set::empty())
                        &&& (!(giver_stall_severity >= 2 && self.touched_at(fp)) ==> {
                            &&& imap_entries(
                                inters.ors@[0].card_id_to_possibilities,
                            ).dom() =~= Set::empty().insert(self.cards.id_at(fp) as u64)
                            &&& forall|c: Card|
                                bit(
                                    imap_entries(inters.ors@[0].card_id_to_possibilities)[
                                        self.cards.id_at(fp) as u64] as u32,
                                    c.index_spec() as u32,
                                ) == focus_restriction_spec(
                                    *state,
                                    *all_surely_known_touched_cards_in_hands,
                                    hinted_property,
                                    self.chop_at(fp),
                                    c,
                                )
                        })
                    }
            },
            r is Some,
    {
        let tp = self.touched_positions();
        let focus_position = positions.focus_position(tp);
        proof {
            lemma_focus_bridge(*self, positions, tp, focus_position as int);
        }
        let touches_no_new_cards = tp.contains(focus_position);

        let potential_burned_clue = 2 <= giver_stall_severity && touches_no_new_cards;
        if potential_burned_clue {
            let mut ors: Vec<Interpretation> = Vec::new();
            ors.push(Interpretation::no_additional_info());
            let r = Interpretations::new(ors);
            proof {
                let fp = focus_position as int;
                if r is Some {
                    let inters = r->0;
                    assert(imap_entries(inters.ors@[0].card_id_to_possibilities).dom()
                        =~= Set::empty());
                    assert(1 <= fp <= self.n() && self.is_focus_spec(positions, fp));
                    assert(self.touched_at(fp));
                }
            }
            return r;
        }
        let focus_card_id = self.cards.get(focus_position);

        let chop_opt = self.chop_position();
        let is_chop_focused = match chop_opt {
            Option::Some(cp) => cp == focus_position,
            Option::None => false,
        };
        proof {
            let fp = focus_position as int;
            assert(is_chop_focused == self.chop_at(fp)) by {
                match chop_opt {
                    Option::Some(cp) => {
                        assert(self.chop_at(cp as int));
                        if self.chop_at(fp) && cp as int != fp {
                            if fp < cp as int {
                                assert(self.touched_at(cp as int));
                            } else {
                                assert(self.touched_at(fp));
                            }
                        }
                    },
                    Option::None => {
                        if self.chop_at(fp) {
                            assert(self.touched_at(fp));
                        }
                    },
                }
            }
        }

        let mut direct_interpretation_focus_possibilities = CardSet::none();
        let delayed_playable = state.firework.delayed_playable(
            all_surely_known_touched_cards_in_hands,
        );
        direct_interpretation_focus_possibilities.extend(delayed_playable);

        if is_chop_focused {
            let critical_saves = state.critical_saves();
            direct_interpretation_focus_possibilities.extend(critical_saves);

            let is_save_rank = match hinted_property {
                Property::Number(Number::Two) => true,
                Property::Number(Number::Five) => true,
                _ => false,
            };
            if is_save_rank {
                let special_saves = CardSet::with_property(hinted_property);
                direct_interpretation_focus_possibilities.extend(special_saves);
            }
        }

        let bits_val = direct_interpretation_focus_possibilities.to_bits();
        proof {
            let fp = focus_position as int;
            assert forall|c: Card|
                bit(bits_val, c.index_spec() as u32) == focus_restriction_spec(
                    *state,
                    *all_surely_known_touched_cards_in_hands,
                    hinted_property,
                    self.chop_at(fp),
                    c,
                ) by {
                assert(bit(bits_val, c.index_spec() as u32)
                    == direct_interpretation_focus_possibilities.contains_spec(c));
            }
        }
        let mut m = imap_new();
        imap_insert(&mut m, focus_card_id as u64, bits_val as u64);
        let direct_interpretation = Interpretation { card_id_to_possibilities: m };
        let mut ors: Vec<Interpretation> = Vec::new();
        ors.push(direct_interpretation);
        let r = Interpretations::new(ors);
        proof {
            let fp = focus_position as int;
            if r is Some {
                let inters = r->0;
                assert(imap_entries(inters.ors@[0].card_id_to_possibilities).dom()
                    =~= Set::empty().insert(self.cards.id_at(fp) as u64));
                assert(1 <= fp <= self.n() && self.is_focus_spec(positions, fp));
                assert(!(giver_stall_severity >= 2 && self.touched_at(fp)));
                assert((bits_val as u64) as u32 == bits_val);
                assert(imap_entries(inters.ors@[0].card_id_to_possibilities)[
                    self.cards.id_at(fp) as u64] == bits_val as u64);
            }
        }
        r
    }

    /// Record the interpretation of a hint, then narrow every slot's
    /// possibilities by the hinted property, positively on hinted positions
    /// and negatively elsewhere, and mark the hinted cards touched.
    pub fn fr_apply_hint(
        &mut self,
        hinted_property: Property,
        positions: PositionSet,
        state: &PublicState,
        giver_stall_severity: usize,
        all_surely_known_touched_cards_in_hands: &CardSet,
    )
        requires
            old(self).wf(),
            state.wf(),
            positions.wf(),
            positions.hand_size_spec() == old(self).n(),
            !positions.is_empty_spec(),
        ensures
            final(self).wf(),
            final(self).cards == old(self).cards,
            final(self).interpretations_some_of_which_self_should_entertain@.len() == old(
                self,
            ).interpretations_some_of_which_self_should_entertain@.len() + 1,
            forall|j: int|
                0 <= j < old(self).interpretations_some_of_which_self_should_entertain@.len()
                    ==> final(self).interpretations_some_of_which_self_should_entertain@[j] == (
                #[trigger] old(self).interpretations_some_of_which_self_should_entertain@[j]),
            ({
                let rec = final(self).interpretations_some_of_which_self_should_entertain@.last();
                &&& rec.ors@.len() == 1
                &&& exists|fp: int|
                    {
                        &&& 1 <= fp <= old(self).n()
                        &&& #[trigger] old(self).is_focus_spec(positions, fp)
                        &&& (giver_stall_severity >= 2 && old(self).touched_at(fp)
                            ==> imap_entries(rec.ors@[0].card_id_to_possibilities).dom()
                            =~= Set::empty())
                        &&& (!(giver_stall_severity >= 2 && old(self).touched_at(fp)) ==> {
                            &&& imap_entries(rec.ors@[0].card_id_to_possibilities).dom()
                                =~= Set::empty().insert(old(self).cards.id_at(fp) as u64)
                            &&& forall|c: Card|
                                bit(
                                    imap_entries(rec.ors@[0].card_id_to_possibilities)[
                                        old(self).cards.id_at(fp) as u64] as u32,
                                    c.index_spec() as u32,
                                ) == focus_restriction_spec(
                                    *state,
                                    *all_surely_known_touched_cards_in_hands,
                                    hinted_property,
                                    old(self).chop_at(fp),
                                    c,
                                )
                        })
                    }
            }),
            forall|p: int, c: Card|
                1 <= p <= old(self).n() ==> #[trigger] bit(
                    final(self).possible_bits(old(self).cards.id_at(p) as u64),
                    c.index_spec() as u32,
                ) == (bit(
                    old(self).possible_bits(old(self).cards.id_at(p) as u64),
                    c.index_spec() as u32,
                ) && (if positions.contains_spec(p) {
                    c.satisfies_spec(hinted_property)
                } else {
                    !c.satisfies_spec(hinted_property)
                })),
            forall|k: u64|
                #[trigger] iset_contents(final(self).touched).contains(k) == (iset_contents(
                    old(self).touched,
                ).contains(k) || exists|p: int|
                    1 <= p <= old(self).n() && positions.contains_spec(p) && old(
                        self,
                    ).cards.id_at(p) as u64 == k),
    {
        let inters = match self.get_hint_interpretations(
            hinted_property,
            positions,
            state,
            giver_stall_severity,
            all_surely_known_touched_cards_in_hands,
        ) {
            Option::Some(i) => i,
            Option::None => {
                proof {
                    assert(false);
                }
                return ;
            },
        };
        let ghost inters_g = inters;
        self.interpretations_some_of_which_self_should_entertain.push(inters);
        let ghost interps_after = self.interpretations_some_of_which_self_should_entertain@;
        proof {
            assert(interps_after =~= old(
                self,
            ).interpretations_some_of_which_self_should_entertain@.push(inters_g));
        }

        let n = self.cards.current_hand_size;
        let mut pos: usize = 1;
        while pos <= n
            invariant
                old(self).wf(),
                n == old(self).cards.current_hand_size,
                self.cards == old(self).cards,
                1 <= pos <= n + 1,
                positions.wf(),
                self.interpretations_some_of_which_self_should_entertain@ == interps_after,
                interps_after == old(
                    self,
                ).interpretations_some_of_which_self_should_entertain@.push(inters_g),
                inters_g.ors@.len() == 1,
                exists|fp: int|
                    {
                        &&& 1 <= fp <= old(self).n()
                        &&& #[trigger] old(self).is_focus_spec(positions, fp)
                        &&& (giver_stall_severity >= 2 && old(self).touched_at(fp)
                            ==> imap_entries(inters_g.ors@[0].card_id_to_possibilities).dom()
                            =~= Set::empty())
                        &&& (!(giver_stall_severity >= 2 && old(self).touched_at(fp)) ==> {
                            &&& imap_entries(inters_g.ors@[0].card_id_to_possibilities).dom()
                                =~= Set::empty().insert(old(self).cards.id_at(fp) as u64)
                            &&& forall|c: Card|
                                bit(
                                    imap_entries(inters_g.ors@[0].card_id_to_possibilities)[
                                        old(self).cards.id_at(fp) as u64] as u32,
                                    c.index_spec() as u32,
                                ) == focus_restriction_spec(
                                    *state,
                                    *all_surely_known_touched_cards_in_hands,
                                    hinted_property,
                                    old(self).chop_at(fp),
                                    c,
                                )
                        })
                    },
                self.wf(),
                self.dom() =~= old(self).dom(),
                forall|p: int, c: Card|
                    1 <= p < pos ==> #[trigger] bit(
                        self.possible_bits(old(self).cards.id_at(p) as u64),
                        c.index_spec() as u32,
                    ) == (bit(
                        old(self).possible_bits(old(self).cards.id_at(p) as u64),
                        c.index_spec() as u32,
                    ) && (if positions.contains_spec(p) {
                        c.satisfies_spec(hinted_property)
                    } else {
                        !c.satisfies_spec(hinted_property)
                    })),
                forall|p: int|
                    pos <= p <= n ==> #[trigger] self.possible_bits(
                        old(self).cards.id_at(p) as u64,
                    ) == old(self).possible_bits(old(self).cards.id_at(p) as u64),
                forall|k: u64|
                    #[trigger] iset_contents(self.touched).contains(k) == (iset_contents(
                        old(self).touched,
                    ).contains(k) || exists|p: int|
                        1 <= p < pos && positions.contains_spec(p) && old(
                            self,
                        ).cards.id_at(p) as u64 == k),
            decreases n + 1 - pos,
        {
            let ghost prev = *self;
            let card_id = self.cards.get(pos);
            let cur = match imap_get(
                &self.objectively_possible_cards_according_to_hints,
                card_id as u64,
            ) {
                Option::Some(v) => v,
                Option::None => {
                    proof {
                        assert(false);
                    }
                    0
                },
            };
            let mut possible = CardSet::from_bits(cur as u32);
            let hinted_here = positions.contains(pos);
            if hinted_here {
                possible.apply(hinted_property);
                iset_insert(&mut self.touched, card_id as u64);
            } else {
                possible.apply_not(hinted_property);
            }
            let newbits = possible.to_bits();
            imap_insert(
                &mut self.objectively_possible_cards_according_to_hints,
                card_id as u64,
                newbits as u64,
            );
            proof {
                let k = old(self).cards.id_at(pos as int) as u64;
                assert(card_id as u64 == k);
                assert((newbits as u64) as u32 == newbits);
                assert(self.possible_bits(k) == newbits);
                assert(prev.possible_bits(k) == old(self).possible_bits(k));
                assert(cur as u32 == prev.possible_bits(k));
                assert forall|c: Card|
                    #[trigger] bit(self.possible_bits(k), c.index_spec() as u32) == (bit(
                        old(self).possible_bits(k),
                        c.index_spec() as u32,
                    ) && (if hinted_here {
                        c.satisfies_spec(hinted_property)
                    } else {
                        !c.satisfies_spec(hinted_property)
                    })) by {
                    assert(bit(newbits, c.index_spec() as u32) == possible.contains_spec(c));
                }
                assert forall|p: int, c: Card|
                    1 <= p < pos + 1 implies #[trigger] bit(
                        self.possible_bits(old(self).cards.id_at(p) as u64),
                        c.index_spec() as u32,
                    ) == (bit(
                        old(self).possible_bits(old(self).cards.id_at(p) as u64),
                        c.index_spec() as u32,
                    ) && (if positions.contains_spec(p) {
                        c.satisfies_spec(hinted_property)
                    } else {
                        !c.satisfies_spec(hinted_property)
                    })) by {
                    if p == pos as int {
                        assert(bit(self.possible_bits(k), c.index_spec() as u32) == (bit(
                            old(self).possible_bits(k),
                            c.index_spec() as u32,
                        ) && (if hinted_here {
                            c.satisfies_spec(hinted_property)
                        } else {
                            !c.satisfies_spec(hinted_property)
                        })));
                    } else {
                        assert(self.possible_bits(old(self).cards.id_at(p) as u64)
                            == prev.possible_bits(old(self).cards.id_at(p) as u64));
                    }
                }
                assert forall|p: int|
                    pos + 1 <= p <= n implies #[trigger] self.possible_bits(
                        old(self).cards.id_at(p) as u64,
                    ) == prev.possible_bits(old(self).cards.id_at(p) as u64) by {
                    assert(old(self).cards.slots@[pos as int] != old(self).cards.slots@[p]);
                    assert(old(self).cards.id_at(p) != old(self).cards.id_at(pos as int));
                }
                assert forall|p: int|
                    1 <= p < pos implies #[trigger] self.possible_bits(
                        old(self).cards.id_at(p) as u64,
                    ) == prev.possible_bits(old(self).cards.id_at(p) as u64) by {
                    assert(old(self).cards.slots@[p] != old(self).cards.slots@[pos as int]);
                    assert(old(self).cards.id_at(p) != old(self).cards.id_at(pos as int));
                }
                if positions.contains_spec(pos as int) {
                    assert forall|k: u64|
                        #[trigger] iset_contents(self.touched).contains(k) == (iset_contents(
                            old(self).touched,
                        ).contains(k) || exists|p: int|
                            1 <= p < pos + 1 && positions.contains_spec(p) && old(
                                self,
                            ).cards.id_at(p) as u64 == k) by {
                        if k == card_id as u64 {
                            assert(old(self).cards.id_at(pos as int) as u64 == k);
                        }
                    }
                }
            }
            pos = pos + 1;
        }
    }

    /// The hint-derived possibilities of a held card, less the identities of
    /// which this seat can already see every physical copy elsewhere.
    pub fn objectively_possible_cards_according_to_hints_minus_visible_full_sets(
        &self,
        card_id: usize,
        visible_full_sets: &CardSet,
    ) -> (r: CardSet)
        requires
            self.wf(),
            self.dom().contains(card_id as u64),
        ensures
            r.inv(),
            forall|c: Card|
                #[trigger] r.contains_spec(c) == (bit(
                    self.possible_bits(card_id as u64),
                    c.index_spec() as u32,
                ) && !visible_full_sets.contains_spec(c)),
    {
        let cur = match imap_get(
            &self.objectively_possible_cards_according_to_hints,
            card_id as u64,
        ) {
            Option::Some(v) => v,
            Option::None => {
                proof {
                    assert(false);
                }
                0
            },
        };
        let mut result = CardSet::from_bits(cur as u32);
        result.exclude(visible_full_sets);
        result
    }

    /// What this seat itself might still think the card at `position` is:
    /// the hint-derived possibilities, narrowed by every resolved past
    /// interpretation, and, for a touched card, by the good-touch candidates.
    pub fn possibilities_self_might_entertain(
        &self,
        position: usize,
        potentially_entertained_candidates_for_touched_in_own_hand: &CardSet,
        cards_self_definitely_sees_all_copies_of: &CardSet,
    ) -> (r: CardSet)
        requires
            self.wf(),
            1 <= position <= self.n(),
        ensures
            r.inv(),
            forall|c: Card|
                #[trigger] r.contains_spec(c) == self.entertained_spec(
                    position as int,
                    *potentially_entertained_candidates_for_touched_in_own_hand,
                    *cards_self_definitely_sees_all_copies_of,
                    c,
                ),
    {
        let card_id = self.cards.get(position);
        let mut possible = self.objectively_possible_cards_according_to_hints_minus_visible_full_sets(
            card_id,
            cards_self_definitely_sees_all_copies_of,
        );

        let mut i: usize = 0;
        let n_inters = self.interpretations_some_of_which_self_should_entertain.len();
        while i < n_inters
            invariant
                self.wf(),
                1 <= position <= self.n(),
                card_id == self.cards.id_at(position as int),
                n_inters
                    == self.interpretations_some_of_which_self_should_entertain@.len(),
                i <= n_inters,
                possible.inv(),
                forall|c: Card|
                    #[trigger] possible.contains_spec(c) == ({
                        &&& bit(
                            self.possible_bits(card_id as u64),
                            c.index_spec() as u32,
                        )
                        &&& !cards_self_definitely_sees_all_copies_of.contains_spec(c)
                        &&& (forall|j: int|
                            0 <= j < i && (
                            #[trigger] self.interpretations_some_of_which_self_should_entertain@[j]).ors@.len()
                                == 1 && imap_entries(
                                self.interpretations_some_of_which_self_should_entertain@[j].ors@[0].card_id_to_possibilities,
                            ).dom().contains(card_id as u64) ==> bit(
                                imap_entries(
                                    self.interpretations_some_of_which_self_should_entertain@[j].ors@[0].card_id_to_possibilities,
                                )[card_id as u64] as u32,
                                c.index_spec() as u32,
                            ))
                    }),
            decreases n_inters - i,
        {
            let ghost prev_possible = possible;
            let inter = &self.interpretations_some_of_which_self_should_entertain[i];
            match inter.unique_interpretation() {
                Option::Some(unique) => {
                    match imap_get(&unique.card_id_to_possibilities, card_id as u64) {
                        Option::Some(bits) => {
                            let ps = CardSet::from_bits(bits as u32);
                            possible.intersect(&ps);
                        },
                        Option::None => {},
                    }
                },
                Option::None => {},
            }
            proof {
                let inters = self.interpretations_some_of_which_self_should_entertain@;
                assert forall|c: Card|
                    #[trigger] possible.contains_spec(c) == (prev_possible.contains_spec(c) && (
                    inters[i as int].ors@.len() == 1 && imap_entries(
                        inters[i as int].ors@[0].card_id_to_possibilities,
                    ).dom().contains(card_id as u64) ==> bit(
                        imap_entries(inters[i as int].ors@[0].card_id_to_possibilities)[
                            card_id as u64] as u32,
                        c.index_spec() as u32,
                    ))) by {}
            }
            i = i + 1;
        }

        if iset_contains(&self.touched, card_id as u64) {
            possible.intersect(potentially_entertained_candidates_for_touched_in_own_hand);
            proof {
                assert(self.touched_at(position as int));
            }
        } else {
            proof {
                assert(!self.touched_at(position as int));
            }
        }
        possible
    }

    /// True iff, under every possibility this seat might entertain, the set
    /// holds only playable identities — without relying on a touched card in
    /// another hand it cannot rule out.
    pub fn is_definitely_aware_that_these_are_all_playable_right_now(
        &self,
        possibilities: &CardSet,
        is_already_touched_card: bool,
        firework: &Firework,
        touched_in_other_hands_or_more: &CardSet,
    ) -> (r: bool)
        requires
            possibilities.inv(),
            firework.wf(),
        ensures
            r == (!(!is_already_touched_card && exists|c: Card|
                possibilities.contains_spec(c) && touched_in_other_hands_or_more.contains_spec(
                    c,
                )) && (forall|c: Card|
                #[trigger] possibilities.contains_spec(c) ==> firework.playable_spec(c))),
    {
        if !is_already_touched_card && possibilities.intersects(touched_in_other_hands_or_more) {
            false
        } else {
            firework.are_all_playable(possibilities)
        }
    }

    /// Whether this seat surely knows the card at `position` is playable.
    fn is_definitely_aware_that_this_position_is_playable(
        &self,
        position: usize,
        firework: &Firework,
        potentially_entertained_candidates_for_touched_in_own_hand: &CardSet,
        touched_in_other_hands_or_more: &CardSet,
        cards_self_definitely_sees_all_copies_of: &CardSet,
    ) -> (r: bool)
        requires
            self.wf(),
            1 <= position <= self.n(),
            firework.wf(),
        ensures
            r == self.definitely_aware_playable_at_spec(
                position as int,
                *potentially_entertained_candidates_for_touched_in_own_hand,
                *cards_self_definitely_sees_all_copies_of,
                *touched_in_other_hands_or_more,
                *firework,
            ),
    {
        let possibilities = self.possibilities_self_might_entertain(
            position,
            potentially_entertained_candidates_for_touched_in_own_hand,
            cards_self_definitely_sees_all_copies_of,
        );
        let is_already_touched = self.touched_positions().contains(position);

        let r = self.is_definitely_aware_that_these_are_all_playable_right_now(
            &possibilities,
            is_already_touched,
            firework,
            touched_in_other_hands_or_more,
        );
        proof {
            let cand = *potentially_entertained_candidates_for_touched_in_own_hand;
            let seen = *cards_self_definitely_sees_all_copies_of;
            let tm = *touched_in_other_hands_or_more;
            let p = position as int;
            assert(is_already_touched == self.touched_at(p));
            if exists|c: Card|
                possibilities.contains_spec(c) && tm.contains_spec(c) {
                let w = choose|c: Card|
                    possibilities.contains_spec(c) && tm.contains_spec(c);
                assert(self.entertained_spec(p, cand, seen, w) && tm.contains_spec(w));
            }
            if exists|c: Card|
                #[trigger] self.entertained_spec(p, cand, seen, c) && tm.contains_spec(c) {
                let w = choose|c: Card|
                    #[trigger] self.entertained_spec(p, cand, seen, c) && tm.contains_spec(c);
                assert(possibilities.contains_spec(w) && tm.contains_spec(w));
            }
            assert forall|c: Card|
                #[trigger] self.entertained_spec(p, cand, seen, c) implies
                possibilities.contains_spec(c) by {}
        }
        r
    }

    /// Whether this seat surely knows some card of its hand is playable.
    fn is_definitely_aware_about_a_playable_card(
        &self,
        firework: &Firework,
        potentially_entertained_candidates_for_touched_in_own_hand: &CardSet,
        touched_in_other_hands_or_more: &CardSet,
        cards_self_definitely_sees_all_copies_of: &CardSet,
    ) -> (r: bool)
        requires
            self.wf(),
            firework.wf(),
        ensures
            r == exists|p: int|
                1 <= p <= self.n() && #[trigger] self.definitely_aware_playable_at_spec(
                    p,
                    *potentially_entertained_candidates_for_touched_in_own_hand,
                    *cards_self_definitely_sees_all_copies_of,
                    *touched_in_other_hands_or_more,
                    *firework,
                ),
    {
        let n = self.cards.current_hand_size;
        let mut position: usize = 1;
        while position <= n
            invariant
                self.wf(),
                firework.wf(),
                n == self.cards.current_hand_size,
                1 <= position <= n + 1,
                forall|p: int|
                    1 <= p < position ==> !(#[trigger] self.definitely_aware_playable_at_spec(
                        p,
                        *potentially_entertained_candidates_for_touched_in_own_hand,
                        *cards_self_definitely_sees_all_copies_of,
                        *touched_in_other_hands_or_more,
                        *firework,
                    )),
            decreases n + 1 - position,
        {
            if self.is_definitely_aware_that_this_position_is_playable(
                position,
                firework,
                potentially_entertained_candidates_for_touched_in_own_hand,
                touched_in_other_hands_or_more,
                cards_self_definitely_sees_all_copies_of,
            ) {
                return true;
            }
            position = position + 1;
        }
        false
    }

    /// Whether this seat may be locked, so no conventional discard exists:
    /// every held card is touched and none is surely known playable.
    pub open spec fn locked_spec(
        self,
        candidates: CardSet,
        seen_full: CardSet,
        touched_more: CardSet,
        firework: Firework,
    ) -> bool {
        &&& (forall|p: int| 1 <= p <= self.n() ==> self.touched_at(p))
        &&& !(exists|p: int|
            1 <= p <= self.n() && #[trigger] self.definitely_aware_playable_at_spec(
                p,
                candidates,
                seen_full,
                touched_more,
                firework,
            ))
    }

    /// Whether this seat may be locked: every card touched, none surely
    /// playable.
    pub fn potentially_is_locked_with_no_known_playable_card(
        &self,
        firework: &Firework,
        potentially_entertained_candidates_for_touched_in_own_hand: &CardSet,
        touched_in_other_hands_or_more: &CardSet,
        cards_self_definitely_sees_all_copies_of: &CardSet,
    ) -> (r: bool)
        requires
            self.wf(),
            firework.wf(),
        ensures
            r == self.locked_spec(
                *potentially_entertained_candidates_for_touched_in_own_hand,
                *cards_self_definitely_sees_all_copies_of,
                *touched_in_other_hands_or_more,
                *firework,
            ),
    {
        let tp = self.touched_positions();
        if !tp.is_full() {
            proof {
                let w = choose|p: int| 1 <= p <= tp.hand_size_spec() && !tp.contains_spec(p);
                assert(!self.touched_at(w));
            }
            return false;
        }
        proof {
            assert forall|p: int| 1 <= p <= self.n() implies self.touched_at(p) by {
                assert(tp.contains_spec(p));
            }
        }
        !self.is_definitely_aware_about_a_playable_card(
            firework,
            potentially_entertained_candidates_for_touched_in_own_hand,
            touched_in_other_hands_or_more,
            cards_self_definitely_sees_all_copies_of,
        )
    }
    /// How pressed the seat is to spend a clue: 4 at the clue cap, where no
    /// discard is legal, 3 when locked, else 0.
    pub fn stall_severity(
        &self,
        state: &PublicState,
        potentially_entertained_candidates_for_touched_in_own_hand: &CardSet,
        touched_in_other_hands_or_more: &CardSet,
        cards_self_definitely_sees_all_copies_of: &CardSet,
    ) -> (r: usize)
        requires
            self.wf(),
            state.wf(),
        ensures
            r == (if state.clues == state.rules.max_clues {
                4usize
            } else if self.locked_spec(
                *potentially_entertained_candidates_for_touched_in_own_hand,
                *cards_self_definitely_sees_all_copies_of,
                *touched_in_other_hands_or_more,
                state.firework,
            ) {
                3usize
            } else {
                0usize
            }),
    {
        if state.clues == state.rules.max_clues {
            4
        } else if self.potentially_is_locked_with_no_known_playable_card(
            &state.firework,
            potentially_entertained_candidates_for_touched_in_own_hand,
            touched_in_other_hands_or_more,
            cards_self_definitely_sees_all_copies_of,
        ) {
            3
        } else {
            0
        }
    }
}

/// The focus convention names exactly one position.
pub proof fn lemma_focus_unique(st: PlayerState, positions: PositionSet, f1: int, f2: int)
    requires
        st.is_focus_spec(positions, f1),
        st.is_focus_spec(positions, f2),
    ensures
        f1 == f2,
{
    if st.hinted_all_touched(positions) {
    } else if exists|p: int| st.chop_at(p) && positions.contains_spec(p) {
        if f1 < f2 {
            assert(st.touched_at(f2));
        }
        if f2 < f1 {
            assert(st.touched_at(f1));
        }
    } else {
    }
}

/// The exec focus computed over the touched-position set matches the
/// spec-level focus convention over the belief state.
proof fn lemma_focus_bridge(ps: PlayerState, positions: PositionSet, tp: PositionSet, fp: int)
    requires
        ps.wf(),
        positions.wf(),
        tp.wf(),
        positions.hand_size_spec() == ps.n(),
        tp.hand_size_spec() == ps.n(),
        forall|p: int| #[trigger] tp.contains_spec(p) == (1 <= p <= ps.n() && ps.touched_at(p)),
        positions.is_subset_spec(tp) ==> positions.is_smallest_spec(fp),
        !positions.is_subset_spec(tp) && (exists|p: int|
            chop_spec(tp, p) && positions.contains_spec(p)) ==> chop_spec(tp, fp)
            && positions.contains_spec(fp),
        !positions.is_subset_spec(tp) && (forall|p: int|
            chop_spec(tp, p) ==> !positions.contains_spec(p)) ==> (positions.contains_spec(fp)
            && !tp.contains_spec(fp) && (forall|q: int|
            positions.contains_spec(q) && !tp.contains_spec(q) ==> fp <= q)),
    ensures
        ps.is_focus_spec(positions, fp),
        1 <= fp <= ps.n(),
        positions.contains_spec(fp) || ps.touched_at(fp),
{
    assert(positions.is_subset_spec(tp) == ps.hinted_all_touched(positions)) by {
        if ps.hinted_all_touched(positions) {
            assert forall|i: int|
                positions.contains_spec(i) implies tp.contains_spec(i) by {
                assert(1 <= i <= positions.hand_size_spec());
                assert(ps.touched_at(i));
            }
        }
    }
    assert forall|p: int| chop_spec(tp, p) == ps.chop_at(p) by {
        if chop_spec(tp, p) {
            assert forall|q: int| p < q <= ps.n() implies ps.touched_at(q) by {
                assert(tp.contains_spec(q));
            }
            assert(!ps.touched_at(p)) by {
                assert(!tp.contains_spec(p));
            }
        }
        if ps.chop_at(p) {
            assert forall|q: int| p < q <= tp.hand_size_spec() implies tp.contains_spec(q) by {
                assert(ps.touched_at(q));
            }
        }
    }
    if ps.hinted_all_touched(positions) {
        assert(positions.is_smallest_spec(fp));
        assert(positions.contains_spec(fp));
        assert(1 <= fp <= positions.hand_size_spec());
    } else {
        if exists|p: int| ps.chop_at(p) && positions.contains_spec(p) {
            let w = choose|p: int| ps.chop_at(p) && positions.contains_spec(p);
            assert(chop_spec(tp, w) && positions.contains_spec(w));
            assert(chop_spec(tp, fp) && positions.contains_spec(fp));
            assert(ps.chop_at(fp));
        } else {
            assert(forall|p: int| chop_spec(tp, p) ==> !positions.contains_spec(p));
            assert(positions.contains_spec(fp) && !tp.contains_spec(fp));
            assert(!ps.touched_at(fp)) by {
                assert(1 <= fp <= positions.hand_size_spec());
            }
            assert forall|q: int|
                positions.contains_spec(q) && !ps.touched_at(q) implies fp <= q by {
                assert(1 <= q <= positions.hand_size_spec());
                assert(!tp.contains_spec(q));
            }
        }
    }
}

} // verus!
