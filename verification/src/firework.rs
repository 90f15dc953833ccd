//! The public play stacks: per color the highest successfully played rank.

use vstd::prelude::*;

use indexmap::IndexMap;

use crate::card::{number_of_rank_spec, Card, Color, Number};
use crate::card_set::CardSet;
use crate::imap::{imap_clone, imap_entries, imap_get, imap_insert, imap_new};

verus! {

/// One pile per color; a pile's top is the highest rank played, 0 when empty.
pub struct Firework {
    piles: IndexMap<u64, u64>,
}

/// The rank up to which a color's pile reaches once the cards of `extra` of
/// that color are played on it in ascending rank order, starting from `top`.
pub open spec fn ext_top_from(top: int, extra: CardSet, color: Color) -> int
    decreases 5 - top,
{
    if top < 5 && extra.contains_spec(Card { number: number_of_rank_spec(top + 1), color }) {
        ext_top_from(top + 1, extra, color)
    } else {
        top
    }
}

impl Firework {
    /// The highest played rank of this color, 0 for an empty pile.
    pub closed spec fn top_spec(self, color: Color) -> int {
        imap_entries(self.piles)[color.index_spec() as u64] as int
    }

    /// One entry per color, each a rank from 0 to 5.
    pub closed spec fn wf(self) -> bool {
        &&& forall|k: u64| #[trigger] imap_entries(self.piles).dom().contains(k) <==> k < 5
        &&& forall|k: u64| k < 5 ==> #[trigger] imap_entries(self.piles)[k] <= 5
    }

    /// Whether `card` would extend its pile right now.
    pub open spec fn playable_spec(self, card: Card) -> bool {
        card.number.rank_spec() == self.top_spec(card.color) + 1
    }

    /// The total of the pile tops.
    pub open spec fn sum_tops(self, n: int) -> int
        decreases n,
    {
        if n <= 0 {
            0
        } else {
            self.sum_tops(n - 1) + self.top_spec(crate::card::color_of_index_spec(n - 1))
        }
    }

    /// All piles start empty.
    pub fn new(used_colors: &Vec<Color>) -> (r: Self)
        requires
            used_colors@ =~= seq![
                Color::Red,
                Color::Blue,
                Color::Green,
                Color::Yellow,
                Color::White,
            ],
        ensures
            r.wf(),
            forall|col: Color| #[trigger] r.top_spec(col) == 0,
    {
        let mut piles = imap_new();
        let mut i: usize = 0;
        while i < used_colors.len()
            invariant
                used_colors@.len() == 5,
                i <= 5,
                forall|k: u64|
                    #[trigger] imap_entries(piles).dom().contains(k) <==> exists|j: int|
                        0 <= j < i && used_colors@[j].index_spec() == k,
                forall|k: u64|
                    imap_entries(piles).dom().contains(k) ==> #[trigger] imap_entries(piles)[k]
                        == 0,
            decreases used_colors.len() - i,
        {
            let ci = used_colors[i].index() as u64;
            imap_insert(&mut piles, ci, 0);
            proof {
                assert forall|k: u64|
                    #[trigger] imap_entries(piles).dom().contains(k) <==> exists|j: int|
                        0 <= j < i + 1 && used_colors@[j].index_spec() == k by {
                    if k == ci {
                        assert(used_colors@[i as int].index_spec() == k);
                    }
                }
            }
            i = i + 1;
        }
        let r = Firework { piles };
        proof {
            assert forall|k: u64| #[trigger] imap_entries(r.piles).dom().contains(k) <==> k
                < 5 by {
                if k < 5 {
                    let ghost j: int = if k == 3 {
                        0int
                    } else if k == 4 {
                        1int
                    } else if k == 1 {
                        2int
                    } else if k == 2 {
                        3int
                    } else {
                        4int
                    };
                    assert(used_colors@[j].index_spec() == k);
                }
            }
            assert forall|col: Color| #[trigger] r.top_spec(col) == 0 by {
                assert(imap_entries(r.piles).dom().contains(col.index_spec() as u64));
            }
        }
        r
    }

    /// The current top rank of one color's pile.
    pub fn top_of(&self, color: Color) -> (r: u64)
        requires
            self.wf(),
        ensures
            r == self.top_spec(color),
            r <= 5,
    {
        let ci = color.index() as u64;
        proof {
            assert(imap_entries(self.piles).dom().contains(ci));
        }
        match imap_get(&self.piles, ci) {
            Option::Some(t) => t,
            Option::None => 0,
        }
    }

    /// Whether every pile is complete.
    pub fn is_complete(&self) -> (r: bool)
        requires
            self.wf(),
        ensures
            r == forall|col: Color| #[trigger] self.top_spec(col) == 5,
    {
        let mut i: u32 = 0;
        while i < 5
            invariant
                self.wf(),
                i <= 5,
                forall|col: Color| col.index_spec() < i ==> #[trigger] self.top_spec(col) == 5,
            decreases 5 - i,
        {
            let t = match imap_get(&self.piles, i as u64) {
                Option::Some(t) => t,
                Option::None => 0,
            };
            if t != 5 {
                proof {
                    let col = crate::card::color_of_index_spec(i as int);
                    assert(col.index_spec() == i);
                    assert(self.top_spec(col) != 5);
                }
                return false;
            }
            proof {
                assert forall|col: Color| col.index_spec() < i + 1
                    implies #[trigger] self.top_spec(col) == 5 by {}
            }
            i = i + 1;
        }
        true
    }

    /// The current score: the total of the pile tops.
    pub fn score(&self) -> (r: usize)
        requires
            self.wf(),
        ensures
            r == self.sum_tops(5),
            r <= 25,
    {
        let mut acc: usize = 0;
        let mut i: u32 = 0;
        while i < 5
            invariant
                self.wf(),
                i <= 5,
                acc == self.sum_tops(i as int),
                acc <= 5 * i,
            decreases 5 - i,
        {
            let t = match imap_get(&self.piles, i as u64) {
                Option::Some(t) => t,
                Option::None => 0,
            };
            proof {
                let col = crate::card::color_of_index_spec(i as int);
                assert(col.index_spec() == i);
                assert(t == self.top_spec(col));
            }
            acc = acc + (t as usize);
            i = i + 1;
        }
        acc
    }

    /// Try to play `card`: succeeds iff its rank directly follows its pile's
    /// top; on success the pile top becomes that rank.
    pub fn add(&mut self, card: Card) -> (r: bool)
        requires
            old(self).wf(),
        ensures
            final(self).wf(),
            r == old(self).playable_spec(card),
            r ==> final(self).top_spec(card.color) == card.number.rank_spec(),
            r ==> forall|col: Color|
                col != card.color ==> #[trigger] final(self).top_spec(col) == old(
                    self,
                ).top_spec(col),
            !r ==> *final(self) == *old(self),
    {
        let ci = card.color.index() as u64;
        proof {
            assert(imap_entries(self.piles).dom().contains(ci));
        }
        let current = match imap_get(&self.piles, ci) {
            Option::Some(t) => t,
            Option::None => 0,
        };
        let rank = card.number.score() as u64;
        if rank == current + 1 {
            imap_insert(&mut self.piles, ci, rank);
            proof {
                assert forall|col: Color|
                    col != card.color implies #[trigger] self.top_spec(col) == old(
                    self,
                ).top_spec(col) by {
                    if col.index_spec() == card.color.index_spec() {
                        crate::card::lemma_card_index_injective(
                            Card { number: card.number, color: col },
                            card,
                        );
                    }
                }
            }
            true
        } else {
            false
        }
    }

    /// The one next-needed identity of each incomplete pile.
    pub fn currently_playable(&self) -> (r: CardSet)
        requires
            self.wf(),
        ensures
            r.inv(),
            forall|c: Card| #[trigger] r.contains_spec(c) == self.playable_spec(c),
    {
        let mut result = CardSet::none();
        let mut i: u32 = 0;
        while i < 5
            invariant
                self.wf(),
                result.inv(),
                i <= 5,
                forall|c: Card|
                    #[trigger] result.contains_spec(c) == (c.color.index_spec() < i
                        && self.playable_spec(c)),
            decreases 5 - i,
        {
            let color = Color::of_index(i);
            let t = match imap_get(&self.piles, i as u64) {
                Option::Some(t) => t,
                Option::None => 0,
            };
            proof {
                assert(t == self.top_spec(color));
            }
            if t < 5 {
                let number = Number::of_rank(t as u32 + 1);
                result.add(Card { number, color });
            }
            proof {
                assert forall|c: Card|
                    #[trigger] result.contains_spec(c) == (c.color.index_spec() < i + 1
                        && self.playable_spec(c)) by {
                    if c.color.index_spec() == i {
                        assert(c.color == color);
                    }
                }
            }
            i = i + 1;
        }
        result
    }

    /// Whether `card` would extend its pile right now.
    pub fn is_playable(&self, card: &Card) -> (r: bool)
        requires
            self.wf(),
        ensures
            r == self.playable_spec(*card),
    {
        self.currently_playable().contains(*card)
    }

    /// Every identity at or below its pile's top.
    pub fn already_played(&self) -> (r: CardSet)
        requires
            self.wf(),
        ensures
            r.inv(),
            forall|c: Card|
                #[trigger] r.contains_spec(c) == (c.number.rank_spec() <= self.top_spec(c.color)),
    {
        let mut result = CardSet::none();
        let mut i: u32 = 0;
        while i < 5
            invariant
                self.wf(),
                result.inv(),
                i <= 5,
                forall|c: Card|
                    #[trigger] result.contains_spec(c) == (c.color.index_spec() < i
                        && c.number.rank_spec() <= self.top_spec(c.color)),
            decreases 5 - i,
        {
            let color = Color::of_index(i);
            let t = match imap_get(&self.piles, i as u64) {
                Option::Some(t) => t,
                Option::None => 0,
            };
            proof {
                assert(t == self.top_spec(color));
            }
            let mut rank: u32 = 1;
            while rank <= t as u32
                invariant
                    self.wf(),
                    result.inv(),
                    t == self.top_spec(color),
                    t <= 5,
                    color.index_spec() == i,
                    1 <= rank <= t + 1,
                    forall|c: Card|
                        #[trigger] result.contains_spec(c) == ((c.color.index_spec() < i
                            && c.number.rank_spec() <= self.top_spec(c.color)) || (c.color == color
                            && c.number.rank_spec() < rank)),
                decreases t as u32 + 1 - rank,
            {
                let number = Number::of_rank(rank);
                result.add(Card { number, color });
                proof {
                    assert forall|c: Card|
                        #[trigger] result.contains_spec(c) == ((c.color.index_spec() < i
                            && c.number.rank_spec() <= self.top_spec(c.color)) || (c.color == color
                            && c.number.rank_spec() < rank + 1)) by {
                        if c.color == color && c.number.rank_spec() == rank {
                            assert(c == (Card { number, color }));
                        }
                    }
                }
                rank = rank + 1;
            }
            proof {
                assert forall|c: Card|
                    #[trigger] result.contains_spec(c) == (c.color.index_spec() < i + 1
                        && c.number.rank_spec() <= self.top_spec(c.color)) by {
                    if c.color == color {
                        assert(c.color.index_spec() == i);
                    }
                }
            }
            i = i + 1;
        }
        result
    }

    /// Whether every identity of `possibilities` would extend its pile.
    pub fn are_all_playable(&self, possibilities: &CardSet) -> (r: bool)
        requires
            self.wf(),
            possibilities.inv(),
        ensures
            r == forall|c: Card|
                #[trigger] possibilities.contains_spec(c) ==> self.playable_spec(c),
    {
        let cards = possibilities.iter();
        let mut i: usize = 0;
        while i < cards.len()
            invariant
                self.wf(),
                possibilities.inv(),
                i <= cards@.len(),
                forall|k: int| 0 <= k < cards@.len() ==> possibilities.contains_spec(
                    #[trigger] cards@[k],
                ),
                forall|c: Card| possibilities.contains_spec(c) ==> cards@.contains(c),
                forall|k: int| 0 <= k < i ==> self.playable_spec(#[trigger] cards@[k]),
            decreases cards.len() - i,
        {
            if !self.is_playable(&cards[i]) {
                return false;
            }
            i = i + 1;
        }
        proof {
            assert forall|c: Card|
                #[trigger] possibilities.contains_spec(c) implies self.playable_spec(c) by {
                let k = choose|k: int| 0 <= k < cards@.len() && cards@[k] == c;
                assert(self.playable_spec(cards@[k]));
            }
        }
        true
    }

    /// The identities that become playable once the given cards, assumed to
    /// reach the table in ascending rank order, have all been played.
    pub fn delayed_playable(&self, all_surely_known_touched_cards_in_hands: &CardSet) -> (r:
        CardSet)
        requires
            self.wf(),
        ensures
            r.inv(),
            forall|c: Card|
                #[trigger] r.contains_spec(c) == (c.number.rank_spec() == ext_top_from(
                    self.top_spec(c.color),
                    *all_surely_known_touched_cards_in_hands,
                    c.color,
                ) + 1),
    {
        let extra = all_surely_known_touched_cards_in_hands;
        let mut result = CardSet::none();
        let mut i: u32 = 0;
        while i < 5
            invariant
                self.wf(),
                result.inv(),
                i <= 5,
                forall|c: Card|
                    #[trigger] result.contains_spec(c) == (c.color.index_spec() < i
                        && c.number.rank_spec() == ext_top_from(
                        self.top_spec(c.color),
                        *extra,
                        c.color,
                    ) + 1),
            decreases 5 - i,
        {
            let color = Color::of_index(i);
            let t0 = match imap_get(&self.piles, i as u64) {
                Option::Some(t) => t,
                Option::None => 0,
            };
            proof {
                assert(t0 == self.top_spec(color));
            }
            let mut t: u32 = t0 as u32;
            while t < 5 && extra.contains(crate::card::card_of(color, t + 1))
                invariant
                    0 <= t <= 5,
                    ext_top_from(t as int, *extra, color) == ext_top_from(
                        self.top_spec(color),
                        *extra,
                        color,
                    ),
                decreases 5 - t,
            {
                t = t + 1;
            }
            proof {
                assert(ext_top_from(t as int, *extra, color) == t as int);
            }
            if t < 5 {
                let number = Number::of_rank(t + 1);
                result.add(Card { number, color });
            }
            proof {
                assert forall|c: Card|
                    #[trigger] result.contains_spec(c) == (c.color.index_spec() < i + 1
                        && c.number.rank_spec() == ext_top_from(
                        self.top_spec(c.color),
                        *extra,
                        c.color,
                    ) + 1) by {
                    if c.color.index_spec() == i {
                        assert(c.color == color);
                    }
                }
            }
            i = i + 1;
        }
        result
    }
}

/// Two sets with the same members extend a pile equally far.
pub proof fn lemma_ext_top_same(top: int, a: CardSet, b: CardSet, color: Color)
    requires
        forall|c: Card| a.contains_spec(c) == b.contains_spec(c),
    ensures
        ext_top_from(top, a, color) == ext_top_from(top, b, color),
    decreases 5 - top,
{
    if top < 5 && a.contains_spec(Card { number: number_of_rank_spec(top + 1), color }) {
        lemma_ext_top_same(top + 1, a, b, color);
    }
}

/// Law: a successful play is exactly the monotonic step — afterwards the
/// already-played identities are the old ones plus the played card, and a
/// card is playable only once its predecessor lies on the pile.
pub proof fn lemma_add_extends_played(pre: Firework, post: Firework, card: Card)
    requires
        pre.playable_spec(card),
        post.top_spec(card.color) == card.number.rank_spec(),
        forall|col: Color| col != card.color ==> #[trigger] post.top_spec(col) == pre.top_spec(col),
    ensures
        forall|c: Card|
            (c.number.rank_spec() <= post.top_spec(c.color)) == ((#[trigger] c.number.rank_spec()
                <= pre.top_spec(c.color)) || c == card),
{
    assert forall|c: Card|
        (c.number.rank_spec() <= post.top_spec(c.color)) == ((#[trigger] c.number.rank_spec()
            <= pre.top_spec(c.color)) || c == card) by {
        if c.color == card.color {
            if c.number.rank_spec() == card.number.rank_spec() {
                crate::card::lemma_card_index_injective(c, card);
            }
        }
    }
}

/// The pile total never exceeds the maximum score.
pub proof fn lemma_sum_tops_bound(f: Firework)
    requires
        f.wf(),
    ensures
        0 <= f.sum_tops(5) <= 25,
{
    assert forall|j: int| 0 <= j < 5 implies 0 <= #[trigger] f.top_spec(
        crate::card::color_of_index_spec(j),
    ) && f.top_spec(crate::card::color_of_index_spec(j)) <= 5 by {
        let col = crate::card::color_of_index_spec(j);
        assert(col.index_spec() == j);
        assert(imap_entries(f.piles).dom().contains(j as u64));
    }
    assert(f.sum_tops(1) == f.sum_tops(0) + f.top_spec(crate::card::color_of_index_spec(0)));
    assert(f.sum_tops(2) == f.sum_tops(1) + f.top_spec(crate::card::color_of_index_spec(1)));
    assert(f.sum_tops(3) == f.sum_tops(2) + f.top_spec(crate::card::color_of_index_spec(2)));
    assert(f.sum_tops(4) == f.sum_tops(3) + f.top_spec(crate::card::color_of_index_spec(3)));
    assert(f.sum_tops(5) == f.sum_tops(4) + f.top_spec(crate::card::color_of_index_spec(4)));
}

impl Clone for Firework {
    /// The copy has the same pile tops.
    fn clone(&self) -> (r: Self)
        ensures
            forall|col: Color| #[trigger] r.top_spec(col) == self.top_spec(col),
            self.wf() ==> r.wf(),
    {
        Firework { piles: imap_clone(&self.piles) }
    }
}

} // verus!
