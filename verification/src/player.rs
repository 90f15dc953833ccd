//! The player boundary: the actor interface and hint position sets.

use vstd::prelude::*;

use crate::action::Action;
use crate::card::Card;
pub use crate::card::Property;
use crate::card_set::bit;
use crate::rules::Rules;
use crate::card::{Color, Number};

verus! {

/// A conforming actor: it observes draws and actions and proposes its own.
/// Each implementation names the invariant its methods keep.
pub trait Player: Sized {
    spec fn inv(&self) -> bool;

    fn witness_action(&mut self, action: Action, player: usize)
        requires
            old(self).inv(),
        ensures
            final(self).inv(),
    ;

    fn witness_draw(&mut self, player: usize, card: Option<Card>)
        requires
            old(self).inv(),
        ensures
            final(self).inv(),
    ;

    fn request_action(&self) -> Action
        requires
            self.inv(),
    ;
}

/// `p` is the convention chop of a hand whose touched positions are `touched`:
/// the biggest untouched position.
pub open spec fn chop_spec(touched: PositionSet, p: int) -> bool {
    &&& 1 <= p <= touched.hand_size_spec()
    &&& !touched.contains_spec(p)
    &&& forall|q: int| p < q <= touched.hand_size_spec() ==> #[trigger] touched.contains_spec(q)
}

/// A subset of the hand positions `1..=hand_size` of one hand.
#[derive(Clone, Copy, Debug, PartialEq, Eq, Structural)]
pub struct PositionSet {
    mask: u32,
    hand_size: usize,
}

impl PositionSet {
    /// Whether position `i` belongs to the set.
    pub closed spec fn contains_spec(self, i: int) -> bool {
        bit(self.mask, i as u32) && 0 <= i < 32
    }

    pub closed spec fn hand_size_spec(self) -> int {
        self.hand_size as int
    }

    /// Only positions `1..=hand_size` occur, and the hand is small.
    pub open spec fn wf(self) -> bool {
        &&& self.hand_size_spec() <= 5
        &&& forall|i: int| #[trigger] self.contains_spec(i) ==> 1 <= i <= self.hand_size_spec()
    }

    /// Every position of `1..=hand_size` that is in `self` is in `touched` too.
    pub open spec fn is_subset_spec(self, touched: PositionSet) -> bool {
        forall|i: int| #[trigger] self.contains_spec(i) ==> touched.contains_spec(i)
    }

    /// `p` is the smallest position of the set.
    pub open spec fn is_smallest_spec(self, p: int) -> bool {
        self.contains_spec(p) && forall|q: int| #[trigger] self.contains_spec(q) ==> p <= q
    }

    /// `p` is the biggest position of the set.
    pub open spec fn is_biggest_spec(self, p: int) -> bool {
        self.contains_spec(p) && forall|q: int| #[trigger] self.contains_spec(q) ==> q <= p
    }

    /// The set is empty.
    pub open spec fn is_empty_spec(self) -> bool {
        forall|i: int| !(#[trigger] self.contains_spec(i))
    }

    /// The empty set over a hand of `hand_size` cards.
    pub fn new(hand_size: usize) -> (r: Self)
        requires
            hand_size <= 5,
        ensures
            r.wf(),
            r.hand_size_spec() == hand_size,
            r.is_empty_spec(),
    {
        proof {
            assert(forall|i: u32| 0u32 & (1u32 << i) == 0) by (bit_vector);
        }
        PositionSet { mask: 0, hand_size }
    }

    /// Put position `position` into the set.
    pub fn insert(&mut self, position: usize)
        requires
            old(self).wf(),
            1 <= position <= old(self).hand_size_spec(),
        ensures
            final(self).wf(),
            final(self).hand_size_spec() == old(self).hand_size_spec(),
            forall|i: int|
                #[trigger] final(self).contains_spec(i) == (old(self).contains_spec(i) || i
                    == position),
    {
        let p32 = position as u32;
        let ghost m = self.mask;
        self.mask = self.mask | (1u32 << p32);
        proof {
            assert forall|i: int|
                #[trigger] self.contains_spec(i) == (old(self).contains_spec(i) || i
                    == position) by {
                if 0 <= i < 32 {
                    let iu = i as u32;
                    assert(((m | (1u32 << p32)) & (1u32 << iu) != 0) == ((m & (1u32 << iu) != 0)
                        || iu == p32)) by (bit_vector)
                        requires
                            p32 < 32,
                    ;
                }
            }
        }
    }

    /// The smallest position of the set, if the set is not empty.
    pub fn smallest(&self) -> (r: Option<usize>)
        requires
            self.wf(),
        ensures
            r matches Option::Some(p) ==> self.is_smallest_spec(p as int),
            (r is None) == self.is_empty_spec(),
    {
        let mut i: usize = 1;
        while i <= 5
            invariant
                1 <= i <= 6,
                self.wf(),
                forall|q: int| q < i ==> !self.contains_spec(q),
            decreases 6 - i,
        {
            if self.mask & (1u32 << (i as u32)) != 0 {
                proof {
                    assert(self.contains_spec(i as int));
                }
                return Option::Some(i);
            }
            i = i + 1;
        }
        proof {
            assert forall|q: int| !self.contains_spec(q) by {
                if self.contains_spec(q) {
                    assert(1 <= q <= self.hand_size_spec());
                }
            }
        }
        Option::None
    }

    /// The biggest position of the set, if the set is not empty.
    pub fn biggest(&self) -> (r: Option<usize>)
        requires
            self.wf(),
        ensures
            r matches Option::Some(p) ==> self.is_biggest_spec(p as int),
            (r is None) == self.is_empty_spec(),
    {
        let mut i: usize = 5;
        while i >= 1
            invariant
                0 <= i <= 5,
                self.wf(),
                forall|q: int| q > i ==> !self.contains_spec(q),
            decreases i,
        {
            if self.mask & (1u32 << (i as u32)) != 0 {
                proof {
                    assert(self.contains_spec(i as int));
                }
                return Option::Some(i);
            }
            i = i - 1;
        }
        proof {
            assert forall|q: int| !self.contains_spec(q) by {
                if self.contains_spec(q) {
                    assert(1 <= q <= self.hand_size_spec());
                }
            }
        }
        Option::None
    }

    /// The positions of `1..=hand_size` that are not in the set.
    pub fn inverse(self) -> (r: Self)
        requires
            self.wf(),
        ensures
            r.wf(),
            r.hand_size_spec() == self.hand_size_spec(),
            forall|i: int|
                #[trigger] r.contains_spec(i) == (1 <= i <= self.hand_size_spec()
                    && !self.contains_spec(i)),
    {
        let mut r = Self::new(self.hand_size);
        let mut i: usize = 1;
        while i <= self.hand_size
            invariant
                1 <= i <= self.hand_size + 1,
                self.wf(),
                r.wf(),
                r.hand_size_spec() == self.hand_size_spec(),
                forall|q: int| r.contains_spec(q) ==> q < i,
                forall|q: int|
                    1 <= q < i ==> r.contains_spec(q) == !self.contains_spec(q),
            decreases self.hand_size + 1 - i,
        {
            if self.mask & (1u32 << (i as u32)) == 0 {
                r.insert(i);
            }
            i = i + 1;
        }
        r
    }

    /// The convention focus of a hint that names exactly the positions of
    /// `self`, when `touched` were the receiver's touched positions before it.
    /// If nothing new is touched, the focus is the smallest hinted position;
    /// otherwise the chop if newly hinted, else the smallest newly hinted one.
    pub fn focus_position(&self, touched: PositionSet) -> (r: usize)
        requires
            self.wf(),
            touched.wf(),
            self.hand_size_spec() == touched.hand_size_spec(),
            !self.is_empty_spec(),
        ensures
            self.is_subset_spec(touched) ==> self.is_smallest_spec(r as int),
            !self.is_subset_spec(touched) && (exists|p: int|
                chop_spec(touched, p) && self.contains_spec(p)) ==> chop_spec(touched, r as int)
                && self.contains_spec(r as int),
            !self.is_subset_spec(touched) && (forall|p: int|
                chop_spec(touched, p) ==> !self.contains_spec(p)) ==> (self.contains_spec(r as int)
                && !touched.contains_spec(r as int) && (forall|q: int|
                self.contains_spec(q) && !touched.contains_spec(q) ==> r <= q)),
    {
        if self.is_subset_of(touched) {
            let r = self.smallest();
            proof {
                assert(r is Some);
            }
            return match r {
                Option::Some(p) => p,
                Option::None => 1,
            };
        }
        let inv = touched.inverse();
        proof {
            let w = choose|i: int|
                self.contains_spec(i) && !touched.contains_spec(i);
            assert(inv.contains_spec(w));
            assert(!inv.is_empty_spec());
        }
        let chop_opt = inv.biggest();
        let chop = match chop_opt {
            Option::Some(p) => p,
            Option::None => 1,
        };
        proof {
            assert(inv.is_biggest_spec(chop as int));
            assert forall|q: int|
                (chop as int) < q && q <= touched.hand_size_spec() implies touched.contains_spec(
                q,
            ) by {
                if !touched.contains_spec(q) {
                    assert(inv.contains_spec(q));
                }
            }
            assert(chop_spec(touched, chop as int));
        }
        if self.contains(chop) {
            chop
        } else {
            let rest = self.without(touched);
            proof {
                let w = choose|i: int|
                    self.contains_spec(i) && !touched.contains_spec(i);
                assert(rest.contains_spec(w));
            }
            let r = rest.smallest();
            proof {
                assert forall|q: int|
                    self.contains_spec(q) && !touched.contains_spec(q) implies rest.contains_spec(
                    q,
                ) by {}
            }
            match r {
                Option::Some(p) => p,
                Option::None => 1,
            }
        }
    }

    /// Whether every position of the set is also in `touched`.
    pub fn is_subset_of(&self, touched: PositionSet) -> (r: bool)
        requires
            self.wf(),
            touched.wf(),
            self.hand_size_spec() == touched.hand_size_spec(),
        ensures
            r == self.is_subset_spec(touched),
    {
        let mut i: usize = 1;
        while i <= 5
            invariant
                1 <= i <= 6,
                self.wf(),
                touched.wf(),
                forall|q: int| q < i && self.contains_spec(q) ==> touched.contains_spec(q),
            decreases 6 - i,
        {
            if self.mask & (1u32 << (i as u32)) != 0 && touched.mask & (1u32 << (i as u32)) == 0 {
                proof {
                    assert(self.contains_spec(i as int) && !touched.contains_spec(i as int));
                }
                return false;
            }
            i = i + 1;
        }
        proof {
            assert forall|q: int| self.contains_spec(q) implies touched.contains_spec(q) by {
                assert(1 <= q <= self.hand_size_spec());
            }
        }
        true
    }

    /// How many positions the hand has.
    pub fn hand_size(&self) -> (r: usize)
        ensures
            r == self.hand_size_spec(),
    {
        self.hand_size
    }

    /// Whether the set is well formed: an executable check of `wf`.
    pub fn is_wf(&self) -> (r: bool)
        ensures
            r == self.wf(),
    {
        if self.hand_size > 5 {
            proof {
                assert(!self.wf());
            }
            return false;
        }
        let bound = self.hand_size as u32;
        let high_clear = self.mask >> (bound + 1) == 0;
        let zero_clear = self.mask & 1u32 == 0;
        let ok = high_clear && zero_clear;
        proof {
            let m = self.mask;
            if ok {
                assert forall|i: int| #[trigger] self.contains_spec(i) implies 1 <= i
                    <= self.hand_size_spec() by {
                    let iu = i as u32;
                    assert((m >> (bound + 1) == 0 && m & 1u32 == 0 && m & (1u32 << iu) != 0)
                        ==> (1 <= iu && iu <= bound)) by (bit_vector)
                        requires
                            bound <= 5,
                    ;
                }
            } else if !high_clear {
                let rest = m >> (bound + 1);
                vstd::std_specs::bits::axiom_u32_trailing_zeros(rest);
                let tz = vstd::std_specs::bits::u32_trailing_zeros(rest);
                assert(m & (1u32 << (tz + bound + 1)) != 0 && tz + bound + 1 < 32)
                    by (bit_vector)
                    requires
                        tz < 32,
                        ((m >> (bound + 1)) >> tz) & 1u32 == 1u32,
                        bound <= 5,
                ;
                assert(self.contains_spec((tz + bound + 1) as int));
                assert(!self.wf());
            } else {
                assert(m & (1u32 << 0u32) != 0) by (bit_vector)
                    requires
                        m & 1u32 != 0,
                ;
                assert(self.contains_spec(0));
                assert(!self.wf());
            }
        }
        ok
    }

    /// Whether position `id` belongs to the set.
    pub fn contains(&self, id: usize) -> (r: bool)
        requires
            id < 6,
        ensures
            r == self.contains_spec(id as int),
    {
        self.mask & (1u32 << (id as u32)) != 0
    }

    /// The positions of the set that are not in `other`.
    pub fn without(self, other: PositionSet) -> (r: Self)
        requires
            self.wf(),
            other.wf(),
            self.hand_size_spec() == other.hand_size_spec(),
        ensures
            r.wf(),
            r.hand_size_spec() == self.hand_size_spec(),
            forall|i: int|
                #[trigger] r.contains_spec(i) == (self.contains_spec(i)
                    && !other.contains_spec(i)),
    {
        let mut r = Self::new(self.hand_size);
        let mut i: usize = 1;
        while i <= self.hand_size
            invariant
                1 <= i <= self.hand_size + 1,
                self.wf(),
                other.wf(),
                r.wf(),
                r.hand_size_spec() == self.hand_size_spec(),
                forall|q: int| r.contains_spec(q) ==> q < i,
                forall|q: int|
                    1 <= q < i ==> r.contains_spec(q) == (self.contains_spec(q)
                        && !other.contains_spec(q)),
            decreases self.hand_size + 1 - i,
        {
            if self.mask & (1u32 << (i as u32)) != 0 && other.mask & (1u32 << (i as u32)) == 0 {
                r.insert(i);
            }
            i = i + 1;
        }
        proof {
            assert forall|i: int|
                r.contains_spec(i) == (self.contains_spec(i) && !other.contains_spec(i)) by {
                if !(1 <= i <= self.hand_size_spec()) {
                    assert(!r.contains_spec(i) && !self.contains_spec(i));
                }
            }
        }
        r
    }

    /// Whether the set is empty.
    pub fn is_empty(&self) -> (r: bool)
        ensures
            r == self.is_empty_spec(),
    {
        let r = self.mask == 0;
        proof {
            if self.mask == 0 {
                assert(forall|i: u32| 0u32 & (1u32 << i) == 0) by (bit_vector);
            } else {
                let m = self.mask;
                vstd::std_specs::bits::axiom_u32_trailing_zeros(m);
                let tz = vstd::std_specs::bits::u32_trailing_zeros(m);
                assert(m & (1u32 << tz) != 0) by (bit_vector)
                    requires
                        tz < 32,
                        (m >> tz) & 1u32 == 1u32,
                ;
                assert(self.contains_spec(tz as int));
            }
        }
        r
    }

    /// Whether every position of `1..=hand_size` is in the set.
    pub fn is_full(&self) -> (r: bool)
        requires
            self.wf(),
        ensures
            r == (forall|i: int| 1 <= i <= self.hand_size_spec() ==> self.contains_spec(i)),
    {
        let inv = self.inverse();
        let r = inv.is_empty();
        proof {
            if r {
                assert forall|i: int|
                    1 <= i <= self.hand_size_spec() implies self.contains_spec(i) by {
                    assert(!inv.contains_spec(i));
                }
            } else {
                let w = choose|i: int| inv.contains_spec(i);
                assert(1 <= w <= self.hand_size_spec() && !self.contains_spec(w));
            }
        }
        r
    }
}


impl Property {
    /// All ten hintable properties: the five ranks, then the colors in use.
    pub fn all(rules: &Rules) -> (r: Vec<Property>)
        ensures
            r@ =~= seq![
                Property::Number(Number::One),
                Property::Number(Number::Two),
                Property::Number(Number::Three),
                Property::Number(Number::Four),
                Property::Number(Number::Five),
                Property::Color(Color::Red),
                Property::Color(Color::Blue),
                Property::Color(Color::Green),
                Property::Color(Color::Yellow),
                Property::Color(Color::White),
            ],
    {
        let mut result: Vec<Property> = Vec::new();
        result.push(Property::Number(Number::One));
        result.push(Property::Number(Number::Two));
        result.push(Property::Number(Number::Three));
        result.push(Property::Number(Number::Four));
        result.push(Property::Number(Number::Five));
        let colors = rules.used_colors();
        let mut i: usize = 0;
        while i < colors.len()
            invariant
                colors@ =~= seq![Color::Red, Color::Blue, Color::Green, Color::Yellow, Color::White],
                i <= 5,
                result@.len() == 5 + i,
                forall|j: int| 0 <= j < 5 ==> result@[j] == seq![
                    Property::Number(Number::One),
                    Property::Number(Number::Two),
                    Property::Number(Number::Three),
                    Property::Number(Number::Four),
                    Property::Number(Number::Five),
                ][j],
                forall|j: int| 0 <= j < i ==> result@[5 + j] == Property::Color(colors@[j]),
            decreases colors@.len() - i,
        {
            result.push(Property::Color(colors[i]));
            i = i + 1;
        }
        proof {
            assert(result@ =~= seq![
                Property::Number(Number::One),
                Property::Number(Number::Two),
                Property::Number(Number::Three),
                Property::Number(Number::Four),
                Property::Number(Number::Five),
                Property::Color(Color::Red),
                Property::Color(Color::Blue),
                Property::Color(Color::Green),
                Property::Color(Color::Yellow),
                Property::Color(Color::White),
            ]);
        }
        result
    }
}

} // verus!
