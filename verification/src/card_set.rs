//! Sets of card identities, stored as a 25-bit mask over the 0..25 numbering.

use vstd::prelude::*;

use crate::card::{
    card_of_index_spec, card_to_index, index_to_card, lemma_card_index_injective, Card, Color,
    Number, Property,
};

verus! {

/// Whether bit `i` of `b` is set.
pub open spec fn bit(b: u32, i: u32) -> bool {
    b & (1u32 << i) != 0
}

/// How many of the bits of `b` below position `n` are set.
pub closed spec fn count_below(b: u32, n: int) -> nat
    decreases n,
{
    if n <= 0 {
        0
    } else {
        count_below(b, n - 1) + (if bit(b, (n - 1) as u32) {
            1nat
        } else {
            0nat
        })
    }
}

/// The bit mask of the five identities matching a property.
pub closed spec fn mask_of(hinted_property: Property) -> u32 {
    match hinted_property {
        Property::Color(c) => (0x1Fu32 << (5 * c.index_spec()) as u32),
        Property::Number(n) => (0x108421u32 << (n.rank_spec() - 1) as u32),
    }
}

proof fn lemma_bit_and(a: u32, b: u32, i: u32)
    ensures
        bit(a & b, i) == (bit(a, i) && bit(b, i)),
{
    assert(((a & b) & (1u32 << i) != 0) == ((a & (1u32 << i) != 0) && (b & (1u32 << i) != 0)))
        by (bit_vector);
}

proof fn lemma_bit_or(a: u32, b: u32, i: u32)
    ensures
        bit(a | b, i) == (bit(a, i) || bit(b, i)),
{
    assert(((a | b) & (1u32 << i) != 0) == ((a & (1u32 << i) != 0) || (b & (1u32 << i) != 0)))
        by (bit_vector);
}

proof fn lemma_bit_diff(a: u32, b: u32, i: u32)
    ensures
        bit(a & !b, i) == (bit(a, i) && !bit(b, i)),
{
    assert(((a & !b) & (1u32 << i) != 0) == ((a & (1u32 << i) != 0) && !(b & (1u32 << i) != 0)))
        by (bit_vector);
}

proof fn lemma_bit_single(j: u32, i: u32)
    requires
        i < 32,
        j < 32,
    ensures
        bit(1u32 << j, i) == (i == j),
{
    assert(((1u32 << j) & (1u32 << i) != 0) == (i == j)) by (bit_vector)
        requires
            i < 32,
            j < 32,
    ;
}

proof fn lemma_bit_zero(i: u32)
    ensures
        !bit(0, i),
{
    assert(0u32 & (1u32 << i) == 0) by (bit_vector);
}

proof fn lemma_bit_high(b: u32, i: u32)
    requires
        b < 0x2000000,
        25 <= i,
    ensures
        !bit(b, i),
{
    assert(b & (1u32 << i) == 0) by (bit_vector)
        requires
            b < 0x2000000u32,
            25 <= i,
    ;
}

proof fn lemma_count_mono(b: u32, m: int, n: int)
    requires
        m <= n,
    ensures
        count_below(b, m) <= count_below(b, n),
    decreases n - m,
{
    if m < n {
        lemma_count_mono(b, m, n - 1);
    }
}

proof fn lemma_count_all_clear(b: u32, n: int)
    requires
        forall|i: u32| i < n ==> !bit(b, i),
    ensures
        count_below(b, n) == 0,
    decreases n,
{
    if n > 0 {
        lemma_count_all_clear(b, n - 1);
    }
}

proof fn lemma_count_all_set(b: u32, n: int)
    requires
        0 <= n,
        forall|i: u32| i < n ==> bit(b, i),
    ensures
        count_below(b, n) == n,
    decreases n,
{
    if n > 0 {
        lemma_count_all_set(b, n - 1);
    }
}

proof fn lemma_count_at_least_one(b: u32, i: u32, n: int)
    requires
        i < n,
        bit(b, i),
    ensures
        count_below(b, n) >= 1,
{
    assert(count_below(b, i + 1) >= 1);
    lemma_count_mono(b, i + 1, n);
}

proof fn lemma_count_same(a: u32, b: u32, n: int)
    requires
        forall|j: u32| j < n ==> bit(a, j) == bit(b, j),
    ensures
        count_below(a, n) == count_below(b, n),
    decreases n,
{
    if n > 0 {
        lemma_count_same(a, b, n - 1);
    }
}

proof fn lemma_count_one_more(a: u32, b: u32, n: int, i: u32)
    requires
        i < n <= 32,
        !bit(a, i),
        bit(b, i),
        forall|j: u32| j < n && j != i ==> bit(a, j) == bit(b, j),
    ensures
        count_below(b, n) == count_below(a, n) + 1,
    decreases n,
{
    if i == n - 1 {
        assert forall|j: u32| j < n - 1 implies bit(a, j) == bit(b, j) by {
            assert(j != i);
        }
        lemma_count_same(a, b, n - 1);
    } else {
        lemma_count_one_more(a, b, n - 1, i);
    }
}

/// With exactly one set bit below `n`, a known set bit pins every other bit clear.
proof fn lemma_unique_bit(b: u32, i: u32, n: int)
    requires
        i < n,
        bit(b, i),
        count_below(b, i as int) == 0,
        count_below(b, n) == 1,
    ensures
        forall|j: u32| j < n && j != i ==> !bit(b, j),
{
    assert forall|j: u32| j < n && j != i implies !bit(b, j) by {
        if bit(b, j) {
            if j < i {
                lemma_count_at_least_one(b, j, i as int);
            } else {
                assert(count_below(b, i + 1) == 1);
                lemma_count_mono(b, i + 1, j as int);
                assert(count_below(b, j + 1) >= 2);
                lemma_count_mono(b, j + 1, n);
            }
        }
    }
}

/// Counts how many integers in `[0, n)` lie in the window `[lo, lo + 5)`.
spec fn count_in_window(n: int, lo: int) -> nat
    decreases n,
{
    if n <= 0 {
        0
    } else {
        count_in_window(n - 1, lo) + (if lo <= n - 1 < lo + 5 {
            1nat
        } else {
            0nat
        })
    }
}

/// Counts how many integers in `[0, n)` are congruent to `k` modulo 5.
spec fn count_in_stride(n: int, k: int) -> nat
    decreases n,
{
    if n <= 0 {
        0
    } else {
        count_in_stride(n - 1, k) + (if (n - 1) % 5 == k {
            1nat
        } else {
            0nat
        })
    }
}

proof fn lemma_count_below_window(b: u32, lo: int, n: int)
    requires
        0 <= n <= 25,
        forall|i: u32| i < 25 ==> (bit(b, i) == (lo <= i < lo + 5)),
    ensures
        count_below(b, n) == count_in_window(n, lo),
    decreases n,
{
    if n > 0 {
        lemma_count_below_window(b, lo, n - 1);
    }
}

proof fn lemma_count_below_stride(b: u32, k: int, n: int)
    requires
        0 <= n <= 25,
        forall|i: u32| i < 25 ==> (bit(b, i) == ((i as int) % 5 == k)),
    ensures
        count_below(b, n) == count_in_stride(n, k),
    decreases n,
{
    if n > 0 {
        lemma_count_below_stride(b, k, n - 1);
    }
}

#[verifier::rlimit(60)]
proof fn lemma_window_five(lo: int)
    requires
        lo == 0 || lo == 5 || lo == 10 || lo == 15 || lo == 20,
    ensures
        count_in_window(25, lo) == 5,
{
    reveal_with_fuel(count_in_window, 26);
}

#[verifier::rlimit(60)]
proof fn lemma_stride_five(k: int)
    requires
        0 <= k < 5,
    ensures
        count_in_stride(25, k) == 5,
{
    reveal_with_fuel(count_in_stride, 26);
}

proof fn lemma_count_complement(a: u32, b: u32, n: int)
    requires
        0 <= n <= 25,
        forall|i: u32| i < 25 ==> (bit(a, i) == !bit(b, i)),
    ensures
        count_below(a, n) + count_below(b, n) == n,
    decreases n,
{
    if n > 0 {
        lemma_count_complement(a, b, n - 1);
    }
}

/// The bits of a property mask match exactly the satisfying identities.
proof fn lemma_mask_bits(p: Property)
    ensures
        mask_of(p) < 0x2000000,
        forall|i: u32|
            i < 25 ==> (bit(mask_of(p), i) == card_of_index_spec(
                i as int,
            ).satisfies_spec(p)),
        forall|c: Card| bit(mask_of(p), c.index_spec() as u32) == c.satisfies_spec(p),
        count_below(mask_of(p), 25) == 5,
{
    let m = mask_of(p);
    match p {
        Property::Color(col) => {
            let ci = col.index_spec();
            assert(ci < 5);
            let sh = (5 * ci) as u32;
            assert(m == 0x1Fu32 << sh);
            assert(0x1Fu32 << sh < 0x2000000) by (bit_vector)
                requires
                    sh == 0 || sh == 5 || sh == 10 || sh == 15 || sh == 20,
            ;
            assert(forall|i: u32|
                i < 25 ==> (((0x1Fu32 << sh) & (1u32 << i) != 0) == (sh <= i < sh + 5)))
                by (bit_vector)
                requires
                    sh == 0 || sh == 5 || sh == 10 || sh == 15 || sh == 20,
            ;
            assert(forall|i: u32| i < 25 ==> (bit(m, i) == (sh <= i < sh + 5)));
            assert forall|i: u32| i < 25 implies (bit(m, i) == card_of_index_spec(
                i as int,
            ).satisfies_spec(p)) by {
                crate::card::lemma_card_of_index(i as int);
                let c = card_of_index_spec(i as int);
                assert(i == 5 * c.color.index_spec() + c.number.rank_spec() - 1);
                assert((sh <= i < sh + 5) == (c.color.index_spec() == ci));
                assert((c.color.index_spec() == ci) == (c.color == col));
            }
            assert forall|c: Card| bit(m, c.index_spec() as u32) == c.satisfies_spec(p) by {
                let i = c.index_spec() as u32;
                assert(i < 25);
                assert((sh <= i < sh + 5) == (c.color.index_spec() == ci));
                assert((c.color.index_spec() == ci) == (c.color == col));
            }
            lemma_count_below_window(m, sh as int, 25);
            lemma_window_five(sh as int);
        },
        Property::Number(num) => {
            let k = (num.rank_spec() - 1) as int;
            assert(0 <= k < 5);
            let sh = k as u32;
            assert(m == 0x108421u32 << sh);
            assert(0x108421u32 << sh < 0x2000000) by (bit_vector)
                requires
                    sh < 5,
            ;
            assert(forall|i: u32|
                i < 25 ==> (((0x108421u32 << sh) & (1u32 << i) != 0) == (i % 5 == sh)))
                by (bit_vector)
                requires
                    sh < 5,
            ;
            assert forall|i: u32| i < 25 implies (bit(m, i) == ((i as int) % 5 == k)) by {
                assert((i % 5 == sh) == ((i as int) % 5 == k));
            }
            assert forall|i: u32| i < 25 implies (bit(m, i) == card_of_index_spec(
                i as int,
            ).satisfies_spec(p)) by {
                crate::card::lemma_card_of_index(i as int);
                let c = card_of_index_spec(i as int);
                assert(i == 5 * c.color.index_spec() + c.number.rank_spec() - 1);
                assert((i as int) % 5 == c.number.rank_spec() - 1) by (nonlinear_arith)
                    requires
                        i == 5 * c.color.index_spec() + c.number.rank_spec() - 1,
                        0 <= c.color.index_spec() < 5,
                        1 <= c.number.rank_spec() <= 5,
                ;
                assert((c.number.rank_spec() - 1 == k) == (c.number == num));
            }
            assert forall|c: Card| bit(m, c.index_spec() as u32) == c.satisfies_spec(p) by {
                let i = c.index_spec() as u32;
                assert(i < 25);
                assert((i as int) % 5 == c.number.rank_spec() - 1) by (nonlinear_arith)
                    requires
                        i == 5 * c.color.index_spec() + c.number.rank_spec() - 1,
                        0 <= c.color.index_spec() < 5,
                        1 <= c.number.rank_spec() <= 5,
                ;
                assert((c.number.rank_spec() - 1 == k) == (c.number == num));
            }
            lemma_count_below_stride(m, k, 25);
            lemma_stride_five(k);
        },
    }
}

/// A set of card identities; one bit per identity in the 0..25 numbering.
#[derive(Clone, Copy, PartialEq, Eq, Structural, Debug)]
pub struct CardSet {
    bits: u32,
}

impl CardSet {
    /// All bits above position 24 are clear.
    pub closed spec fn inv(self) -> bool {
        self.bits < 0x2000000
    }

    /// Whether the set holds the identity `c`.
    pub closed spec fn contains_spec(self, c: Card) -> bool {
        bit(self.bits, c.index_spec() as u32)
    }

    /// How many identities the set holds.
    pub closed spec fn len_spec(self) -> nat {
        count_below(self.bits, 25)
    }

    pub closed spec fn none_spec() -> CardSet {
        CardSet { bits: 0 }
    }

    pub closed spec fn all_spec() -> CardSet {
        CardSet { bits: 0x1FFFFFF }
    }

    pub closed spec fn just_spec(c: Card) -> CardSet {
        CardSet { bits: 1u32 << (c.index_spec() as u32) }
    }

    pub closed spec fn with_property_spec(hinted_property: Property) -> CardSet {
        CardSet { bits: mask_of(hinted_property) }
    }

    pub closed spec fn intersect_spec(self, other: CardSet) -> CardSet {
        CardSet { bits: self.bits & other.bits }
    }

    pub closed spec fn merge_spec(self, other: CardSet) -> CardSet {
        CardSet { bits: self.bits | other.bits }
    }

    pub closed spec fn exclude_spec(self, other: CardSet) -> CardSet {
        CardSet { bits: self.bits & !other.bits }
    }

    pub open spec fn apply_spec(self, hinted_property: Property) -> CardSet {
        self.intersect_spec(Self::with_property_spec(hinted_property))
    }

    pub open spec fn apply_not_spec(self, hinted_property: Property) -> CardSet {
        self.exclude_spec(Self::with_property_spec(hinted_property))
    }

    /// The raw mask value.
    pub closed spec fn bits_spec(self) -> u32 {
        self.bits
    }

    /// The raw mask value, for storing a set as a plain word.
    pub fn to_bits(&self) -> (r: u32)
        ensures
            r == self.bits_spec(),
            forall|c: Card| #[trigger] self.contains_spec(c) == bit(r, c.index_spec() as u32),
            self.inv() == (r < 0x2000000),
    {
        self.bits
    }

    /// The set with the given raw mask value.
    pub fn from_bits(b: u32) -> (r: Self)
        ensures
            r.bits_spec() == b,
            forall|c: Card| #[trigger] r.contains_spec(c) == bit(b, c.index_spec() as u32),
            r.inv() == (b < 0x2000000),
    {
        CardSet { bits: b }
    }

    /// The empty set.
    pub fn none() -> (r: Self)
        ensures
            r == Self::none_spec(),
            r.inv(),
            forall|c: Card| !(#[trigger] r.contains_spec(c)),
            r.len_spec() == 0,
    {
        proof {
            assert forall|c: Card| !Self::none_spec().contains_spec(c) by {
                lemma_bit_zero(c.index_spec() as u32);
            }
            assert forall|i: u32| i < 25 implies !bit(0, i) by {
                lemma_bit_zero(i);
            }
            lemma_count_all_clear(0, 25);
        }
        CardSet { bits: 0 }
    }

    /// Whether the set holds no identity.
    pub fn is_empty(&self) -> (r: bool)
        ensures
            r == (*self == Self::none_spec()),
            self.inv() ==> r == (self.len_spec() == 0),
            self.inv() ==> r == (forall|c: Card| !self.contains_spec(c)),
    {
        let r = self.bits == 0;
        proof {
            let b = self.bits;
            if b == 0 {
                assert forall|i: u32| i < 25 implies !bit(b, i) by {
                    lemma_bit_zero(i);
                }
                lemma_count_all_clear(b, 25);
                assert forall|c: Card| !self.contains_spec(c) by {
                    lemma_bit_zero(c.index_spec() as u32);
                }
            } else if self.inv() {
                vstd::std_specs::bits::axiom_u32_trailing_zeros(b);
                let tz = vstd::std_specs::bits::u32_trailing_zeros(b);
                assert(b & (1u32 << tz) != 0) by (bit_vector)
                    requires
                        tz < 32,
                        (b >> tz) & 1u32 == 1u32,
                ;
                assert(bit(b, tz));
                if tz >= 25 {
                    lemma_bit_high(b, tz);
                } else {
                    lemma_count_at_least_one(b, tz, 25);
                    crate::card::lemma_card_of_index(tz as int);
                    let c = card_of_index_spec(tz as int);
                    assert(self.contains_spec(c));
                }
            }
        }
        r
    }

    /// The set of all 25 identities.
    pub fn all() -> (r: Self)
        ensures
            r == Self::all_spec(),
            r.inv(),
            forall|c: Card| #[trigger] r.contains_spec(c),
            r.len_spec() == 25,
    {
        proof {
            assert(forall|i: u32| i < 25 ==> 0x1FFFFFFu32 & (1u32 << i) != 0) by (bit_vector);
            assert forall|c: Card| Self::all_spec().contains_spec(c) by {
                assert(c.index_spec() < 25);
            }
            assert forall|i: u32| i < 25 implies bit(0x1FFFFFF, i) by {}
            lemma_count_all_set(0x1FFFFFF, 25);
        }
        CardSet { bits: 0x1FFFFFF }
    }

    /// How many identities the set holds.
    pub fn len(&self) -> (r: u32)
        ensures
            r == self.len_spec(),
            r <= 25,
    {
        let mut count: u32 = 0;
        let mut i: u32 = 0;
        while i < 25
            invariant
                i <= 25,
                count == count_below(self.bits, i as int),
                count <= i,
            decreases 25 - i,
        {
            if self.bits & (1u32 << i) != 0 {
                proof {
                    assert(bit(self.bits, i));
                }
                count = count + 1;
            } else {
                proof {
                    assert(!bit(self.bits, i));
                }
            }
            i = i + 1;
        }
        count
    }

    /// Keep only the identities that match the hinted property.
    pub fn apply(&mut self, hinted_property: Property)
        ensures
            *final(self) == old(self).apply_spec(hinted_property),
            old(self).inv() ==> final(self).inv(),
            forall|c: Card|
                #[trigger] final(self).contains_spec(c) == (old(self).contains_spec(c)
                    && c.satisfies_spec(hinted_property)),
    {
        let mask = Self::with_property(hinted_property);
        self.intersect(&mask);
    }

    /// Drop every identity that matches the hinted property.
    pub fn apply_not(&mut self, hinted_property: Property)
        ensures
            *final(self) == old(self).apply_not_spec(hinted_property),
            old(self).inv() ==> final(self).inv(),
            forall|c: Card|
                #[trigger] final(self).contains_spec(c) == (old(self).contains_spec(c)
                    && !c.satisfies_spec(hinted_property)),
    {
        let mask = Self::with_property(hinted_property);
        self.exclude(&mask);
    }

    /// Add every identity of `other` to this set.
    pub fn extend(&mut self, other: Self)
        ensures
            *final(self) == old(self).merge_spec(other),
            old(self).inv() && other.inv() ==> final(self).inv(),
            forall|c: Card|
                #[trigger] final(self).contains_spec(c) == (old(self).contains_spec(c)
                    || other.contains_spec(c)),
    {
        self.merge(&other);
    }

    /// The set holding exactly the identity `card`.
    pub fn just(card: Card) -> (r: Self)
        ensures
            r == Self::just_spec(card),
            r.inv(),
            forall|c: Card| #[trigger] r.contains_spec(c) == (c == card),
    {
        let idx = card_to_index(card);
        let r = CardSet { bits: 1u32 << idx };
        proof {
            assert(1u32 << idx < 0x2000000) by (bit_vector)
                requires
                    idx < 25,
            ;
            assert forall|c: Card| #[trigger] r.contains_spec(c) == (c == card) by {
                lemma_bit_single(idx, c.index_spec() as u32);
                if c.index_spec() == card.index_spec() {
                    lemma_card_index_injective(c, card);
                }
            }
        }
        r
    }

    /// Add one identity; reports whether it was new. The cardinality grows by
    /// one exactly when the identity was new, and no other membership changes.
    pub fn add(&mut self, card: Card) -> (r: bool)
        ensures
            *final(self) == old(self).merge_spec(Self::just_spec(card)),
            old(self).inv() ==> final(self).inv(),
            r == !old(self).contains_spec(card),
            forall|c: Card|
                #[trigger] final(self).contains_spec(c) == (old(self).contains_spec(c) || c == card),
            final(self).len_spec() == old(self).len_spec() + (if r {
                1nat
            } else {
                0nat
            }),
    {
        let just_card = Self::just(card);
        let already_there = self.intersects(&just_card);
        proof {
            let a = self.bits;
            let i = card.index_spec() as u32;
            assert((CardSet { bits: a & (1u32 << i) } != CardSet { bits: 0u32 }) == (a & (1u32 << i)
                != 0));
        }
        self.merge(&just_card);
        proof {
            let a = old(self).bits;
            let b = self.bits;
            let i = card.index_spec() as u32;
            assert(b == a | (1u32 << i));
            assert forall|j: u32| j < 25 && j != i implies bit(a, j) == bit(b, j) by {
                lemma_bit_or(a, 1u32 << i, j);
                lemma_bit_single(i, j);
            }
            if already_there {
                assert(bit(a, i));
                assert(bit(b, i)) by {
                    lemma_bit_or(a, 1u32 << i, i);
                    lemma_bit_single(i, i);
                }
                lemma_count_same(a, b, 25);
            } else {
                assert(!bit(a, i));
                assert(bit(b, i)) by {
                    lemma_bit_or(a, 1u32 << i, i);
                    lemma_bit_single(i, i);
                }
                lemma_count_one_more(a, b, 25, i);
            }
        }
        !already_there
    }

    /// Remove one identity; reports whether it was there.
    pub fn remove(&mut self, card: Card) -> (r: bool)
        ensures
            *final(self) == old(self).exclude_spec(Self::just_spec(card)),
            old(self).inv() ==> final(self).inv(),
            r == old(self).contains_spec(card),
            forall|c: Card|
                #[trigger] final(self).contains_spec(c) == (old(self).contains_spec(c) && c != card),
    {
        let just_card = Self::just(card);
        let was_there_before = self.intersects(&just_card);
        proof {
            let a = self.bits;
            let i = card.index_spec() as u32;
            assert((CardSet { bits: a & (1u32 << i) } != CardSet { bits: 0u32 }) == (a & (1u32 << i)
                != 0));
        }
        self.exclude(&just_card);
        was_there_before
    }

    /// The five identities that match the hinted property.
    pub fn with_property(hinted_property: Property) -> (r: Self)
        ensures
            r == Self::with_property_spec(hinted_property),
            r.inv(),
            forall|c: Card| #[trigger] r.contains_spec(c) == c.satisfies_spec(hinted_property),
            r.len_spec() == 5,
    {
        proof {
            lemma_mask_bits(hinted_property);
        }
        let data: u32 = match hinted_property {
            Property::Color(c) => 0x1Fu32 << (5 * c.index()),
            Property::Number(n) => 0x108421u32 << (n.score() as u32 - 1),
        };
        CardSet { bits: data }
    }

    /// Keep only what is also in `other`.
    pub fn intersect(&mut self, other: &CardSet)
        ensures
            *final(self) == old(self).intersect_spec(*other),
            old(self).inv() ==> final(self).inv(),
            forall|c: Card|
                #[trigger] final(self).contains_spec(c) == (old(self).contains_spec(c)
                    && other.contains_spec(c)),
    {
        proof {
            let a = self.bits;
            let b = other.bits;
            assert forall|c: Card|
                bit(a & b, c.index_spec() as u32) == (bit(a, c.index_spec() as u32) && bit(
                    b,
                    c.index_spec() as u32,
                )) by {
                lemma_bit_and(a, b, c.index_spec() as u32);
            }
            assert(a & b <= a) by (bit_vector);
        }
        self.bits = self.bits & other.bits;
    }

    /// Drop everything that is in `other`.
    pub fn exclude(&mut self, other: &CardSet)
        ensures
            *final(self) == old(self).exclude_spec(*other),
            old(self).inv() ==> final(self).inv(),
            forall|c: Card|
                #[trigger] final(self).contains_spec(c) == (old(self).contains_spec(c)
                    && !other.contains_spec(c)),
    {
        proof {
            let a = self.bits;
            let b = other.bits;
            assert forall|c: Card|
                bit(a & !b, c.index_spec() as u32) == (bit(a, c.index_spec() as u32) && !bit(
                    b,
                    c.index_spec() as u32,
                )) by {
                lemma_bit_diff(a, b, c.index_spec() as u32);
            }
            assert(a & !b <= a) by (bit_vector);
        }
        self.bits = self.bits & !other.bits;
    }

    /// Whether the set holds the identity `card`.
    pub fn contains(&self, card: Card) -> (r: bool)
        ensures
            r == self.contains_spec(card),
    {
        self.bits & (1u32 << card_to_index(card)) != 0
    }

    /// Add every identity of `other` to this set.
    pub fn merge(&mut self, other: &CardSet)
        ensures
            *final(self) == old(self).merge_spec(*other),
            old(self).inv() && other.inv() ==> final(self).inv(),
            forall|c: Card|
                #[trigger] final(self).contains_spec(c) == (old(self).contains_spec(c)
                    || other.contains_spec(c)),
    {
        proof {
            let a = self.bits;
            let b = other.bits;
            assert forall|c: Card|
                bit(a | b, c.index_spec() as u32) == (bit(a, c.index_spec() as u32) || bit(
                    b,
                    c.index_spec() as u32,
                )) by {
                lemma_bit_or(a, b, c.index_spec() as u32);
            }
            assert(a < 0x2000000 && b < 0x2000000 ==> (a | b) < 0x2000000) by (bit_vector);
        }
        self.bits = self.bits | other.bits;
    }

    /// Whether the two sets share at least one identity.
    pub fn intersects(&self, other: &CardSet) -> (r: bool)
        ensures
            r == (self.intersect_spec(*other) != Self::none_spec()),
            self.inv() ==> r == (exists|c: Card|
                self.contains_spec(c) && other.contains_spec(c)),
    {
        let r = self.bits & other.bits != 0;
        proof {
            let a = self.bits;
            let b = other.bits;
            if self.inv() {
                if a & b != 0 {
                    vstd::std_specs::bits::axiom_u32_trailing_zeros(a & b);
                    let tz = vstd::std_specs::bits::u32_trailing_zeros(a & b);
                    assert((a & b) & (1u32 << tz) != 0) by (bit_vector)
                        requires
                            tz < 32,
                            ((a & b) >> tz) & 1u32 == 1u32,
                    ;
                    assert(bit(a & b, tz));
                    lemma_bit_and(a, b, tz);
                    assert(a & b <= a) by (bit_vector);
                    if tz >= 25 {
                        lemma_bit_high(a & b, tz);
                    } else {
                        crate::card::lemma_card_of_index(tz as int);
                        let c = card_of_index_spec(tz as int);
                        assert(self.contains_spec(c) && other.contains_spec(c));
                    }
                } else {
                    assert forall|c: Card|
                        !(self.contains_spec(c) && other.contains_spec(c)) by {
                        lemma_bit_and(a, b, c.index_spec() as u32);
                        lemma_bit_zero(c.index_spec() as u32);
                    }
                }
            }
        }
        r
    }

    /// The identities in ascending 0..25 order; ranks ascend within each color.
    pub fn in_play_order(&self) -> (r: Vec<Card>)
        ensures
            forall|k: int| 0 <= k < r@.len() ==> self.contains_spec(#[trigger] r@[k]),
            forall|c: Card| self.contains_spec(c) ==> r@.contains(c),
            forall|k1: int, k2: int|
                0 <= k1 < k2 < r@.len() ==> r@[k1].index_spec() < r@[k2].index_spec(),
    {
        self.iter()
    }

    /// The single identity the set holds, iff it holds exactly one.
    pub fn unique(&self) -> (r: Option<Card>)
        ensures
            (r is Some) == (self.len_spec() == 1),
            r matches Option::Some(c) ==> self.contains_spec(c) && (forall|c2: Card|
                self.contains_spec(c2) ==> c2 == c),
    {
        if self.len() == 1 {
            let mut i: u32 = 0;
            while i < 25
                invariant
                    i <= 25,
                    count_below(self.bits, i as int) == 0,
                    self.len_spec() == 1,
                decreases 25 - i,
            {
                if self.bits & (1u32 << i) != 0 {
                    let c = index_to_card(i);
                    proof {
                        assert(bit(self.bits, i));
                        lemma_unique_bit(self.bits, i, 25);
                        assert forall|c2: Card| self.contains_spec(c2) implies c2 == c by {
                            assert(bit(self.bits, c2.index_spec() as u32));
                            assert(c2.index_spec() as u32 == i);
                            lemma_card_index_injective(c2, c);
                        }
                    }
                    return Option::Some(c);
                }
                proof {
                    assert(!bit(self.bits, i));
                }
                i = i + 1;
            }
            proof {
                assert(false);
            }
            Option::None
        } else {
            Option::None
        }
    }

    /// The identities in ascending 0..25 order.
    pub fn iter(&self) -> (r: Vec<Card>)
        ensures
            forall|k: int| 0 <= k < r@.len() ==> self.contains_spec(#[trigger] r@[k]),
            forall|c: Card| self.contains_spec(c) ==> r@.contains(c),
            forall|k1: int, k2: int|
                0 <= k1 < k2 < r@.len() ==> r@[k1].index_spec() < r@[k2].index_spec(),
    {
        let mut r: Vec<Card> = Vec::new();
        let mut i: u32 = 0;
        while i < 25
            invariant
                i <= 25,
                forall|k: int|
                    0 <= k < r@.len() ==> self.contains_spec(#[trigger] r@[k]) && r@[k].index_spec()
                        < i,
                forall|c: Card| self.contains_spec(c) && c.index_spec() < i ==> r@.contains(c),
                forall|k1: int, k2: int|
                    0 <= k1 < k2 < r@.len() ==> r@[k1].index_spec() < r@[k2].index_spec(),
            decreases 25 - i,
        {
            if self.bits & (1u32 << i) != 0 {
                let c = index_to_card(i);
                let ghost old_r = r@;
                proof {
                    assert(bit(self.bits, i));
                }
                r.push(c);
                proof {
                    assert forall|c2: Card|
                        self.contains_spec(c2) && c2.index_spec() < i + 1 implies r@.contains(
                        c2,
                    ) by {
                        if c2.index_spec() < i {
                            let k = choose|k: int| 0 <= k < old_r.len() && old_r[k] == c2;
                            assert(r@[k] == c2);
                        } else {
                            lemma_card_index_injective(c2, c);
                            assert(r@[r@.len() - 1] == c2);
                        }
                    }
                }
            } else {
                proof {
                    assert(!bit(self.bits, i));
                    assert forall|c2: Card|
                        self.contains_spec(c2) && c2.index_spec() < i + 1 implies r@.contains(
                        c2,
                    ) by {
                        if c2.index_spec() == i {
                            assert(c2.index_spec() as u32 == i);
                            assert(!self.contains_spec(c2));
                        }
                    }
                }
            }
            i = i + 1;
        }
        r
    }
}

/// A set that holds exactly one identity has cardinality one.
pub proof fn lemma_singleton_len(s: CardSet, c: Card)
    requires
        s.inv(),
        forall|c2: Card| s.contains_spec(c2) == (c2 == c),
    ensures
        s.len_spec() == 1,
{
    let b = s.bits;
    let i = c.index_spec() as u32;
    assert(s.contains_spec(c));
    assert(bit(b, i));
    assert forall|j: u32| j < 25 && j != i implies bit(b, j) == bit(0u32, j) by {
        crate::card::lemma_card_of_index(j as int);
        let c2 = card_of_index_spec(j as int);
        assert(c2.index_spec() == j);
        if c2 == c {
            assert(j == i);
        }
        assert(!s.contains_spec(c2));
        lemma_bit_zero(j);
    }
    assert(!bit(0u32, i)) by {
        lemma_bit_zero(i);
    }
    lemma_count_one_more(0u32, b, 25, i);
    assert forall|j: u32| j < 25 implies !bit(0u32, j) by {
        lemma_bit_zero(j);
    }
    lemma_count_all_clear(0u32, 25);
}

/// Law: applying a property filter, positively or negatively, twice in a row
/// gives the same set as applying it once.
pub proof fn lemma_apply_idempotent(s: CardSet, p: Property)
    ensures
        s.apply_spec(p).apply_spec(p) == s.apply_spec(p),
        s.apply_not_spec(p).apply_not_spec(p) == s.apply_not_spec(p),
{
    let a = s.bits;
    let m = mask_of(p);
    assert((a & m) & m == a & m) by (bit_vector);
    assert((a & !m) & !m == a & !m) by (bit_vector);
}

/// Law: each property holds for exactly five identities, and the positive and
/// negative filters of a property split the full set into two disjoint parts.
pub proof fn lemma_property_partition(p: Property)
    ensures
        CardSet::with_property_spec(p).len_spec() == 5,
        CardSet::all_spec().apply_not_spec(p).len_spec() == 20,
        forall|c: Card|
            CardSet::all_spec().contains_spec(c) == (CardSet::with_property_spec(
                p,
            ).contains_spec(c) || CardSet::all_spec().apply_not_spec(p).contains_spec(c)),
        forall|c: Card|
            !(CardSet::with_property_spec(p).contains_spec(c)
                && CardSet::all_spec().apply_not_spec(p).contains_spec(c)),
{
    lemma_mask_bits(p);
    let m = mask_of(p);
    let comp = 0x1FFFFFFu32 & !m;
    assert forall|c: Card| #![all_triggers] true implies {
        &&& CardSet::all_spec().contains_spec(c) == (CardSet::with_property_spec(
            p,
        ).contains_spec(c) || CardSet::all_spec().apply_not_spec(p).contains_spec(c))
        &&& !(CardSet::with_property_spec(p).contains_spec(c)
            && CardSet::all_spec().apply_not_spec(p).contains_spec(c))
    } by {
        let i = c.index_spec() as u32;
        lemma_bit_diff(0x1FFFFFF, m, i);
        assert(i < 25);
        assert(0x1FFFFFFu32 & (1u32 << i) != 0) by (bit_vector)
            requires
                i < 25,
        ;
        assert(bit(0x1FFFFFF, i));
    }
    assert forall|i: u32| i < 25 implies (bit(comp, i) == !bit(m, i)) by {
        lemma_bit_diff(0x1FFFFFF, m, i);
        assert(0x1FFFFFFu32 & (1u32 << i) != 0) by (bit_vector)
            requires
                i < 25,
        ;
    }
    lemma_count_complement(comp, m, 25);
}

} // verus!
