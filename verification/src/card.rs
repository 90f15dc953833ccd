//! Card identities: five colors crossed with five ranks.

use vstd::prelude::*;

verus! {

/// One of the five colors a card can have.
#[derive(Clone, Copy, PartialEq, Eq, Structural, Debug)]
pub enum Color {
    White,
    Green,
    Yellow,
    Red,
    Blue,
}

/// One of the five ranks a card can have.
#[derive(Clone, Copy, PartialEq, Eq, Structural, Debug)]
pub enum Number {
    One,
    Two,
    Three,
    Four,
    Five,
}

/// A card identity: a color and a rank. There are 25 distinct identities.
#[derive(Clone, Copy, PartialEq, Eq, Structural, Debug)]
pub struct Card {
    pub number: Number,
    pub color: Color,
}

/// A property a hint can name: either a color or a rank.
#[derive(Clone, Copy, PartialEq, Eq, Structural, Debug)]
pub enum Property {
    Color(Color),
    Number(Number),
}

impl Color {
    /// Position of this color in the fixed color order.
    pub open spec fn index_spec(self) -> u32 {
        match self {
            Color::White => 0,
            Color::Green => 1,
            Color::Yellow => 2,
            Color::Red => 3,
            Color::Blue => 4,
        }
    }

    pub fn index(self) -> (r: u32)
        ensures
            r == self.index_spec(),
            r < 5,
    {
        match self {
            Color::White => 0,
            Color::Green => 1,
            Color::Yellow => 2,
            Color::Red => 3,
            Color::Blue => 4,
        }
    }

    /// The color whose index is `i`.
    pub fn of_index(i: u32) -> (r: Color)
        requires
            i < 5,
        ensures
            r.index_spec() == i,
            r == color_of_index_spec(i as int),
    {
        match i {
            0 => Color::White,
            1 => Color::Green,
            2 => Color::Yellow,
            3 => Color::Red,
            _ => Color::Blue,
        }
    }
}

impl Number {
    /// Rank as an integer from 1 to 5.
    pub open spec fn rank_spec(self) -> u32 {
        match self {
            Number::One => 1,
            Number::Two => 2,
            Number::Three => 3,
            Number::Four => 4,
            Number::Five => 5,
        }
    }

    /// Points a successfully played card of this rank contributes.
    pub fn score(&self) -> (r: usize)
        ensures
            r == self.rank_spec(),
    {
        match self {
            Number::One => 1,
            Number::Two => 2,
            Number::Three => 3,
            Number::Four => 4,
            Number::Five => 5,
        }
    }

    /// The rank of the top of a pile, with 0 for an empty pile.
    pub open spec fn top_rank(current: Option<Number>) -> u32 {
        match current {
            Option::None => 0,
            Option::Some(n) => n.rank_spec(),
        }
    }

    /// True iff this rank directly follows the given pile top.
    pub fn comes_after(&self, current: Option<Number>) -> (r: bool)
        ensures
            r == (self.rank_spec() == Self::top_rank(current) + 1),
    {
        current == (match self {
            Number::One => Option::<Number>::None,
            Number::Two => Option::Some(Number::One),
            Number::Three => Option::Some(Number::Two),
            Number::Four => Option::Some(Number::Three),
            Number::Five => Option::Some(Number::Four),
        })
    }

    /// The rank one below this one, if any.
    pub fn decrease(&self) -> (r: Option<Number>)
        ensures
            Self::top_rank(r) + 1 == self.rank_spec(),
    {
        match self {
            Number::One => Option::None,
            Number::Two => Option::Some(Number::One),
            Number::Three => Option::Some(Number::Two),
            Number::Four => Option::Some(Number::Three),
            Number::Five => Option::Some(Number::Four),
        }
    }

    /// The rank with the given integer value.
    pub fn of_rank(i: u32) -> (r: Number)
        requires
            1 <= i <= 5,
        ensures
            r.rank_spec() == i,
            r == number_of_rank_spec(i as int),
    {
        match i {
            1 => Number::One,
            2 => Number::Two,
            3 => Number::Three,
            4 => Number::Four,
            _ => Number::Five,
        }
    }

    /// How many physical copies of a card of this rank the deck holds per color.
    pub open spec fn copies_spec(self) -> u32 {
        match self {
            Number::One => 3,
            Number::Two => 2,
            Number::Three => 2,
            Number::Four => 2,
            Number::Five => 1,
        }
    }

    pub fn copies(&self) -> (r: u32)
        ensures
            r == self.copies_spec(),
    {
        match self {
            Number::One => 3,
            Number::Five => 1,
            _ => 2,
        }
    }
}

impl Card {
    /// The position of this identity in the fixed 0..25 numbering:
    /// colors are blocks of five, ranks ascend within a block.
    pub open spec fn index_spec(self) -> int {
        5 * self.color.index_spec() + self.number.rank_spec() - 1
    }

    pub open spec fn satisfies_spec(self, hinted_property: Property) -> bool {
        match hinted_property {
            Property::Color(c) => self.color == c,
            Property::Number(n) => self.number == n,
        }
    }

    /// True iff this card matches the hinted property.
    pub fn satisfies(&self, hinted_property: Property) -> (r: bool)
        ensures
            r == self.satisfies_spec(hinted_property),
    {
        match hinted_property {
            Property::Color(c) => self.color == c,
            Property::Number(n) => self.number == n,
        }
    }

    /// The card of the given color that would extend a pile whose top rank
    /// comes from `number`; `None` once the pile is complete.
    pub fn next(color: Color, number: Option<Number>) -> (r: Option<Card>)
        ensures
            Number::top_rank(number) < 5 ==> (r matches Option::Some(c)
                && c.color == color
                && c.number.rank_spec() == Number::top_rank(number) + 1),
            Number::top_rank(number) == 5 ==> r is None,
    {
        match number {
            Option::Some(Number::One) => Option::Some(Card { number: Number::Two, color }),
            Option::Some(Number::Two) => Option::Some(Card { number: Number::Three, color }),
            Option::Some(Number::Three) => Option::Some(Card { number: Number::Four, color }),
            Option::Some(Number::Four) => Option::Some(Card { number: Number::Five, color }),
            Option::Some(Number::Five) => Option::None,
            Option::None => Option::Some(Card { number: Number::One, color }),
        }
    }
}

/// Cards have distinct indices: the 0..25 numbering is injective.
pub proof fn lemma_card_index_injective(c1: Card, c2: Card)
    requires
        c1.index_spec() == c2.index_spec(),
    ensures
        c1 == c2,
{
    assert(c1.color.index_spec() == c2.color.index_spec() && c1.number.rank_spec()
        == c2.number.rank_spec()) by {
        let a1 = c1.color.index_spec();
        let b1 = (c1.number.rank_spec() - 1) as u32;
        let a2 = c2.color.index_spec();
        let b2 = (c2.number.rank_spec() - 1) as u32;
        assert(b1 < 5 && b2 < 5 && a1 < 5 && a2 < 5);
        assert(5 * a1 + b1 == 5 * a2 + b2 && b1 < 5 && b2 < 5 ==> a1 == a2 && b1 == b2)
            by (nonlinear_arith);
    }
}

/// The color at a given position of the fixed color order.
pub open spec fn color_of_index_spec(ci: int) -> Color {
    if ci == 0 {
        Color::White
    } else if ci == 1 {
        Color::Green
    } else if ci == 2 {
        Color::Yellow
    } else if ci == 3 {
        Color::Red
    } else {
        Color::Blue
    }
}

/// The rank with a given integer value.
pub open spec fn number_of_rank_spec(r: int) -> Number {
    if r == 1 {
        Number::One
    } else if r == 2 {
        Number::Two
    } else if r == 3 {
        Number::Three
    } else if r == 4 {
        Number::Four
    } else {
        Number::Five
    }
}

/// The identity at a given position of the 0..25 numbering.
pub open spec fn card_of_index_spec(i: int) -> Card {
    Card { number: number_of_rank_spec(i % 5 + 1), color: color_of_index_spec(i / 5) }
}

/// The 0..25 numbering and `card_of_index_spec` are mutually inverse.
pub proof fn lemma_card_of_index(i: int)
    requires
        0 <= i < 25,
    ensures
        card_of_index_spec(i).index_spec() == i,
{
    assert(0 <= i / 5 < 5);
    assert(0 <= i % 5 < 5);
    assert(i == 5 * (i / 5) + i % 5);
}

/// Maps an identity to its position in the fixed 0..25 numbering.
pub fn card_to_index(card: Card) -> (r: u32)
    ensures
        r == card.index_spec(),
        r < 25,
{
    let color_index = card.color.index();
    let number_index = card.number.score() as u32 - 1;
    5 * color_index + number_index
}

/// Maps a position in the 0..25 numbering back to its identity.
pub fn index_to_card(index: u32) -> (r: Card)
    requires
        index < 25,
    ensures
        r.index_spec() == index,
        r == card_of_index_spec(index as int),
{
    let color = Color::of_index(index / 5);
    let number = Number::of_rank(index % 5 + 1);
    let r = Card { number, color };
    proof {
        lemma_card_of_index(index as int);
        lemma_card_index_injective(r, card_of_index_spec(index as int));
    }
    r
}

/// The identity with the given color and rank value.
pub fn card_of(color: Color, rank: u32) -> (r: Card)
    requires
        1 <= rank <= 5,
    ensures
        r == (Card { number: number_of_rank_spec(rank as int), color }),
{
    Card { number: Number::of_rank(rank), color }
}

} // verus!
