//! The fixed parameters of a game and the referee-level rule violations.

use vstd::prelude::*;

use crate::card::{Card, Color, Number};

verus! {

/// How often an identity occurs in a sequence of cards.
pub open spec fn count_cards(s: Seq<Card>, c: Card) -> int
    decreases s.len(),
{
    if s.len() == 0 {
        0
    } else {
        count_cards(s.drop_last(), c) + (if s.last() == c {
            1int
        } else {
            0int
        })
    }
}

pub proof fn lemma_count_cards_nonneg(s: Seq<Card>, c: Card)
    ensures
        0 <= count_cards(s, c) <= s.len(),
    decreases s.len(),
{
    if s.len() > 0 {
        lemma_count_cards_nonneg(s.drop_last(), c);
    }
}

pub proof fn lemma_count_cards_push(s: Seq<Card>, x: Card, c: Card)
    ensures
        count_cards(s.push(x), c) == count_cards(s, c) + (if x == c {
            1int
        } else {
            0int
        }),
{
    assert(s.push(x).drop_last() =~= s);
    assert(s.push(x).last() == x);
}

/// A proposed action the referee must reject, and why.
#[derive(Debug, Clone, Copy, PartialEq, Eq, Structural)]
pub enum RuleViolation {
    InvalidCardPosition,
    InvalidReceiver,
    IncorrectHint,
    NullHint,
    NoMoreHintsAvailable,
    NoMoreDiscardsAvailable,
    InvalidCardInformation,
}

/// The fixed parameters of a game.
#[derive(Clone, Copy, Debug, PartialEq, Eq, Structural)]
pub struct Rules {
    pub number_of_players: usize,
    pub hand_size: usize,
    pub max_clues: usize,
}

impl Rules {
    /// The parameters make sense for the referee and the players. The hand
    /// size is capped by the fixed six-slot hands; the upper bounds on the
    /// other two only keep the referee's sums and products inside `usize`
    /// on every machine.
    pub open spec fn wf(self) -> bool {
        &&& 2 <= self.number_of_players <= 0x1000000
        &&& 1 <= self.hand_size <= 5
        &&& 1 <= self.max_clues <= 0x1000000
    }

    /// Whether a hint that touches no card at all is legal.
    pub fn allow_null_hints(&self) -> (r: bool)
        ensures
            r == false,
    {
        false
    }

    /// The best possible score.
    pub fn max_score(&self) -> (r: usize)
        ensures
            r == 25,
    {
        self.used_colors().len() * 5
    }

    /// The colors in play, in their fixed order.
    pub fn used_colors(&self) -> (r: Vec<Color>)
        ensures
            r@ =~= seq![Color::Red, Color::Blue, Color::Green, Color::Yellow, Color::White],
    {
        let mut r = Vec::new();
        r.push(Color::Red);
        r.push(Color::Blue);
        r.push(Color::Green);
        r.push(Color::Yellow);
        r.push(Color::White);
        proof {
            assert(r@ =~= seq![
                Color::Red,
                Color::Blue,
                Color::Green,
                Color::Yellow,
                Color::White,
            ]);
        }
        r
    }

    /// The full physical deck, ordered color by color: three ones, two each of
    /// ranks two to four, and one five.
    pub fn all_cards(&self) -> (r: Vec<Card>)
        ensures
            r@.len() == 50,
            forall|c: Card| #[trigger] count_cards(r@, c) == c.number.copies_spec(),
    {
        let mut result: Vec<Card> = Vec::new();
        proof {
            assert forall|c: Card| count_cards(result@, c) == 0 by {}
        }
        push_color(&mut result, Color::Red);
        push_color(&mut result, Color::Blue);
        push_color(&mut result, Color::Green);
        push_color(&mut result, Color::Yellow);
        push_color(&mut result, Color::White);
        proof {
            assert forall|c: Card| #[trigger] count_cards(result@, c)
                == c.number.copies_spec() by {
                assert(c.color == Color::Red || c.color == Color::Blue || c.color == Color::Green
                    || c.color == Color::Yellow || c.color == Color::White);
            }
        }
        result
    }

    /// The default parameters: four players, four cards each, eight clues.
    pub fn new() -> (r: Rules)
        ensures
            r.number_of_players == 4,
            r.hand_size == 4,
            r.max_clues == 8,
            r.wf(),
    {
        Rules { number_of_players: 4, hand_size: 4, max_clues: 8 }
    }
}

/// Appends the ten physical cards of one color.
fn push_color(result: &mut Vec<Card>, color: Color)
    ensures
        final(result)@.len() == old(result)@.len() + 10,
        forall|c: Card|
            #[trigger] count_cards(final(result)@, c) == count_cards(old(result)@, c) + (if c.color
                == color {
                c.number.copies_spec() as int
            } else {
                0int
            }),
{
    let ghost s0 = result@;
    push_counted(result, Card { number: Number::One, color });
    push_counted(result, Card { number: Number::One, color });
    push_counted(result, Card { number: Number::One, color });
    push_counted(result, Card { number: Number::Two, color });
    push_counted(result, Card { number: Number::Two, color });
    push_counted(result, Card { number: Number::Three, color });
    push_counted(result, Card { number: Number::Three, color });
    push_counted(result, Card { number: Number::Four, color });
    push_counted(result, Card { number: Number::Four, color });
    push_counted(result, Card { number: Number::Five, color });
    proof {
        assert forall|c: Card|
            #[trigger] count_cards(result@, c) == count_cards(s0, c) + (if c.color == color {
                c.number.copies_spec() as int
            } else {
                0int
            }) by {}
    }
}

/// Appends one card and tracks the identity counts.
fn push_counted(result: &mut Vec<Card>, card: Card)
    ensures
        final(result)@ == old(result)@.push(card),
        final(result)@.len() == old(result)@.len() + 1,
        forall|c: Card|
            #[trigger] count_cards(final(result)@, c) == count_cards(old(result)@, c) + (if c
                == card {
                1int
            } else {
                0int
            }),
{
    result.push(card);
    proof {
        assert forall|c: Card|
            #[trigger] count_cards(result@, c) == count_cards(old(result)@, c) + (if c == card {
                1int
            } else {
                0int
            }) by {
            lemma_count_cards_push(old(result)@, card, c);
        }
    }
}

} // verus!
