//! The draw deck and its two-characters-per-card line format.

use vstd::prelude::*;

use crate::card::{Card, Color, Number};
use crate::rules::count_cards;

verus! {

/// The character that encodes a color.
pub open spec fn color_char(c: Color) -> char {
    match c {
        Color::White => 'w',
        Color::Green => 'g',
        Color::Yellow => 'y',
        Color::Red => 'r',
        Color::Blue => 'b',
    }
}

/// The character that encodes a rank.
pub open spec fn number_char(n: Number) -> char {
    match n {
        Number::One => '1',
        Number::Two => '2',
        Number::Three => '3',
        Number::Four => '4',
        Number::Five => '5',
    }
}

pub open spec fn is_color_char(ch: char) -> bool {
    ch == 'r' || ch == 'g' || ch == 'b' || ch == 'y' || ch == 'w'
}

pub open spec fn is_number_char(ch: char) -> bool {
    ch == '1' || ch == '2' || ch == '3' || ch == '4' || ch == '5'
}

/// The color a character encodes.
pub open spec fn color_of_char(ch: char) -> Color {
    if ch == 'r' {
        Color::Red
    } else if ch == 'g' {
        Color::Green
    } else if ch == 'b' {
        Color::Blue
    } else if ch == 'y' {
        Color::Yellow
    } else {
        Color::White
    }
}

/// The rank a character encodes.
pub open spec fn number_of_char(ch: char) -> Number {
    if ch == '1' {
        Number::One
    } else if ch == '2' {
        Number::Two
    } else if ch == '3' {
        Number::Three
    } else if ch == '4' {
        Number::Four
    } else {
        Number::Five
    }
}

/// Every complete two-character token of the line is a color and a rank.
pub open spec fn valid_deck_line(line: Seq<char>) -> bool {
    forall|i: int|
        0 <= i < line.len() / 2 ==> is_color_char(#[trigger] line[2 * i]) && is_number_char(
            line[2 * i + 1],
        )
}

/// The card encoded by the `i`-th token of the line.
pub open spec fn card_of_token(line: Seq<char>, i: int) -> Card {
    Card { number: number_of_char(line[2 * i + 1]), color: color_of_char(line[2 * i]) }
}

/// No identity occurs more often than it has physical copies.
pub open spec fn valid_deck_cards(s: Seq<Card>) -> bool {
    forall|c: Card| #[trigger] count_cards(s, c) <= c.number.copies_spec()
}

/// The draw pile; cards are drawn from the end of the sequence.
#[derive(Debug)]
pub struct Deck {
    pub cards: Vec<Card>,
}

impl Clone for Deck {
    /// The copy holds the same cards in the same order.
    fn clone(&self) -> (r: Self)
        ensures
            r.cards@ == self.cards@,
    {
        let mut cards: Vec<Card> = Vec::new();
        let mut i: usize = 0;
        while i < self.cards.len()
            invariant
                i <= self.cards@.len(),
                cards@ =~= self.cards@.subrange(0, i as int),
            decreases self.cards@.len() - i,
        {
            cards.push(self.cards[i]);
            proof {
                assert(cards@ =~= self.cards@.subrange(0, i + 1));
            }
            i = i + 1;
        }
        proof {
            assert(cards@ =~= self.cards@);
        }
        Deck { cards }
    }
}

impl Deck {
    /// Take the top card, if any.
    pub fn draw(&mut self) -> (r: Option<Card>)
        ensures
            old(self).cards@.len() == 0 ==> r is None && final(self).cards@ == old(self).cards@,
            old(self).cards@.len() > 0 ==> r == Option::Some(old(self).cards@.last())
                && final(self).cards@ == old(self).cards@.drop_last(),
    {
        self.cards.pop()
    }

    /// Whether the deck is exhausted.
    pub fn is_empty(&self) -> (r: bool)
        ensures
            r == (self.cards@.len() == 0),
    {
        self.cards.len() == 0
    }

    /// A deck made of the given cards.
    pub fn new(cards: Vec<Card>) -> (r: Self)
        ensures
            r.cards@ == cards@,
    {
        Self { cards }
    }

    /// Whether no identity occurs more often than its physical copies.
    pub fn is_physical(&self) -> (r: bool)
        ensures
            r == valid_deck_cards(self.cards@),
    {
        let mut idx: u32 = 0;
        while idx < 25
            invariant
                idx <= 25,
                forall|c: Card|
                    0 <= c.index_spec() < idx ==> #[trigger] count_cards(self.cards@, c)
                        <= c.number.copies_spec(),
            decreases 25 - idx,
        {
            let c = crate::card::index_to_card(idx);
            let mut cnt: usize = 0;
            let mut i: usize = 0;
            while i < self.cards.len()
                invariant
                    i <= self.cards@.len(),
                    cnt == count_cards(self.cards@.subrange(0, i as int), c),
                    cnt <= i,
                decreases self.cards@.len() - i,
            {
                proof {
                    assert(self.cards@.subrange(0, i + 1).drop_last() =~= self.cards@.subrange(
                        0,
                        i as int,
                    ));
                    assert(self.cards@.subrange(0, i + 1).last() == self.cards@[i as int]);
                }
                if self.cards[i] == c {
                    cnt = cnt + 1;
                }
                i = i + 1;
            }
            proof {
                assert(self.cards@.subrange(0, self.cards@.len() as int) =~= self.cards@);
            }
            if cnt > c.number.copies() as usize {
                proof {
                    assert(!valid_deck_cards(self.cards@));
                }
                return false;
            }
            idx = idx + 1;
        }
        proof {
            assert forall|c: Card| #[trigger] count_cards(self.cards@, c)
                <= c.number.copies_spec() by {
                assert(0 <= c.index_spec() < 25);
            }
        }
        true
    }

    /// Encode the deck as a line of two-character tokens.
    pub fn to_line(&self) -> (r: String)
        ensures
            r@.len() == 2 * self.cards@.len(),
            forall|i: int|
                0 <= i < self.cards@.len() ==> #[trigger] r@[2 * i] == color_char(
                    self.cards@[i].color,
                ) && r@[2 * i + 1] == number_char(self.cards@[i].number),
    {
        let mut result = String::new();
        let mut i: usize = 0;
        while i < self.cards.len()
            invariant
                i <= self.cards@.len(),
                result@.len() == 2 * i,
                forall|k: int|
                    #![trigger result@[k]]
                    0 <= k < result@.len() ==> result@[k] == (if k % 2 == 0 {
                        color_char(self.cards@[k / 2].color)
                    } else {
                        number_char(self.cards@[k / 2].number)
                    }),
            decreases self.cards@.len() - i,
        {
            let card = self.cards[i];
            let cs = color_str(card.color);
            let ns = number_str(card.number);
            let ghost before = result@;
            result.append(cs);
            result.append(ns);
            proof {
                assert(result@ =~= before + seq![color_char(card.color), number_char(
                    card.number,
                )]);
                assert forall|k: int| 0 <= k < result@.len() implies #[trigger] result@[k] == (
                if k % 2 == 0 {
                    color_char(self.cards@[k / 2].color)
                } else {
                    number_char(self.cards@[k / 2].number)
                }) by {
                    if k < before.len() {
                        assert(result@[k] == before[k]);
                    } else if k == 2 * i {
                        assert(k % 2 == 0 && k / 2 == i);
                    } else {
                        assert(k == 2 * i + 1);
                        assert(k % 2 == 1 && k / 2 == i);
                    }
                }
            }
            i = i + 1;
        }
        proof {
            assert forall|j: int|
                0 <= j < self.cards@.len() implies #[trigger] result@[2 * j] == color_char(
                self.cards@[j].color,
            ) && result@[2 * j + 1] == number_char(self.cards@[j].number) by {
                assert((2 * j) % 2 == 0 && (2 * j) / 2 == j);
                assert((2 * j + 1) % 2 == 1 && (2 * j + 1) / 2 == j);
                assert(result@[2 * j] == (if (2 * j) % 2 == 0 {
                    color_char(self.cards@[(2 * j) / 2].color)
                } else {
                    number_char(self.cards@[(2 * j) / 2].number)
                }));
                assert(result@[2 * j + 1] == (if (2 * j + 1) % 2 == 0 {
                    color_char(self.cards@[(2 * j + 1) / 2].color)
                } else {
                    number_char(self.cards@[(2 * j + 1) / 2].number)
                }));
            }
        }
        result
    }

    /// Decode a line of two-character tokens; a trailing odd character is
    /// ignored.
    pub fn from_line(line: &str) -> (r: Self)
        requires
            valid_deck_line(line@),
        ensures
            r.cards@.len() == line@.len() / 2,
            forall|i: int|
                0 <= i < line@.len() / 2 ==> #[trigger] r.cards@[i] == card_of_token(line@, i),
    {
        let n = line.unicode_len();
        let half = n / 2;
        let mut cards: Vec<Card> = Vec::new();
        let mut i: usize = 0;
        while i < half
            invariant
                valid_deck_line(line@),
                line@.len() == n,
                half == n / 2,
                i <= half,
                cards@.len() == i,
                forall|j: int| 0 <= j < i ==> #[trigger] cards@[j] == card_of_token(line@, j),
            decreases half - i,
        {
            let ch = line.get_char(2 * i);
            let dh = line.get_char(2 * i + 1);
            proof {
                assert(is_color_char(line@[2 * (i as int)]) && is_number_char(
                    line@[2 * (i as int) + 1],
                ));
            }
            let color = match ch {
                'r' => Color::Red,
                'g' => Color::Green,
                'b' => Color::Blue,
                'y' => Color::Yellow,
                'w' => Color::White,
                _ => unreached(),
            };
            let number = match dh {
                '1' => Number::One,
                '2' => Number::Two,
                '3' => Number::Three,
                '4' => Number::Four,
                '5' => Number::Five,
                _ => unreached(),
            };
            cards.push(Card { number, color });
            i = i + 1;
        }
        Self { cards }
    }
}

/// Law: decoding an encoded deck gives back exactly the same cards.
pub proof fn lemma_line_round_trip(cards: Seq<Card>, line: Seq<char>)
    requires
        line.len() == 2 * cards.len(),
        forall|i: int|
            0 <= i < cards.len() ==> #[trigger] line[2 * i] == color_char(cards[i].color)
                && line[2 * i + 1] == number_char(cards[i].number),
    ensures
        valid_deck_line(line),
        forall|i: int| 0 <= i < line.len() / 2 ==> #[trigger] card_of_token(line, i) == cards[i],
{
    assert forall|i: int|
        0 <= i < line.len() / 2 implies is_color_char(#[trigger] line[2 * i]) && is_number_char(
        line[2 * i + 1],
    ) && card_of_token(line, i) == cards[i] by {
        assert(line[2 * i] == color_char(cards[i].color));
        assert(line[2 * i + 1] == number_char(cards[i].number));
    }
}

/// The one-character string of a color.
fn color_str(c: Color) -> (r: &'static str)
    ensures
        r@ =~= seq![color_char(c)],
{
    match c {
        Color::White => {
            proof {
                reveal_strlit("w");
            }
            "w"
        },
        Color::Green => {
            proof {
                reveal_strlit("g");
            }
            "g"
        },
        Color::Yellow => {
            proof {
                reveal_strlit("y");
            }
            "y"
        },
        Color::Red => {
            proof {
                reveal_strlit("r");
            }
            "r"
        },
        Color::Blue => {
            proof {
                reveal_strlit("b");
            }
            "b"
        },
    }
}

/// The one-character string of a rank.
fn number_str(n: Number) -> (r: &'static str)
    ensures
        r@ =~= seq![number_char(n)],
{
    match n {
        Number::One => {
            proof {
                reveal_strlit("1");
            }
            "1"
        },
        Number::Two => {
            proof {
                reveal_strlit("2");
            }
            "2"
        },
        Number::Three => {
            proof {
                reveal_strlit("3");
            }
            "3"
        },
        Number::Four => {
            proof {
                reveal_strlit("4");
            }
            "4"
        },
        Number::Five => {
            proof {
                reveal_strlit("5");
            }
            "5"
        },
    }
}

} // verus!
