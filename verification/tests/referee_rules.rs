use ranabi::action::Action;
use ranabi::card::{Card, Color, Number, Property};
use ranabi::card_pile::CardPile;
use ranabi::deck::Deck;
use ranabi::player::PositionSet;
use ranabi::referee::State;
use ranabi::rules::{RuleViolation, Rules};

fn fresh_state() -> (Rules, State) {
    let rules = Rules::new();
    let deck = Deck::new(rules.all_cards());
    let mut state = State::new(&rules, deck);
    // Deal four cards to each of the four seats.
    for _ in 0..rules.number_of_players {
        for _ in 0..rules.hand_size {
            state.draw();
        }
        state.go_to_next_player();
    }
    (rules, state)
}

#[test]
fn play_with_card_information_is_rejected() {
    let (rules, mut state) = fresh_state();
    let bad = Action::Play {
        card: Some(Card { number: Number::One, color: Color::Red }),
        position: 1,
    };
    assert_eq!(
        state.apply_action(bad, &rules),
        Err(RuleViolation::InvalidCardInformation)
    );
}

#[test]
fn play_out_of_range_is_rejected() {
    let (rules, mut state) = fresh_state();
    let bad = Action::Play { card: None, position: 0 };
    assert_eq!(state.apply_action(bad, &rules), Err(RuleViolation::InvalidCardPosition));
    let bad2 = Action::Play { card: None, position: 5 };
    assert_eq!(state.apply_action(bad2, &rules), Err(RuleViolation::InvalidCardPosition));
}

#[test]
fn discard_at_full_clues_is_rejected() {
    let (rules, mut state) = fresh_state();
    let bad = Action::Discard { card: None, position: 1 };
    assert_eq!(
        state.apply_action(bad, &rules),
        Err(RuleViolation::NoMoreDiscardsAvailable)
    );
}

#[test]
fn discard_with_card_information_is_rejected() {
    let (rules, mut state) = fresh_state();
    let bad = Action::Discard {
        card: Some(Card { number: Number::One, color: Color::Red }),
        position: 1,
    };
    assert_eq!(
        state.apply_action(bad, &rules),
        Err(RuleViolation::InvalidCardInformation)
    );
}

#[test]
fn hint_to_self_or_absent_seat_is_rejected() {
    let (rules, mut state) = fresh_state();
    let mut positions = PositionSet::new(rules.hand_size);
    positions.insert(1);
    let to_self = Action::Hint {
        receiver: 0,
        hinted_property: Property::Number(Number::One),
        positions,
    };
    assert_eq!(state.apply_action(to_self, &rules), Err(RuleViolation::InvalidReceiver));
    let absent = Action::Hint {
        receiver: 9,
        hinted_property: Property::Number(Number::One),
        positions,
    };
    assert_eq!(state.apply_action(absent, &rules), Err(RuleViolation::InvalidReceiver));
}

#[test]
fn empty_hint_is_rejected() {
    let (rules, mut state) = fresh_state();
    let positions = PositionSet::new(rules.hand_size);
    let null_hint = Action::Hint {
        receiver: 1,
        hinted_property: Property::Number(Number::One),
        positions,
    };
    assert_eq!(state.apply_action(null_hint, &rules), Err(RuleViolation::NullHint));
}

#[test]
fn hint_is_accepted_only_for_the_true_partition() {
    // The un-shuffled deck deals seat 1 white cards with ranks one, two,
    // two, three at positions 1 to 4; position 1 holds the most recent draw.
    let (rules, mut state) = fresh_state();

    // The true partition of seat 1's hand for rank three: only position 4.
    let mut correct = PositionSet::new(rules.hand_size);
    correct.insert(4);
    // A wrong mask: claims position 1 as well.
    let mut wrong = PositionSet::new(rules.hand_size);
    wrong.insert(1);
    wrong.insert(4);

    let bad = Action::Hint {
        receiver: 1,
        hinted_property: Property::Number(Number::Three),
        positions: wrong,
    };
    assert_eq!(state.apply_action(bad, &rules), Err(RuleViolation::IncorrectHint));

    let good = Action::Hint {
        receiver: 1,
        hinted_property: Property::Number(Number::Three),
        positions: correct,
    };
    assert_eq!(state.apply_action(good, &rules), Ok((None, None)));
}

#[test]
fn hints_run_out_after_the_clues_do() {
    let (rules, mut state) = fresh_state();
    // Burn all eight clues with alternating legal white hints: seat 1 holds
    // only white cards, seat 2 holds white at positions 3 and 4.
    for i in 0..rules.max_clues {
        let receiver = 1 + (i % 2);
        let mut positions = PositionSet::new(rules.hand_size);
        if receiver == 1 {
            for p in 1..=rules.hand_size {
                positions.insert(p);
            }
        } else {
            positions.insert(3);
            positions.insert(4);
        }
        let hint = Action::Hint {
            receiver,
            hinted_property: Property::Color(Color::White),
            positions,
        };
        assert_eq!(state.apply_action(hint, &rules), Ok((None, None)));
    }
    let mut positions = PositionSet::new(rules.hand_size);
    positions.insert(1);
    let hint = Action::Hint {
        receiver: 1,
        hinted_property: Property::Number(Number::One),
        positions,
    };
    assert_eq!(state.apply_action(hint, &rules), Err(RuleViolation::NoMoreHintsAvailable));
}

#[test]
fn deck_line_round_trip_is_exact() {
    let line = "y3y3r3b2b1w2r2w4b4y1";
    let deck = Deck::from_line(line);
    assert_eq!(deck.to_line(), line);
    assert_eq!(deck.cards.len(), 10);
    assert!(deck.is_physical());
}

#[test]
fn overfull_deck_is_not_physical() {
    let deck = Deck::from_line("w5w5");
    assert!(!deck.is_physical());
    let fine = Deck::from_line("w5w4w4");
    assert!(fine.is_physical());
}

#[test]
fn discard_pile_tracks_multiplicity() {
    let rules = Rules::new();
    let mut pile = CardPile::new();
    let one = Card { number: Number::One, color: Color::Red };
    assert!(!pile.contains(one));
    pile.add(&one);
    assert!(pile.contains(one));
    assert!(pile.unreachable(&rules).is_empty());
    pile.add(&one);
    assert!(pile.unreachable(&rules).is_empty());
    pile.add(&one);
    let unreachable = pile.unreachable(&rules);
    for rank in [Number::One, Number::Two, Number::Three, Number::Four, Number::Five] {
        assert!(unreachable.contains(Card { number: rank, color: Color::Red }));
        assert!(!unreachable.contains(Card { number: rank, color: Color::Blue }));
    }
    assert!(pile.full_sets().contains(one));
}

#[test]
fn lone_five_discard_blocks_only_from_five() {
    let rules = Rules::new();
    let mut pile = CardPile::new();
    let five = Card { number: Number::Five, color: Color::Green };
    pile.add(&five);
    let unreachable = pile.unreachable(&rules);
    assert!(unreachable.contains(five));
    assert!(!unreachable.contains(Card { number: Number::Four, color: Color::Green }));
    assert_eq!(unreachable.len(), 1);
}
