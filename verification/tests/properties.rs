use ranabi::card::{Card, Color, Number, Property};
use ranabi::card_set::CardSet;
use ranabi::firework::Firework;
use ranabi::rules::Rules;

#[test]
fn properties_work_correctly() {
    for property in Property::all(&Rules::new()) {
        let pos = CardSet::with_property(property);
        let mut neg = CardSet::all();
        neg.apply_not(property);

        for card in pos.iter() {
            assert!(card.satisfies(property));
        }
        for card in neg.iter() {
            assert!(!card.satisfies(property));
        }

        assert_eq!(pos.len(), 5);
        assert_eq!(neg.len(), 20);
        assert!(!pos.intersects(&neg));
    }
}

#[test]
fn play_order() {
    let mut firework = Firework::new(&Rules::new().used_colors());

    for card in CardSet::all().in_play_order() {
        let succ = firework.add(card);
        assert!(succ)
    }
    assert!(firework.is_complete())
}

#[test]
fn unique_singles_out_one_card() {
    let card = Card { number: Number::Three, color: Color::Yellow };
    let mut set = CardSet::none();
    assert!(set.unique().is_none());
    set.add(card);
    assert_eq!(set.unique(), Some(card));
    set.add(Card { number: Number::One, color: Color::Red });
    assert!(set.unique().is_none());
}

#[test]
fn apply_twice_is_apply_once() {
    for property in Property::all(&Rules::new()) {
        let mut once = CardSet::all();
        once.apply(property);
        let mut twice = once;
        twice.apply(property);
        assert_eq!(once, twice);

        let mut not_once = CardSet::all();
        not_once.apply_not(property);
        let mut not_twice = not_once;
        not_twice.apply_not(property);
        assert_eq!(not_once, not_twice);
    }
}

#[test]
fn add_and_remove_are_reported() {
    let card = Card { number: Number::Five, color: Color::White };
    let mut set = CardSet::none();
    assert!(set.add(card));
    assert!(!set.add(card));
    assert!(set.contains(card));
    assert_eq!(set.len(), 1);
    assert!(set.remove(card));
    assert!(!set.remove(card));
    assert!(set.is_empty());
}

#[test]
fn delayed_playable_credits_chains() {
    let rules = Rules::new();
    let mut firework = Firework::new(&rules.used_colors());
    assert!(firework.add(Card { number: Number::One, color: Color::Blue }));

    let mut known = CardSet::none();
    known.add(Card { number: Number::Two, color: Color::Blue });
    known.add(Card { number: Number::Three, color: Color::Blue });

    let delayed = firework.delayed_playable(&known);
    assert!(delayed.contains(Card { number: Number::Four, color: Color::Blue }));
    assert!(!delayed.contains(Card { number: Number::Two, color: Color::Blue }));
    assert!(delayed.contains(Card { number: Number::One, color: Color::Red }));

    assert_eq!(firework.score(), 1);
    let played = firework.already_played();
    assert!(played.contains(Card { number: Number::One, color: Color::Blue }));
    assert!(!played.contains(Card { number: Number::Two, color: Color::Blue }));
}

#[test]
fn misplay_does_not_grow_the_pile() {
    let rules = Rules::new();
    let mut firework = Firework::new(&rules.used_colors());
    assert!(!firework.add(Card { number: Number::Two, color: Color::Green }));
    assert!(firework.add(Card { number: Number::One, color: Color::Green }));
    assert!(!firework.add(Card { number: Number::One, color: Color::Green }));
    assert_eq!(firework.score(), 1);
    assert!(firework.is_playable(&Card { number: Number::Two, color: Color::Green }));
}

#[test]
fn every_property_has_a_card_of_each_kind() {
    let all = CardSet::all();
    assert_eq!(all.len(), 25);
    for card in all.iter() {
        assert!(all.contains(card));
    }
    assert_eq!(CardSet::none().len(), 0);
}

#[test]
fn with_property_number_lists_all_colors() {
    let twos = CardSet::with_property(Property::Number(Number::Two));
    for color in Rules::new().used_colors() {
        assert!(twos.contains(Card { number: Number::Two, color }));
        assert!(!twos.contains(Card { number: Number::Three, color }));
    }
}

#[test]
fn stall_severity_peaks_at_the_clue_cap() {
    let rules = Rules::new();
    let mut public = ranabi::public_state::PublicState::new(rules);
    let seat = ranabi::player_state::PlayerState::new();
    let none = CardSet::none();

    // At the cap no discard is legal: the severest stall.
    assert_eq!(seat.stall_severity(&public, &none, &none, &none), 4);

    // One clue spent: an empty hand has no untouched card and no known play,
    // so the seat still counts as locked.
    public.hint();
    assert_eq!(seat.stall_severity(&public, &none, &none, &none), 3);
}

#[test]
fn cardinality_grows_only_on_new_cards() {
    let mut set = CardSet::none();
    let card = Card { number: Number::Two, color: Color::Green };
    assert!(set.add(card));
    assert_eq!(set.len(), 1);
    assert!(!set.add(card));
    assert_eq!(set.len(), 1);
    assert!(set.add(Card { number: Number::Two, color: Color::Red }));
    assert_eq!(set.len(), 2);
}

#[test]
fn focus_follows_the_convention() {
    // Hand of four, position 2 already touched.
    let mut touched = ranabi::player::PositionSet::new(4);
    touched.insert(2);

    // A hint that only re-touches position 2 focuses position 2.
    let mut reclue = ranabi::player::PositionSet::new(4);
    reclue.insert(2);
    assert_eq!(reclue.focus_position(touched), 2);

    // The chop is the biggest untouched position: 4. A hint naming it
    // focuses it.
    let mut chop_hint = ranabi::player::PositionSet::new(4);
    chop_hint.insert(3);
    chop_hint.insert(4);
    assert_eq!(chop_hint.focus_position(touched), 4);

    // A hint that touches something new away from the chop focuses the
    // smallest newly touched position.
    let mut fresh = ranabi::player::PositionSet::new(4);
    fresh.insert(1);
    fresh.insert(2);
    fresh.insert(3);
    assert_eq!(fresh.focus_position(touched), 1);
}
