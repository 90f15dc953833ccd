pub mod card;
pub mod card_set;
pub mod action;
pub mod player;
pub mod rules;
pub mod card_pile;
pub mod imap;
pub mod firework;
pub mod public_state;
pub mod assessment;
pub mod deck;
pub mod referee;
pub mod player_state;
pub mod basic;
