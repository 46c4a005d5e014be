//! A five-letter word guessing game: scoring of guesses, validation against a
//! sorted dictionary, the round state machine and the persisted win histogram.

pub mod decimal;
pub mod game;
pub mod lexicon;
pub mod round;
pub mod userdata;
pub mod verdict;
