//! A solver for Hangman-style word guessing: it tracks what is known about
//! the hidden word, keeps the dictionary words that still fit, and ranks the
//! letters worth guessing next.
//!
//! [`model`] holds the mathematical model of a session and [`laws`] what is
//! proved of it; [`player`] is the engine itself, [`ranking`] its letter
//! scores, [`ui`] and [`input`] the interactive driver's decisions, and
//! [`simulate`] the driver that plays against a known word.

pub mod error;
pub mod input;
pub mod laws;
pub mod lists;
pub mod model;
pub mod player;
pub mod ranking;
pub mod simulate;
pub mod ui;
