//! A rules engine for two-player Brazilian Truco.
use vstd::prelude::*;

pub mod actions;
pub mod bot_analysis;
pub mod api;
pub mod cards;
pub mod engine;
pub mod engine_types;
pub mod error;
pub mod exploration;
pub mod fixtures;
pub mod game_match;
pub mod invariants;
pub mod json_model;
pub mod lists;
pub mod match_types;
pub mod oracle;
pub mod random;
pub mod ranges;
pub mod rules;
pub mod state;
pub mod validation;

verus! {

/// Points that decide a match.
pub const MATCH_TARGET: u8 = 12;

/// Value of a hand before any raise.
pub const INITIAL_HAND_VALUE: u8 = 1;

/// The values a hand can be raised through, in order.
pub const RAISE_LADDER: [u8; 5] = [1, 3, 6, 9, 12];

} // verus!
