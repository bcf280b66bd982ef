//! Dice Wars: the rules of the game, the map generator, the computer players'
//! target selection, and the file and network formats, with their contracts.
use vstd::prelude::*;

pub mod board;
pub mod dice;
pub mod game;
pub mod graph;
pub mod lobby;
pub mod media;
pub mod menu;
pub mod grid;
pub mod rng;
pub mod proto;
pub mod replay;
pub mod rules;
pub mod save;
pub mod text;

verus! {
} // verus!
