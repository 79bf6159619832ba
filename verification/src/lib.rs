//! Shared Dots and Boxes game engine: rules, bitboards, analysis and engines.
use vstd::prelude::*;

pub mod bitboard;
pub mod board;
pub mod cgt;
pub mod cli;
pub mod moves;
pub mod engine;
pub mod features;
pub mod rng;
pub mod session;
pub mod game;
pub mod gpu;
pub mod mcts;
pub mod playground;
pub mod render;
pub mod solver;
pub mod stamp;

pub use bitboard::{BoxBits, EdgeBits, BOX_WORDS, EDGE_WORDS};
pub use board::{BoardGeom, BoxId, EdgeCoord, EdgeId, Orientation, Position, MAX_COLS, MAX_ROWS};
pub use cgt::{
    analyze_endgame, analyze_position, encode_analysis, EndgameAnalysis, Region, RegionKind,
};
pub use engine::{CgtEngine, Engine, GreedyEngine, RandomEngine};
pub use mcts::MctsEngine;
pub use rng::XorShift64;
pub use features::{
    chw, edge_cell, feature_bits, edge_from_policy_index, legal_policy_mask, policy_index, AZ_CHANNELS, AZ_FEATURES,
    AZ_FEATURES_VERSION, AZ_HUD_COLS, AZ_HUD_ROWS, AZ_PLANE, AZ_POLICY,
};
pub use game::{Game, GameUndo, PlayResult, Player, Winner};
pub use moves::{CompletedBoxes, MoveError, Undo, MAX_COMPLETED_PER_MOVE};
pub use solver::{is_perfect_hud_size, perfect_value, PerfectEngine};

verus! {

/// Crate identity helper (used by the server health payload).
pub fn crate_name() -> (s: &'static str)
    ensures
        s@ == "dab-core"@,
{
    "dab-core"
}

} // verus!
