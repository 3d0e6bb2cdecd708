//! Verified game-programming building blocks: text handling, versioning,
//! dependency ordering, grids and pathfinding, procedural generation,
//! networking buffers, persistence and game flow.
use vstd::prelude::*;

pub mod ai;
pub mod brp;
pub mod deployment;
pub mod game_design;
pub mod game_example;
pub mod graph;
pub mod health;
pub mod hot_reload;
pub mod lighting;
pub mod networking;
pub mod pathfinding;
pub mod performance;
pub mod persistence;
pub mod procgen;
pub mod rendering;
pub mod rollback;
pub mod project_structure;
pub mod text;
pub mod tilemaps;
pub mod ui;
pub mod versioning;

verus! {
} // verus!
