pub mod color;
pub mod entity;
pub mod geometry;
pub mod stats;
pub mod turn;
pub mod status_effects;
pub mod log;
pub mod grid;
pub mod movement;
pub mod rng;
pub mod map;
pub mod pathfinding;
pub mod alignments;
pub mod dice;
pub mod ai;
pub mod ranged;
pub mod attack;
pub mod melee;
pub mod healing;
pub mod vore;
pub mod input;
pub mod rendering;
pub mod actors;
pub mod ending;
pub mod panels;
pub mod actions;
pub mod text;
