//! The tick simulation of a top-down survival arena: the grid and its
//! generation, the weapons, the enemies and their path finding, and the
//! player's resources and progression.

pub mod arena;
pub mod bomb;
pub mod bullet;
pub mod chest;
pub mod combat;
pub mod dice;
pub mod emp;
pub mod enemy;
pub mod grid;
pub mod input;
pub mod mapgen;
pub mod pathfind;
pub mod player;
pub mod playing;
pub mod progress;
pub mod screen;
pub mod sound;
pub mod stat;
pub mod storage;
pub mod tile;
pub mod turret;
pub mod upgrading;
pub mod util;
pub mod walk;
