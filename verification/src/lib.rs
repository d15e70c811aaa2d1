//! Wasteland Tactics: the tactical rules of a squad turn-based shooter.
//! Grid geometry, line of sight and cover, combat arithmetic, the battle engine,
//! the enemy planner and the phase loop's decisions, each with a verified contract.

pub mod grid;
pub mod search;
pub mod rules;
pub mod battle;
pub mod planner;
pub mod phase;
pub mod orders;
pub mod ascii;
pub mod map;
