//! Solving engine for a grid puzzle with pushable blocks, lasers, reflectors,
//! pressure plates and gated exit doors.
//!
//! The entities of a level live in an arena ([`world::World`]); the grid
//! and the layers derived from the entities live in [`map::TileMap`].
//! [`systems`] recomputes the derived state: what is blocked, where the
//! beams go, which plates and receptors are active and which doors are
//! open. [`planner`] finds shortest walkable routes.
//! [`turn_history::TurnsHistory`] applies turns and takes them back.
//! [`ai_cache::AiStatesCache`] remembers the states that the search has
//! been in, and [`ai::AI`] searches, by backtracking, for a sequence of
//! turns that brings the player to an exit.
//!
//! [`player`] turns keys into turns, [`gui`] decides what the keys do
//! outside a turn, and [`level`] reads levels from text.

pub mod components;
pub mod world;
pub mod map;
pub mod planner;
pub mod turn_history;
pub mod ai_cache;
pub mod systems;
pub mod player;
pub mod ai;
pub mod level;
pub mod gui;
