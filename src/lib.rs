//! A turn-based combat simulation core: bounded resource gauges, fixed-seat
//! team rosters, reactive modifiers and an event engine that turns a proposed
//! action into a causal tree of resolved events.
pub mod progress_bars;
pub mod ids;
pub mod chance;
pub mod roster;
pub mod modifiers;
pub mod events;
pub mod game;
pub mod entities;
pub mod display;
