//! A sparse Game of Life engine.
//!
//! Two variants of the engine are provided:
//!
//! - [`world::World`], an unbounded board over signed coordinates, where
//!   neighbour coordinates wrap on overflow at the edge of the integer range;
//! - [`game::Game`], a bounded board of fixed width and height, where the
//!   neighbourhood of a cell is clamped at the edges.
//!
//! Both store the live cells as a strictly ascending vector of coordinate
//! pairs, so one generation step costs time proportional to the population,
//! never to the board area.

pub mod game;
pub mod world;

pub use game::Game;
pub use world::World;
