//! Combat simulation core of a top-down tank arena: maze generation, arena
//! layout, tank and weapon state machines, destruction and round resets.

pub mod rng;
pub mod maze;
pub mod input;
pub mod tank;
pub mod weapon;
pub mod markers;
pub mod physics;
pub mod graphics;
pub mod raze;
pub mod scoreboard;
pub mod destroy;
pub mod level;
pub mod spawn;
pub mod color;
