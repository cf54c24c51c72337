//! Simulation core of a grid arcade game: a player marker moves and fires
//! bullets across a rectangular grid against asteroids that break apart
//! when a bullet removes one of their cells.

pub mod asteroid;
pub mod connectivity;
pub mod entity;
pub mod grid;
pub mod universe;

pub use asteroid::Asteroid;
pub use entity::{Bullet, Renderable};
pub use grid::{BoundsError, Cell, Direction, Grid, InvalidDirection, Position};
pub use universe::Universe;
