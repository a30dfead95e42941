//! Simulation core of a continuous-movement snake game.
//!
//! The snake's body is a polyline that advances smoothly over arbitrary
//! elapsed time, while turns are pinned to the half-integer boundaries between
//! board cells. Coordinates, speeds and time spans are fixed-point numbers:
//! integers that count millionths (see [`fixed::SCALE`]). Every contract is
//! stated over the mathematical integers and names each rounding that it
//! makes. What the rounding can amount to is bounded by laws, within the
//! range that the operations admit: a unit vector holds six decimals, so
//! vectors are normalized up to [`fixed::LENGTH_LIMIT`] and the snake lives
//! within [`fixed::COORD_LIMIT`].
//!
//! - [`fixed`]: rounded division and the integer square root.
//! - [`vector`], [`segment`]: vectors, segments and the point-inside test.
//! - [`food`]: the free cells of the board and the choice of one.
//! - [`model`]: the state of a game and its steps as mathematical functions.
//! - [`game`]: the game itself, each operation held to the model.
//! - [`laws`], [`regular`], [`collinear`]: what is proved of the model.

pub mod collinear;
pub mod error;
pub mod fixed;
pub mod food;
pub mod game;
pub mod laws;
pub mod model;
pub mod regular;
pub mod segment;
pub mod vector;
