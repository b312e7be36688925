//! Polyomino shapes up to rotation, and a board that shapes are placed on.
//!
//! A shape is a list of cells. Its canonical key is the smallest normal form among its
//! four rotations, so two shapes are rotations of one another exactly when their keys
//! are the same. Reflections are told apart.

pub mod board;
pub mod canonical;
pub mod error;
pub mod gen_polyominos;
pub mod growth;
pub mod order;
pub mod plane;

pub use board::Board;
pub use error::PolyominoError;
pub use gen_polyominos::{canonicalize, generate_pentominoes, normalize, Polyomino};
