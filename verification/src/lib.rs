//! The simulation engine of a falling-block typing puzzle.
//!
//! Every block is a word. A block can be moved only once its word has been
//! typed, a falling block settles on the floor or on the stack, and a row that
//! settled blocks fill from edge to edge is cleared and scores a point.
pub mod game;
