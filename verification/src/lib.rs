//! Verified solvers for a collection of daily text-input puzzles.
//!
//! Each day stands alone: a parser turns the puzzle text into plain data,
//! and one or two small algorithms compute the answers.  The centrepiece is
//! the binary packet decoder of the 2021 collection, a recursive-descent
//! parser over a bit stream proved to agree exactly with a mathematical
//! description of the packet grammar.

pub mod text;
pub mod y2020;
pub mod y2021;
pub mod y2022;
