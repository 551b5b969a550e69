//! Exhaustive pentomino tiling of rectangular boards.
//!
//! The crate is organised leaf-first: points and their row-major order;
//! shapes and their canonical orientations; the drawing of the twelve
//! pieces and the catalog read off it; the grid and the board, with the
//! picture of a board; the pool of unused pieces; the backtracking
//! search, and the proofs that it finds the tilings of the board and
//! nothing else; the solver and the program around it.

pub mod board;
pub mod catalog;
pub mod config;
pub mod grid;
pub mod piece;
pub mod point;
pub mod pool;
pub mod program;
pub mod render;
pub mod search;
pub mod shape;
pub mod solver;
pub mod table;
pub mod text;
pub mod tiling;
