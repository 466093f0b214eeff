//! Bitboard chess position representation and pseudo-legal move generation.

pub mod bitboard;
pub mod board;
pub mod common;
pub mod constants;
pub mod fen;
pub mod movements;
pub mod moves;
pub mod strings;
