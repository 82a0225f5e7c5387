//! Move generation for chess on boards of bits: sets of squares as words,
//! wide integers of several limbs, the tables of the pieces with magic
//! lookups for the sliders, positions with their moves and the way back,
//! the rules of chess, and hashes and texts of positions.
pub mod bitboard;
pub mod chess;
pub mod game;
pub mod uci;
