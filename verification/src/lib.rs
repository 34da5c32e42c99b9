//! A chess engine core: bitboards, positions, move generation and a negamax
//! search, with the rules of each stated as contracts.
pub mod bitboard;
pub mod bits;
pub mod game;
pub mod genius;
pub mod session;
