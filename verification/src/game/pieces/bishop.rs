//! Bishop moves.
use crate::bitboard::BitBoard;
use crate::game::pieces::sliding::{bishop_sees, get_sliding_diagonal_moves};
use crate::game::pieces::Color;
use crate::game::Board;
use vstd::prelude::*;

verus! {

/// Generates a bitboard with the moves that can be performed by the bishops in the given bitboard.
///
/// Note that multiple bishops can be passed in the bitboard; to get the moves for individual bishops,
/// iterate over the bishops and call this function with the singular bitboard for each bishop.
pub fn get_bishop_sliding_moves(board: &Board, color: Color, origin: &BitBoard) -> (r: BitBoard)
    ensures
        forall|t: int| #[trigger]
            r.has(t) == (!board.side(color).pieces.has(t) && exists|s: int| #[trigger]
                origin.has(s) && bishop_sees(board.occupancy(), s, t)),
{
    get_sliding_diagonal_moves(board, color, origin)
}

} // verus!
