//! Rook moves.
use crate::bitboard::BitBoard;
use crate::game::pieces::sliding::{get_sliding_straight_moves, rook_sees};
use crate::game::pieces::Color;
use crate::game::Board;
use vstd::prelude::*;

verus! {

/// Generates a bitboard with the moves that can be performed by the rooks in the given bitboard.
///
/// Note that multiple rooks can be passed in the bitboard; to get the moves for individual rooks,
/// iterate over the rooks and call this function with the singular bitboard for each rook.
pub fn get_rook_sliding_moves(board: &Board, color: Color, origin: &BitBoard) -> (r: BitBoard)
    ensures
        forall|t: int| #[trigger]
            r.has(t) == (!board.side(color).pieces.has(t) && exists|s: int| #[trigger]
                origin.has(s) && rook_sees(board.occupancy(), s, t)),
{
    get_sliding_straight_moves(board, color, origin)
}

} // verus!
