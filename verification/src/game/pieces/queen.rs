//! Queen moves.
use crate::bitboard::BitBoard;
use crate::game::pieces::sliding::{
    bishop_sees, get_sliding_diagonal_moves, get_sliding_straight_moves, queen_sees, rook_sees,
};
use crate::game::pieces::Color;
use crate::game::Board;
use vstd::prelude::*;

verus! {

/// Generates a bitboard with the moves that can be performed by the queens in the given bitboard.
///
/// Note that multiple queens can be passed in the bitboard; to get the moves for individual queens,
/// iterate over the queens and call this function with the singular bitboard for each queen.
pub fn get_queen_sliding_moves(board: &Board, color: Color, origin: &BitBoard) -> (r: BitBoard)
    ensures
        forall|t: int| #[trigger]
            r.has(t) == (!board.side(color).pieces.has(t) && exists|s: int| #[trigger]
                origin.has(s) && queen_sees(board.occupancy(), s, t)),
{
    let diagonal = get_sliding_diagonal_moves(board, color, origin);
    let straight = get_sliding_straight_moves(board, color, origin);
    let r = diagonal | straight;
    proof {
        assert forall|t: int| #[trigger]
            r.has(t) == (!board.side(color).pieces.has(t) && exists|s: int| #[trigger]
                origin.has(s) && queen_sees(board.occupancy(), s, t)) by {
            assert(r@.contains(t) == (diagonal@.contains(t) || straight@.contains(t)));
            if diagonal.has(t) {
                let s = choose|s: int| #[trigger]
                    origin.has(s) && bishop_sees(board.occupancy(), s, t);
                assert(origin.has(s) && queen_sees(board.occupancy(), s, t));
            }
            if straight.has(t) {
                let s = choose|s: int| #[trigger]
                    origin.has(s) && rook_sees(board.occupancy(), s, t);
                assert(origin.has(s) && queen_sees(board.occupancy(), s, t));
            }
            if exists|s: int| #[trigger] origin.has(s) && queen_sees(board.occupancy(), s, t) {
                let s = choose|s: int| #[trigger]
                    origin.has(s) && queen_sees(board.occupancy(), s, t);
                if rook_sees(board.occupancy(), s, t) {
                    assert(origin.has(s) && rook_sees(board.occupancy(), s, t));
                } else {
                    assert(origin.has(s) && bishop_sees(board.occupancy(), s, t));
                }
            }
        }
    }
    r
}

} // verus!
