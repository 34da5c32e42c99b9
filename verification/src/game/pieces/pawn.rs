//! Pawn pushes and captures.
use crate::bitboard::BitBoard;
use crate::game::pieces::{file_of, offset, rank_mask, rank_of, shifted, Color};
use crate::game::Board;
use vstd::prelude::*;

verus! {

/// The rank difference of one step forwards: up for white, down for black.
pub open spec fn forward(color: Color) -> int {
    match color {
        Color::White => 1,
        Color::Black => -1,
    }
}

/// The rank on which the colour's pawns start, counted from 0.
pub open spec fn pawn_rank(color: Color) -> int {
    match color {
        Color::White => 1,
        Color::Black => 6,
    }
}

/// The squares that a pawn may capture on: where the other side has a
/// piece, and the square that it left open to a capture in passing.
pub open spec fn capturable(board: Board, color: Color) -> BitBoard {
    board.side(color.opposite()).pieces.union(board.side(color.opposite()).en_passant_target)
}

/// Whether a pawn of the colour on the square `s` may go to the square `t`:
/// one step forwards onto an empty square, two steps from its starting rank
/// over an empty square onto an empty square, or one step diagonally
/// forwards onto a square that it may capture on.
pub open spec fn pawn_reaches(board: Board, color: Color, s: int, t: int) -> bool {
    let df = file_of(t) - file_of(s);
    let dr = rank_of(t) - rank_of(s);
    let up = forward(color);
    &&& 0 <= s < 64
    &&& 0 <= t < 64
    &&& {
        ||| df == 0 && dr == up && !board.occupancy().has(t)
        ||| df == 0 && dr == 2 * up && rank_of(s) == pawn_rank(color) && !board.occupancy().has(
            s + 8 * up,
        ) && !board.occupancy().has(t)
        ||| (df == 1 || df == -1) && dr == up && capturable(board, color).has(t)
    }
}

/// Generates a bitboard with the moves that can be performed by the pawns in the given bitboard.
///
/// Note that multiple pawns can be passed in the bitboard; to get the moves for individual pawns,
/// iterate over the pawns and call this function with the singular bitboard for each pawn.
pub fn get_pawn_moves_and_attacks(board: &Board, color: Color, origin: &BitBoard) -> (r: BitBoard)
    ensures
        forall|t: int| #[trigger]
            r.has(t) == exists|s: int| #[trigger] origin.has(s) && pawn_reaches(*board, color, s, t),
{
    let all_pieces = board.white.pieces | board.black.pieces;
    let empty = all_pieces.inverse();
    let other_side = board.get_side(color.opposite());
    let capturable_pieces = other_side.pieces | other_side.en_passant_target;
    let (up, start): (i8, u8) = if color.is_white() {
        (1, 1)
    } else {
        (-1, 6)
    };

    // Single steps (shift by 8 bits for: rank +1 or -1)
    let stepped = offset(*origin, 0, up);
    let single = stepped & empty;

    // Right-side attacks (shift for: rank +1 or -1, file +1)
    // 'H' file is excluded to prevent overflow
    // Also checks possibility of en-passant
    let right = offset(*origin, 1, up) & capturable_pieces;

    // Left-side attacks (shift for: rank +1 or -1, file -1).
    // 'A' file is excluded to prevent underflow
    // Also checks possibility of en-passant
    let left = offset(*origin, -1, up) & capturable_pieces;

    // Double steps
    // 1. Only include pawns in their starting rank
    // 2. Ensure there are no pieces in the next rank
    // 3. Ensure there are no pieces in the rank after
    // 4. Add 2 ranks to the starting square
    let start_rank = rank_mask(start);
    let starters = *origin & start_rank;
    let halfway = offset(starters, 0, up) & empty;
    let double = offset(halfway, 0, up) & empty;

    let r = single | right | left | double;
    proof {
        let occ = board.occupancy();
        let dir = forward(color);
        assert(capturable_pieces == capturable(*board, color));
        assert forall|t: int| #[trigger]
            r.has(t) == exists|s: int| #[trigger]
                origin.has(s) && pawn_reaches(*board, color, s, t) by {
            assert(r@.contains(t) == (single@.contains(t) || right@.contains(t) || left@.contains(t)
                || double@.contains(t)));
            assert(single@.contains(t) == (stepped@.contains(t) && empty@.contains(t)));
            assert(right@.contains(t) == (shifted(*origin, 1, dir, t)
                && capturable_pieces@.contains(t)));
            assert(left@.contains(t) == (shifted(*origin, -1, dir, t)
                && capturable_pieces@.contains(t)));
            assert(double@.contains(t) == (shifted(halfway, 0, dir, t) && empty@.contains(t)));
            let mid = t - 8 * dir;
            assert(halfway@.contains(mid) == (shifted(starters, 0, dir, mid) && empty@.contains(
                mid,
            )));
            assert(starters@.contains(mid - 8 * dir) == (origin@.contains(mid - 8 * dir)
                && start_rank@.contains(mid - 8 * dir)));
            if 0 <= t < 64 {
                crate::game::pieces::lemma_offset(t - 8 * dir, t, 0, dir);
                crate::game::pieces::lemma_offset(t - 8 * dir - 1, t, 1, dir);
                crate::game::pieces::lemma_offset(t - 8 * dir + 1, t, -1, dir);
                crate::game::pieces::lemma_offset(t - 16 * dir, t, 0, 2 * dir);
                if 0 <= mid < 64 {
                    crate::game::pieces::lemma_offset(mid - 8 * dir, mid, 0, dir);
                }
            }
            if r.has(t) {
                if single.has(t) {
                    assert(origin.has(t - 8 * dir) && pawn_reaches(*board, color, t - 8 * dir, t));
                } else if right.has(t) {
                    assert(origin.has(t - 8 * dir - 1) && pawn_reaches(
                        *board,
                        color,
                        t - 8 * dir - 1,
                        t,
                    ));
                } else if left.has(t) {
                    assert(origin.has(t - 8 * dir + 1) && pawn_reaches(
                        *board,
                        color,
                        t - 8 * dir + 1,
                        t,
                    ));
                } else {
                    assert(origin.has(t - 16 * dir) && pawn_reaches(
                        *board,
                        color,
                        t - 16 * dir,
                        t,
                    ));
                }
            }
            if exists|s: int| #[trigger] origin.has(s) && pawn_reaches(*board, color, s, t) {
                let s = choose|s: int| #[trigger]
                    origin.has(s) && pawn_reaches(*board, color, s, t);
                lemma_pawn_target(s, t);
            }
        }
    }
    r
}

/// The index of a square is its rank times eight plus its file.
pub proof fn lemma_pawn_target(s: int, t: int)
    requires
        0 <= s < 64,
        0 <= t < 64,
    ensures
        t == s + 8 * (rank_of(t) - rank_of(s)) + (file_of(t) - file_of(s)),
{
}

} // verus!
