//! Knight moves.
use crate::bitboard::{lemma_square, BitBoard};
use crate::game::pieces::{file_of, offset, rank_of, shifted, Color};
use crate::game::position::Position;
use crate::game::Board;
use vstd::math::abs;
use vstd::prelude::*;

verus! {

/// Whether a knight on the square `s` attacks the square `t`: one file and
/// two ranks away, or two files and one rank.
pub open spec fn knight_step(s: int, t: int) -> bool {
    &&& 0 <= t < 64
    &&& {
        let df = abs(file_of(t) - file_of(s));
        let dr = abs(rank_of(t) - rank_of(s));
        (df == 1 && dr == 2) || (df == 2 && dr == 1)
    }
}

/// The squares that a knight on the given square attacks, ignoring
/// blockers.
pub fn knight_steps(origin: Position) -> (r: BitBoard)
    requires
        origin.wf(),
    ensures
        forall|t: int| #[trigger] r.has(t) == knight_step(origin.index(), t),
{
    let center = BitBoard::from_position(origin);
    // North-North-East
    let nne = offset(center, 1, 2);
    // North-East-East
    let nee = offset(center, 2, 1);
    // South-East-East
    let see = offset(center, 2, -1);
    // South-South-East
    let sse = offset(center, 1, -2);
    // South-South-West
    let ssw = offset(center, -1, -2);
    // South-West-West
    let sww = offset(center, -2, -1);
    // North-West-West
    let nww = offset(center, -2, 1);
    // North-North-West
    let nnw = offset(center, -1, 2);
    let east = nne | nee | see | sse;
    let west = ssw | sww | nww | nnw;
    let r = east | west;
    proof {
        let s = origin.index();
        lemma_square(s);
        assert forall|t: int| #[trigger] r.has(t) == knight_step(s, t) by {
            assert(r@.contains(t) == (east@.contains(t) || west@.contains(t)));
            assert(east@.contains(t) == (nne@.contains(t) || nee@.contains(t) || see@.contains(t)
                || sse@.contains(t)));
            assert(west@.contains(t) == (ssw@.contains(t) || sww@.contains(t) || nww@.contains(t)
                || nnw@.contains(t)));
            if 0 <= t < 64 {
                lemma_single_shifted(s, t, 1, 2);
                lemma_single_shifted(s, t, 2, 1);
                lemma_single_shifted(s, t, 2, -1);
                lemma_single_shifted(s, t, 1, -2);
                lemma_single_shifted(s, t, -1, -2);
                lemma_single_shifted(s, t, -2, -1);
                lemma_single_shifted(s, t, -2, 1);
                lemma_single_shifted(s, t, -1, 2);
            }
        }
    }
    r
}

/// The one square of a board moves to the square that lies the same number
/// of files and ranks away.
pub proof fn lemma_single_shifted(s: int, t: int, df: int, dr: int)
    requires
        0 <= s < 64,
        0 <= t < 64,
        -8 < df < 8,
    ensures
        shifted(BitBoard::square(s), df, dr, t) == (file_of(t) == file_of(s) + df && rank_of(t)
            == rank_of(s) + dr),
{
    lemma_square(s);
    crate::game::pieces::lemma_offset(t - 8 * dr - df, t, df, dr);
}

/// Generates a bitboard with the moves (steps) that can be performed by the knight at the given position.
///
/// Note: this doesn't verify if the move is 100% legal, i.e. it could put the king in check.
/// However, it does prevent the knight from capturing its own pieces.
pub fn get_knight_moves(board: &Board, color: Color, origin: Position) -> (r: BitBoard)
    requires
        origin.wf(),
    ensures
        forall|t: int| #[trigger]
            r.has(t) == (knight_step(origin.index(), t) && !board.side(color).pieces.has(t)),
{
    let side = board.get_side(color);
    let grid = knight_steps(origin);
    let free = side.pieces.inverse();
    let r = grid & free;
    proof {
        assert forall|t: int| #[trigger]
            r.has(t) == (knight_step(origin.index(), t) && !board.side(color).pieces.has(t)) by {
            assert(r@.contains(t) == (grid@.contains(t) && free@.contains(t)));
        }
    }
    r
}

/// Generates the BitBoard map for all possible knight move grids, indexed by
/// center square (0 = a1, 63 = h8).
pub fn compile_knight_moves() -> (moves: Vec<BitBoard>)
    ensures
        moves@.len() == 64,
        forall|i: int, t: int|
            0 <= i < 64 ==> #[trigger] moves@[i].has(t) == knight_step(i, t),
{
    let mut moves: Vec<BitBoard> = Vec::new();
    let mut i: u8 = 0;
    while i < 64
        invariant
            i <= 64,
            moves@.len() == i,
            forall|k: int, t: int| 0 <= k < i ==> #[trigger] moves@[k].has(t) == knight_step(k, t),
        decreases 64 - i,
    {
        let center = Position::from_index(i);
        moves.push(knight_steps(center));
        i = i + 1;
    }
    moves
}

/// The squares that knights on any of the given squares attack, ignoring
/// blockers.
pub fn knight_attacks(origins: BitBoard) -> (r: BitBoard)
    ensures
        forall|t: int| #[trigger]
            r.has(t) == exists|s: int| #[trigger] origins.has(s) && knight_step(s, t),
{
    let mut result = BitBoard::empty();
    let mut rest = origins;
    while rest.0 != 0
        invariant
            forall|s: int| #[trigger] rest.has(s) ==> origins.has(s),
            forall|t: int| #[trigger]
                result.has(t) == exists|s: int| #[trigger]
                    origins.has(s) && !rest.has(s) && knight_step(s, t),
        decreases rest@.len(),
    {
        let ghost before = rest;
        let ghost found = result;
        proof {
            crate::bitboard::lemma_clear_lowest_square(rest);
        }
        let origin = rest.next().unwrap();
        let seen = knight_steps(origin);
        result = result | seen;
        proof {
            let o = origin.index();
            assert forall|s: int| #[trigger] rest.has(s) implies origins.has(s) by {
                assert(rest@.contains(s) ==> before@.contains(s));
                assert(before.has(s));
            }
            assert forall|t: int| #[trigger]
                result.has(t) == exists|s: int| #[trigger]
                    origins.has(s) && !rest.has(s) && knight_step(s, t) by {
                assert(result@.contains(t) == (found@.contains(t) || seen@.contains(t)));
                if result.has(t) {
                    if found.has(t) {
                        let s = choose|s: int| #[trigger]
                            origins.has(s) && !before.has(s) && knight_step(s, t);
                        assert(rest@.contains(s) ==> before@.contains(s));
                        assert(origins.has(s) && !rest.has(s));
                    } else {
                        assert(before.has(o));
                        assert(!rest@.contains(o));
                        assert(origins.has(o) && !rest.has(o));
                    }
                }
                if exists|s: int| #[trigger] origins.has(s) && !rest.has(s) && knight_step(s, t) {
                    let s = choose|s: int| #[trigger]
                        origins.has(s) && !rest.has(s) && knight_step(s, t);
                    assert(rest@.contains(s) == (before@.contains(s) && s != o));
                    if s != o {
                        assert(origins.has(s) && !before.has(s));
                        assert(found.has(t));
                    }
                }
            }
        }
    }
    proof {
        crate::bitboard::lemma_empty();
        assert forall|t: int| #[trigger]
            result.has(t) == exists|s: int| #[trigger] origins.has(s) && knight_step(s, t) by {
            if exists|s: int| #[trigger] origins.has(s) && knight_step(s, t) {
                let s = choose|s: int| #[trigger] origins.has(s) && knight_step(s, t);
                assert(origins.has(s) && !rest.has(s));
            }
        }
    }
    result
}

} // verus!
