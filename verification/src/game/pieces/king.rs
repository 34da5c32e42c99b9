//! King steps.
use crate::bitboard::{lemma_square, BitBoard};
use crate::game::pieces::{file_mask, file_of, rank_mask, rank_of, Color};
use crate::game::position::Position;
use crate::game::Board;
use vstd::math::abs;
use vstd::prelude::*;

verus! {

/// Whether the square `t` is next to the square `s`: at most one file and
/// one rank away, and not `s` itself.
pub open spec fn king_step(s: int, t: int) -> bool {
    &&& 0 <= t < 64
    &&& t != s
    &&& abs(file_of(t) - file_of(s)) <= 1
    &&& abs(rank_of(t) - rank_of(s)) <= 1
}

/// The squares around the given square.
///
/// To generate the steps, it does the following bitwise operation:
/// (file | file-1 | file+1) & (rank | rank-1 | rank+1) &!center
/// ... where file-1 is the file directly West of the current one, if any
/// ... where file+1 is the file directly East of the current one, if any
/// ... where rank-1 is the rank directly South of the current one, if any
/// ... where rank+1 is the rank directly North of the current one, if any
pub fn king_steps(origin: Position) -> (r: BitBoard)
    requires
        origin.wf(),
    ensures
        forall|t: int| #[trigger] r.has(t) == king_step(origin.index(), t),
{
    let center = BitBoard::from_position(origin);
    let mut files = file_mask(origin.file_x);
    let mut ranks = rank_mask(origin.rank_y);
    let ghost file_here = files;
    let ghost rank_here = ranks;
    let mut west = BitBoard::empty();
    let mut east = BitBoard::empty();
    let mut south = BitBoard::empty();
    let mut north = BitBoard::empty();

    if origin.file_x != 0 {
        west = file_mask(origin.file_x - 1);
    }
    if origin.file_x != 7 {
        east = file_mask(origin.file_x + 1);
    }
    if origin.rank_y != 0 {
        south = rank_mask(origin.rank_y - 1);
    }
    if origin.rank_y != 7 {
        north = rank_mask(origin.rank_y + 1);
    }
    files = files | west | east;
    ranks = ranks | south | north;
    let around = center.inverse();
    let r = files & ranks & around;
    proof {
        let s = origin.index();
        lemma_square(s);
        assert forall|t: int| #[trigger] r.has(t) == king_step(s, t) by {
            assert(r@.contains(t) == (files@.contains(t) && ranks@.contains(t) && around@.contains(
                t,
            )));
            assert(files@.contains(t) == (file_here@.contains(t) || west@.contains(t)
                || east@.contains(t)));
            assert(ranks@.contains(t) == (rank_here@.contains(t) || south@.contains(t)
                || north@.contains(t)));
            assert(file_here.has(t) == (0 <= t < 64 && file_of(t) == origin.file_x));
            assert(rank_here.has(t) == (0 <= t < 64 && rank_of(t) == origin.rank_y));
            assert(west.has(t) == (0 <= t < 64 && file_of(t) == origin.file_x - 1));
            assert(east.has(t) == (0 <= t < 64 && file_of(t) == origin.file_x + 1));
            assert(south.has(t) == (0 <= t < 64 && rank_of(t) == origin.rank_y - 1));
            assert(north.has(t) == (0 <= t < 64 && rank_of(t) == origin.rank_y + 1));
        }
    }
    r
}

/// Generates a bitboard with the moves (steps) that can be performed by the king at the given position.
///
/// Note: this doesn't verify if the move is 100% legal, i.e. it could put the king in check.
/// However, it does prevent the king from capturing its own pieces.
///
/// Note: castling moves are not generated by this routine.
pub fn get_king_steps(board: &Board, color: Color, origin: Position) -> (r: BitBoard)
    requires
        origin.wf(),
    ensures
        forall|t: int| #[trigger]
            r.has(t) == (king_step(origin.index(), t) && !board.side(color).pieces.has(t)),
{
    let side = board.get_side(color);
    let grid = king_steps(origin);
    let free = side.pieces.inverse();
    let r = grid & free;
    proof {
        assert forall|t: int| #[trigger]
            r.has(t) == (king_step(origin.index(), t) && !board.side(color).pieces.has(t)) by {
            assert(r@.contains(t) == (grid@.contains(t) && free@.contains(t)));
        }
    }
    r
}

/// Generates the BitBoard map for all possible king move grids, indexed by
/// center square (0 = a1, 63 = h8).
pub fn compile_king_moves() -> (moves: Vec<BitBoard>)
    ensures
        moves@.len() == 64,
        forall|i: int, t: int| 0 <= i < 64 ==> #[trigger] moves@[i].has(t) == king_step(i, t),
{
    let mut moves: Vec<BitBoard> = Vec::new();
    let mut i: u8 = 0;
    while i < 64
        invariant
            i <= 64,
            moves@.len() == i,
            forall|k: int, t: int| 0 <= k < i ==> #[trigger] moves@[k].has(t) == king_step(k, t),
        decreases 64 - i,
    {
        let center = Position::from_index(i);
        moves.push(king_steps(center));
        i = i + 1;
    }
    moves
}

/// The squares that kings on any of the given squares attack, ignoring
/// blockers.
pub fn king_attacks(origins: BitBoard) -> (r: BitBoard)
    ensures
        forall|t: int| #[trigger]
            r.has(t) == exists|s: int| #[trigger] origins.has(s) && king_step(s, t),
{
    let mut result = BitBoard::empty();
    let mut rest = origins;
    while rest.0 != 0
        invariant
            forall|s: int| #[trigger] rest.has(s) ==> origins.has(s),
            forall|t: int| #[trigger]
                result.has(t) == exists|s: int| #[trigger]
                    origins.has(s) && !rest.has(s) && king_step(s, t),
        decreases rest@.len(),
    {
        let ghost before = rest;
        let ghost found = result;
        proof {
            crate::bitboard::lemma_clear_lowest_square(rest);
        }
        let origin = rest.next().unwrap();
        let seen = king_steps(origin);
        result = result | seen;
        proof {
            let o = origin.index();
            assert forall|s: int| #[trigger] rest.has(s) implies origins.has(s) by {
                assert(rest@.contains(s) ==> before@.contains(s));
                assert(before.has(s));
            }
            assert forall|t: int| #[trigger]
                result.has(t) == exists|s: int| #[trigger]
                    origins.has(s) && !rest.has(s) && king_step(s, t) by {
                assert(result@.contains(t) == (found@.contains(t) || seen@.contains(t)));
                if result.has(t) {
                    if found.has(t) {
                        let s = choose|s: int| #[trigger]
                            origins.has(s) && !before.has(s) && king_step(s, t);
                        assert(rest@.contains(s) ==> before@.contains(s));
                        assert(origins.has(s) && !rest.has(s));
                    } else {
                        assert(before.has(o));
                        assert(!rest@.contains(o));
                        assert(origins.has(o) && !rest.has(o));
                    }
                }
                if exists|s: int| #[trigger] origins.has(s) && !rest.has(s) && king_step(s, t) {
                    let s = choose|s: int| #[trigger]
                        origins.has(s) && !rest.has(s) && king_step(s, t);
                    assert(rest@.contains(s) == (before@.contains(s) && s != o));
                    if s != o {
                        assert(origins.has(s) && !before.has(s));
                        assert(found.has(t));
                    }
                }
            }
        }
    }
    proof {
        crate::bitboard::lemma_empty();
        assert forall|t: int| #[trigger]
            result.has(t) == exists|s: int| #[trigger] origins.has(s) && king_step(s, t) by {
            if exists|s: int| #[trigger] origins.has(s) && king_step(s, t) {
                let s = choose|s: int| #[trigger] origins.has(s) && king_step(s, t);
                assert(origins.has(s) && !rest.has(s));
            }
        }
    }
    result
}

} // verus!
