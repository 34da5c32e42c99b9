//! What the lists of moves hold: every move that the rules allow, and no
//! other.
use crate::bitboard::{
    board_upto, lemma_board_upto, lemma_squares_contains, lemma_squares_member, BitBoard,
};
use crate::game::moves::{
    can_castle, castling_move, castlings, is_castling, is_move, is_step, is_step_of, is_targets,
    kind_moves, kind_moves_upto, piece_moves, promotion_for, pseudo_legal_moves, reaches, steps,
    targets,
};
use crate::game::pieces::{Color, Kind, Pieces};
use crate::game::position::{lemma_index_round_trip, Position};
use crate::game::{Board, Move};
use vstd::prelude::*;

verus! {

/// The board of the squares that a piece may go to holds exactly those
/// squares.
pub proof fn lemma_targets_hold(board: Board, piece: Pieces)
    ensures
        forall|t: int| #[trigger] targets(board, piece).has(t) == reaches(board, piece, t),
{
    let p = |t: int| reaches(board, piece, t);
    let witness = board_upto(p, 64);
    lemma_board_upto(p, 64);
    assert forall|t: int| #[trigger] witness.has(t) == reaches(board, piece, t) by {
        if reaches(board, piece, t) {
            assert(0 <= t < 64);
        }
    }
    assert(is_targets(witness, board, piece));
    assert(is_targets(targets(board, piece), board, piece));
}

/// The moves of a piece are the moves from its square to the squares that it
/// may go to.
pub proof fn lemma_piece_moves(board: Board, piece: Pieces, m: Move)
    requires
        piece.position().wf(),
    ensures
        piece_moves(board, piece).len() <= 64,
        piece_moves(board, piece).contains(m) <==> m.wf() && m.0 == piece.position() && reaches(
            board,
            piece,
            m.1.index(),
        ) && m.2 == promotion_for(piece, m.1.index()),
{
    let all = piece_moves(board, piece);
    let squares = targets(board, piece).squares();
    lemma_targets_hold(board, piece);
    lemma_squares_contains(targets(board, piece), m.1.index());
    if all.contains(m) {
        let n = choose|n: int| 0 <= n < all.len() && all[n] == m;
        lemma_squares_member(targets(board, piece), n);
        lemma_index_round_trip(m.1, squares[n]);
    }
    if m.wf() && m.0 == piece.position() && reaches(board, piece, m.1.index()) && m.2
        == promotion_for(piece, m.1.index()) {
        let n = choose|n: int| 0 <= n < squares.len() && squares[n] == m.1.index();
        lemma_index_round_trip(m.1, 0);
        assert(all[n] == m);
    }
}

/// The piece of the colour and kind that stands on the square with number
/// `k` of the squares of that kind.
pub open spec fn piece_number(board: Board, color: Color, kind: Kind, k: int) -> Pieces {
    kind.piece(color, Position::at(board.side(color).board(kind).squares()[k]))
}

/// The moves of the first `k` pieces of a kind are the moves of each of
/// them.
pub proof fn lemma_kind_moves_upto(board: Board, color: Color, kind: Kind, k: nat, m: Move)
    requires
        k <= board.side(color).board(kind).squares().len(),
    ensures
        kind_moves_upto(board, color, kind, k).len() <= 64 * k,
        kind_moves_upto(board, color, kind, k).contains(m) <==> exists|j: int|
            0 <= j < k && #[trigger] piece_moves(
                board,
                piece_number(board, color, kind, j),
            ).contains(m),
    decreases k,
{
    if k > 0 {
        let before = kind_moves_upto(board, color, kind, (k - 1) as nat);
        let piece = piece_number(board, color, kind, k - 1);
        let last = piece_moves(board, piece);
        let all = kind_moves_upto(board, color, kind, k);
        lemma_kind_moves_upto(board, color, kind, (k - 1) as nat, m);
        lemma_squares_member(board.side(color).board(kind), k - 1);
        lemma_index_round_trip(
            Position::at(board.side(color).board(kind).squares()[k - 1]),
            board.side(color).board(kind).squares()[k - 1],
        );
        lemma_piece_moves(board, piece, m);
        assert(all == before + last);
        if all.contains(m) {
            let n = choose|n: int| 0 <= n < all.len() && all[n] == m;
            if n < before.len() {
                assert(before[n] == m);
                let j = choose|j: int|
                    0 <= j < k - 1 && #[trigger] piece_moves(
                        board,
                        piece_number(board, color, kind, j),
                    ).contains(m);
                assert(0 <= j < k && piece_moves(
                    board,
                    piece_number(board, color, kind, j),
                ).contains(m));
            } else {
                assert(last[n - before.len()] == m);
                assert(piece_moves(board, piece_number(board, color, kind, k - 1)).contains(m));
            }
        }
        if exists|j: int|
            0 <= j < k && #[trigger] piece_moves(
                board,
                piece_number(board, color, kind, j),
            ).contains(m) {
            let j = choose|j: int|
                0 <= j < k && #[trigger] piece_moves(
                    board,
                    piece_number(board, color, kind, j),
                ).contains(m);
            if j < k - 1 {
                assert(before.contains(m));
                let n = choose|n: int| 0 <= n < before.len() && before[n] == m;
                assert(all[n] == m);
            } else {
                let n = choose|n: int| 0 <= n < last.len() && last[n] == m;
                assert(all[before.len() + n] == m);
            }
        }
    }
}

/// The moves of a kind are the moves that a piece of that kind makes by its
/// way of moving.
pub proof fn lemma_kind_moves(board: Board, color: Color, kind: Kind, m: Move)
    ensures
        kind_moves(board, color, kind).len() <= 4096,
        kind_moves(board, color, kind).contains(m) <==> is_step_of(board, color, kind, m),
{
    let pieces = board.side(color).board(kind);
    let count = pieces.squares().len();
    lemma_squares_contains(pieces, m.0.index());
    lemma_kind_moves_upto(board, color, kind, count, m);
    if kind_moves(board, color, kind).contains(m) {
        let j = choose|j: int|
            0 <= j < count && #[trigger] piece_moves(
                board,
                piece_number(board, color, kind, j),
            ).contains(m);
        lemma_squares_member(pieces, j);
        lemma_index_round_trip(Position::at(pieces.squares()[j]), pieces.squares()[j]);
        lemma_piece_moves(board, piece_number(board, color, kind, j), m);
    }
    if is_step_of(board, color, kind, m) {
        let j = choose|j: int| 0 <= j < count && pieces.squares()[j] == m.0.index();
        lemma_index_round_trip(m.0, 0);
        assert(piece_number(board, color, kind, j) == kind.piece(color, m.0));
        lemma_piece_moves(board, kind.piece(color, m.0), m);
        assert(piece_moves(board, piece_number(board, color, kind, j)).contains(m));
    }
}

/// Whether a move is in the one list or in the other.
pub proof fn lemma_joined<A>(a: Seq<A>, b: Seq<A>, x: A)
    ensures
        (a + b).contains(x) <==> a.contains(x) || b.contains(x),
{
    if (a + b).contains(x) {
        let n = choose|n: int| 0 <= n < (a + b).len() && (a + b)[n] == x;
        if n < a.len() {
            assert(a[n] == x);
        } else {
            assert(b[n - a.len()] == x);
        }
    }
    if a.contains(x) {
        let n = choose|n: int| 0 <= n < a.len() && a[n] == x;
        assert((a + b)[n] == x);
    }
    if b.contains(x) {
        let n = choose|n: int| 0 <= n < b.len() && b[n] == x;
        assert((a + b)[a.len() + n] == x);
    }
}

/// The list of the moves that a colour may make, before asking whether
/// they leave its king in check, holds exactly the moves that its pieces
/// make by their ways of moving and the castlings that it may make.
pub proof fn lemma_pseudo_legal_moves(board: Board, color: Color, m: Move)
    ensures
        pseudo_legal_moves(board, color).len() <= 24578,
        pseudo_legal_moves(board, color).contains(m) <==> is_move(board, color, m),
{
    let pawn = kind_moves(board, color, Kind::Pawn);
    let rook = kind_moves(board, color, Kind::Rook);
    let knight = kind_moves(board, color, Kind::Knight);
    let bishop = kind_moves(board, color, Kind::Bishop);
    let queen = kind_moves(board, color, Kind::Queen);
    let king = kind_moves(board, color, Kind::King);
    lemma_kind_moves(board, color, Kind::Pawn, m);
    lemma_kind_moves(board, color, Kind::Rook, m);
    lemma_kind_moves(board, color, Kind::Knight, m);
    lemma_kind_moves(board, color, Kind::Bishop, m);
    lemma_kind_moves(board, color, Kind::Queen, m);
    lemma_kind_moves(board, color, Kind::King, m);
    lemma_joined(pawn, rook, m);
    lemma_joined(pawn + rook, knight, m);
    lemma_joined(pawn + rook + knight, bishop, m);
    lemma_joined(pawn + rook + knight + bishop, queen, m);
    lemma_joined(pawn + rook + knight + bishop + queen, king, m);
    lemma_joined(steps(board, color), castlings(board, color), m);
    assert(steps(board, color).contains(m) <==> is_step(board, color, m)) by {
        if is_step(board, color, m) {
            let kind = choose|kind: Kind| #[trigger] is_step_of(board, color, kind, m);
            lemma_kind_moves(board, color, kind, m);
        }
        if steps(board, color).contains(m) {
            if pawn.contains(m) {
                assert(is_step_of(board, color, Kind::Pawn, m));
            } else if rook.contains(m) {
                assert(is_step_of(board, color, Kind::Rook, m));
            } else if knight.contains(m) {
                assert(is_step_of(board, color, Kind::Knight, m));
            } else if bishop.contains(m) {
                assert(is_step_of(board, color, Kind::Bishop, m));
            } else if queen.contains(m) {
                assert(is_step_of(board, color, Kind::Queen, m));
            } else {
                assert(is_step_of(board, color, Kind::King, m));
            }
        }
    }
    assert(castlings(board, color).contains(m) <==> is_castling(board, color, m)) by {
        let short = if can_castle(board, color, true) {
            seq![castling_move(color, true)]
        } else {
            Seq::empty()
        };
        let long = if can_castle(board, color, false) {
            seq![castling_move(color, false)]
        } else {
            Seq::empty()
        };
        lemma_joined(short, long, m);
        if is_castling(board, color, m) {
            let kingside = choose|kingside: bool| #[trigger]
                can_castle(board, color, kingside) && m == castling_move(color, kingside);
            if kingside {
                assert(short[0] == m);
            } else {
                assert(long[0] == m);
            }
        }
        if short.contains(m) {
            assert(can_castle(board, color, true) && m == castling_move(color, true));
        }
        if long.contains(m) {
            assert(can_castle(board, color, false) && m == castling_move(color, false));
        }
    }
}

} // verus!
