//! Games: what holds of every position that legal moves lead to from the
//! starting position.
use crate::bitboard::{lemma_finite, lemma_square, BitBoard};
use crate::game::moves::{
    attacked_by, can_castle, castling_move, in_check, is_castling, is_move, is_open_square,
    is_step, is_step_of, lemma_castling_applicable, lemma_move_applicable, lemma_step_applicable,
    pawn_attacks, piece_attacks, reaches, sound,
};
use crate::game::pieces::king::king_step;
use crate::game::pieces::knight::knight_step;
use crate::game::pieces::pawn::pawn_reaches;
use crate::game::pieces::sliding::{bishop_sees, on_line, rook_sees};
use crate::game::pieces::{Color, Kind, Pieces};
use crate::game::position::{lemma_index_round_trip, Position};
use crate::game::{
    lemma_after, lemma_all_pieces, lemma_initial, lemma_initial_squares, lemma_piece_at,
    lemma_side_squares, Board, Move,
};
use crate::genius::is_legal;
use vstd::prelude::*;

verus! {

/// Whose turn it is after `n` moves of a game that `first` began.
pub open spec fn turn(first: Color, n: nat) -> Color {
    if n % 2 == 0 {
        first
    } else {
        first.opposite()
    }
}

/// The position after the first `n` moves of a game.
pub open spec fn position_after(start: Board, moves: Seq<Move>, n: nat) -> Board
    decreases n,
{
    if n == 0 {
        start
    } else {
        position_after(start, moves, (n - 1) as nat).after(moves[n - 1])
    }
}

/// Whether every move of the game is one that the side to move may make
/// and that leaves its king out of check.
pub open spec fn legal_game(start: Board, first: Color, moves: Seq<Move>) -> bool {
    forall|n: nat|
        n < moves.len() ==> {
            &&& is_move(#[trigger] position_after(start, moves, n), turn(first, n), moves[n as int])
            &&& is_legal(position_after(start, moves, n), turn(first, n), moves[n as int])
        }
}

/// Whether no pawn stands on the first or on the eighth rank.
pub open spec fn pawns_inside(board: Board) -> bool {
    forall|i: int|
        #![trigger board.white.pawns.has(i)]
        #![trigger board.black.pawns.has(i)]
        board.white.pawns.has(i) || board.black.pawns.has(i) ==> 8 <= i < 56
}

/// What holds of every position of a game: the board is well formed and
/// sound, each side has its one king, no pawn stands on the first or on
/// the eighth rank, and the side that just moved is not in check.
pub open spec fn steady(board: Board, to_move: Color) -> bool {
    &&& board.wf()
    &&& sound(board)
    &&& board.white.king@.len() == 1
    &&& board.black.king@.len() == 1
    &&& pawns_inside(board)
    &&& !in_check(board, to_move.opposite())
}

/// A legal move leaves no pawn on the first or on the eighth rank: a pawn
/// that gets there is promoted.
pub proof fn lemma_pawns_stay_inside(board: Board, color: Color, m: Move)
    requires
        board.wf(),
        sound(board),
        pawns_inside(board),
        is_move(board, color, m),
    ensures
        pawns_inside(board.after(m)),
{
    let other = color.opposite();
    let side = board.side(color);
    let opponent = board.side(other);
    let o = m.0.index();
    let d = m.1.index();
    lemma_move_applicable(board, color, m);
    let placed = board.placed(m);
    let t = board.capture_square(m).index();
    lemma_index_round_trip(board.capture_square(m), 0);
    lemma_piece_at(board, m.0);
    let side1 = side.cleared(o);
    let side2 = side1.added(placed);
    lemma_side_squares(side, o, placed);
    lemma_side_squares(side1, o, placed);
    lemma_side_squares(opponent, t, placed);
    assert(placed is Pawn ==> 8 <= d < 56) by {
        if placed is Pawn {
            assert(is_step(board, color, m)) by {
                if is_castling(board, color, m) {
                    let kingside = choose|kingside: bool| #[trigger]
                        can_castle(board, color, kingside) && m == castling_move(color, kingside);
                    lemma_castling_applicable(board, color, kingside);
                }
            }
            let kind = choose|kind: Kind| #[trigger] is_step_of(board, color, kind, m);
            lemma_step_applicable(board, color, kind, m);
            assert(kind == Kind::Pawn);
            assert(m.2 == crate::game::moves::promotion_for(kind.piece(color, m.0), d));
        }
    }
    match board.rook_part(m) {
        Some(rook_move) => {
            let rook = Pieces::Rook(color, rook_move.1);
            let ro = rook_move.0.index();
            let side3 = side2.cleared(ro);
            lemma_side_squares(side2, ro, rook);
            lemma_side_squares(side3, ro, rook);
        },
        None => {},
    }
    let after = board.after(m);
    assert forall|i: int|
        #![trigger after.white.pawns.has(i)]
        #![trigger after.black.pawns.has(i)]
        after.white.pawns.has(i) || after.black.pawns.has(i) implies 8 <= i < 56 by {
        if board.side_after(m).pawns.has(i) {
            assert(side.pawns.has(i) || (placed is Pawn && i == d));
        }
        if board.opponent_after(m).pawns.has(i) {
            assert(opponent.pawns.has(i));
        }
    }
}

/// A move that a piece makes onto a square where the other side has a
/// piece attacks that square.
pub proof fn lemma_capture_attacks(board: Board, color: Color, kind: Kind, m: Move)
    requires
        board.wf(),
        is_step_of(board, color, kind, m),
        board.occupancy().has(m.1.index()),
    ensures
        piece_attacks(board, color, m.0.index(), m.1.index()),
{
    let s = m.0.index();
    let t = m.1.index();
    assert(board.side(color).board(kind).has(s));
    if kind == Kind::Pawn {
        assert(pawn_reaches(board, color, s, t));
        assert(pawn_attacks(color, s, t));
    }
}

/// A king is in check exactly if a piece of the other side may move onto
/// its square: whether a square is attacked can be found by listing the
/// other side's moves.
pub proof fn lemma_check_by_moves(board: Board, color: Color)
    requires
        board.wf(),
    ensures
        in_check(board, color) <==> exists|m: Move| #[trigger]
            is_step(board, color.opposite(), m) && board.side(color).king.has(m.1.index()),
{
    let other = color.opposite();
    let side = board.side(color);
    let opponent = board.side(other);
    lemma_all_pieces(side);
    lemma_all_pieces(opponent);
    crate::bitboard::lemma_set_algebra(board.white.pieces, board.black.pieces);
    if in_check(board, color) {
        let k = choose|k: int| #[trigger] side.king.has(k) && attacked_by(board, other, k);
        let s = choose|s: int| #[trigger] piece_attacks(board, other, s, k);
        let kind = if opponent.pawns.has(s) && pawn_attacks(other, s, k) {
            Kind::Pawn
        } else if opponent.knights.has(s) && knight_step(s, k) {
            Kind::Knight
        } else if opponent.king.has(s) && king_step(s, k) {
            Kind::King
        } else if opponent.rooks.has(s) && rook_sees(board.occupancy(), s, k) {
            Kind::Rook
        } else if opponent.bishops.has(s) && bishop_sees(board.occupancy(), s, k) {
            Kind::Bishop
        } else {
            Kind::Queen
        };
        let piece = kind.piece(other, Position::at(s));
        let m = Move(
            Position::at(s),
            Position::at(k),
            crate::game::moves::promotion_for(piece, k),
        );
        lemma_index_round_trip(Position::at(s), s);
        lemma_index_round_trip(Position::at(k), k);
        assert(side.pieces.has(k));
        assert(!opponent.pieces.has(k));
        crate::bitboard::lemma_set_algebra(side.pieces, side.en_passant_target);
        assert(reaches(board, piece, k));
        assert(is_step_of(board, other, kind, m));
        assert(is_step(board, other, m) && side.king.has(m.1.index()));
    }
    if exists|m: Move| #[trigger] is_step(board, other, m) && side.king.has(m.1.index()) {
        let m = choose|m: Move| #[trigger] is_step(board, other, m) && side.king.has(m.1.index());
        let kind = choose|kind: Kind| #[trigger] is_step_of(board, other, kind, m);
        assert(side.pieces.has(m.1.index()));
        lemma_capture_attacks(board, other, kind, m);
        assert(attacked_by(board, other, m.1.index()));
    }
}

/// A board with one square has exactly that square.
pub proof fn lemma_only_square(b: BitBoard, i: int)
    requires
        b@.len() == 1,
        b.has(i),
    ensures
        forall|j: int| #[trigger] b.has(j) == (j == i),
{
    lemma_finite(b);
    assert forall|j: int| #[trigger] b.has(j) == (j == i) by {
        if b.has(j) && j != i {
            assert(b@.contains(i) && b@.contains(j));
            assert(b@.remove(i).contains(j));
            assert(b@.remove(i).len() == 0);
            assert(b@.remove(i) =~= Set::<int>::empty());
        }
    }
}

/// A legal move leaves each side its king.
pub proof fn lemma_kings_stay(board: Board, color: Color, m: Move)
    requires
        steady(board, color),
        is_move(board, color, m),
    ensures
        board.after(m).white.king@.len() == 1,
        board.after(m).black.king@.len() == 1,
{
    let other = color.opposite();
    let side = board.side(color);
    let opponent = board.side(other);
    let o = m.0.index();
    let d = m.1.index();
    lemma_move_applicable(board, color, m);
    let mover = board.mover(m);
    let placed = board.placed(m);
    let t = board.capture_square(m).index();
    lemma_index_round_trip(board.capture_square(m), 0);
    lemma_piece_at(board, m.0);
    lemma_piece_at(board, m.1);
    lemma_piece_at(board, board.capture_square(m));
    lemma_all_pieces(side);
    lemma_all_pieces(opponent);
    lemma_finite(side.king);
    lemma_finite(opponent.king);
    // the other side's king is not taken
    assert(!opponent.king.has(t)) by {
        if opponent.king.has(t) {
            assert(opponent.board(Kind::King).has(t));
            assert(board.piece_at(board.capture_square(m)) == Some(
                Kind::King.piece(other, board.capture_square(m)),
            ));
            if board.in_passing(m) {
                lemma_square(d);
                assert(opponent.en_passant_target != BitBoard(0));
                let open = choose|x: int| #[trigger] is_open_square(board, other, x);
                lemma_square(open);
                assert(BitBoard::square(d).has(d));
                assert(open == d);
                assert(opponent.board(Kind::Pawn).has(t));
                assert(opponent.count_at(t) <= 1);
            } else if is_step(board, color, m) {
                let kind = choose|kind: Kind| #[trigger] is_step_of(board, color, kind, m);
                lemma_capture_attacks(board, color, kind, m);
                assert(attacked_by(board, color, d));
                assert(opponent.king.has(d) && attacked_by(board, other.opposite(), d));
                assert(in_check(board, other));
            } else {
                let kingside = choose|kingside: bool| #[trigger]
                    can_castle(board, color, kingside) && m == castling_move(color, kingside);
                assert(!board.occupancy().has(d));
            }
        }
    }
    lemma_side_squares(opponent, t, placed);
    assert(board.opponent_after(m).king@ =~= opponent.king@);
    // the mover's king stays or steps
    let side1 = side.cleared(o);
    let side2 = side1.added(placed);
    lemma_side_squares(side, o, placed);
    lemma_side_squares(side1, o, placed);
    assert(side.count_at(o) <= 1);
    if mover is King {
        assert(side.king.has(o));
        lemma_only_square(side.king, o);
        assert(side2.king@ =~= set![d]);
    } else {
        assert(!side.king.has(o));
        assert(side2.king@ =~= side.king@);
    }
    match board.rook_part(m) {
        Some(rook_move) => {
            let rook = Pieces::Rook(color, rook_move.1);
            let ro = rook_move.0.index();
            let side3 = side2.cleared(ro);
            lemma_side_squares(side2, ro, rook);
            lemma_side_squares(side3, ro, rook);
            assert(side.count_at(ro) <= 1);
            assert(ro != d);
            assert(!side2.king.has(ro));
            assert(side3.added(rook).king@ =~= side2.king@);
        },
        None => {},
    }
    assert(board.side_after(m).king@ == if mover is King {
        set![d]
    } else {
        side.king@
    });
}

/// A legal move of a steady position leads to a steady position with no
/// more pieces.
pub proof fn lemma_steady_step(board: Board, color: Color, m: Move)
    requires
        steady(board, color),
        is_move(board, color, m),
        is_legal(board, color, m),
    ensures
        steady(board.after(m), color.opposite()),
        board.after(m).total() <= board.total(),
{
    lemma_move_applicable(board, color, m);
    lemma_after(board, m);
    lemma_kings_stay(board, color, m);
    lemma_pawns_stay_inside(board, color, m);
}

/// When a game starts, black is not in check.
pub proof fn lemma_initial_steady()
    ensures
        steady(Board::initial(), Color::White),
{
    let board = Board::initial();
    lemma_initial();
    lemma_initial_squares();
    crate::bitboard::lemma_empty();
    assert(board.white.en_passant_target == BitBoard(0));
    assert(board.black.en_passant_target == BitBoard(0)) by {
        crate::bitboard::lemma_same_squares(board.black.en_passant_target, BitBoard(0));
    }
    assert(board.white.king@ =~= set![4int]);
    assert(board.black.king@ =~= set![60int]);
    assert forall|k: int| #[trigger] board.black.king.has(k) implies !attacked_by(
        board,
        Color::White,
        k,
    ) by {
        assert(k == 60);
        assert forall|s: int| !(#[trigger] piece_attacks(board, Color::White, s, 60)) by {
            reveal(on_line);
            let w = board.white;
            if w.pawns.has(s) || w.knights.has(s) || w.king.has(s) || w.rooks.has(s)
                || w.queens.has(s) || w.bishops.has(s) {
                assert(0 <= s < 16);
            }
        }
    }
}

/// Every position of a legal game from the starting position is steady.
pub proof fn lemma_game_steady(moves: Seq<Move>, n: nat)
    requires
        legal_game(Board::initial(), Color::White, moves),
        n <= moves.len(),
    ensures
        steady(position_after(Board::initial(), moves, n), turn(Color::White, n)),
        position_after(Board::initial(), moves, n).total() <= 32,
    decreases n,
{
    if n == 0 {
        lemma_initial_steady();
        lemma_initial();
    } else {
        let before = (n - 1) as nat;
        lemma_game_steady(moves, before);
        let board = position_after(Board::initial(), moves, before);
        assert(is_move(board, turn(Color::White, before), moves[before as int]));
        lemma_steady_step(board, turn(Color::White, before), moves[before as int]);
    }
}

/// In a game of legal moves from the starting position the number of
/// pieces never grows: every position has at most 32 pieces and at least
/// the two kings, and no more pieces than the position before it.
pub proof fn lemma_piece_count(moves: Seq<Move>, n: nat)
    requires
        legal_game(Board::initial(), Color::White, moves),
        n <= moves.len(),
    ensures
        2 <= position_after(Board::initial(), moves, n).total() <= 32,
        n > 0 ==> position_after(Board::initial(), moves, n).total() <= position_after(
            Board::initial(),
            moves,
            (n - 1) as nat,
        ).total(),
{
    lemma_game_steady(moves, n);
    if n > 0 {
        let before = (n - 1) as nat;
        lemma_game_steady(moves, before);
        let board = position_after(Board::initial(), moves, before);
        assert(is_move(board, turn(Color::White, before), moves[before as int]));
        lemma_steady_step(board, turn(Color::White, before), moves[before as int]);
    }
}

} // verus!
