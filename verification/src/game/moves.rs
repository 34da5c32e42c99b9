//! The moves of a position: which squares a side attacks, which moves
//! obey the pieces' ways of moving, and which of those leave the mover's
//! king out of check.
use crate::bitboard::{lemma_same_squares, BitBoard};
use crate::game::pieces::king::{get_king_steps, king_attacks, king_step};
use crate::game::pieces::knight::{get_knight_moves, knight_attacks, knight_step};
use crate::game::pieces::pawn::{forward, get_pawn_moves_and_attacks, pawn_rank, pawn_reaches};
use crate::game::pieces::bishop::get_bishop_sliding_moves;
use crate::game::pieces::queen::get_queen_sliding_moves;
use crate::game::pieces::rook::get_rook_sliding_moves;
use crate::game::pieces::sliding::{
    bishop_sees, diagonal_rays_from, queen_sees, rook_sees, straight_rays,
};
use crate::game::pieces::{file_of, offset, rank_of, shifted, Color, Kind, Pieces};
use crate::game::position::{lemma_index_round_trip, Position};
use crate::game::pieces::{castling_rook_move, pawn_two_step};
use crate::game::{
    lemma_after, lemma_all_pieces, lemma_cleared, lemma_moved, lemma_piece_at, Board, Move,
    Promotion,
};
use vstd::math::abs;
use vstd::prelude::*;

verus! {

/// Whether a pawn of the colour on the square `s` attacks the square `t`:
/// one step diagonally forwards, whatever stands there.
pub open spec fn pawn_attacks(color: Color, s: int, t: int) -> bool {
    &&& 0 <= s < 64
    &&& 0 <= t < 64
    &&& abs(file_of(t) - file_of(s)) == 1
    &&& rank_of(t) - rank_of(s) == forward(color)
}

/// Whether the piece that `by` has on the square `s`, if it has one there,
/// attacks the square `t`.
pub open spec fn piece_attacks(board: Board, by: Color, s: int, t: int) -> bool {
    let side = board.side(by);
    let occupancy = board.occupancy();
    ||| side.pawns.has(s) && pawn_attacks(by, s, t)
    ||| side.knights.has(s) && knight_step(s, t)
    ||| side.king.has(s) && king_step(s, t)
    ||| (side.rooks.has(s) || side.queens.has(s)) && rook_sees(occupancy, s, t)
    ||| (side.bishops.has(s) || side.queens.has(s)) && bishop_sees(occupancy, s, t)
}

/// Whether a piece of `by` attacks the square `t`.
pub open spec fn attacked_by(board: Board, by: Color, t: int) -> bool {
    exists|s: int| #[trigger] piece_attacks(board, by, s, t)
}

/// Whether the king of the colour stands on a square that the other side
/// attacks.
pub open spec fn in_check(board: Board, color: Color) -> bool {
    exists|k: int| #[trigger]
        board.side(color).king.has(k) && attacked_by(board, color.opposite(), k)
}

/// The squares that the pieces of `by` attack.
pub fn attacks(board: &Board, by: Color) -> (r: BitBoard)
    ensures
        forall|t: int| #[trigger] r.has(t) == attacked_by(*board, by, t),
{
    let side = board.get_side(by);
    let all_pieces = board.white.pieces | board.black.pieces;
    let up: i8 = if by.is_white() {
        1
    } else {
        -1
    };
    let east = offset(side.pawns, 1, up);
    let west = offset(side.pawns, -1, up);
    let knights = knight_attacks(side.knights);
    let king = king_attacks(side.king);
    let rooks_queens = side.rooks | side.queens;
    let bishops_queens = side.bishops | side.queens;
    let straight = straight_rays(all_pieces, rooks_queens);
    let diagonal = diagonal_rays_from(all_pieces, bishops_queens);
    let r = east | west | knights | king | straight | diagonal;
    proof {
        let dir = forward(by);
        assert forall|t: int| #[trigger] r.has(t) == attacked_by(*board, by, t) by {
            assert(r@.contains(t) == (east@.contains(t) || west@.contains(t) || knights@.contains(t)
                || king@.contains(t) || straight@.contains(t) || diagonal@.contains(t)));
            assert(east.has(t) == shifted(side.pawns, 1, dir, t));
            assert(west.has(t) == shifted(side.pawns, -1, dir, t));
            if 0 <= t < 64 {
                crate::game::pieces::lemma_offset(t - 8 * dir - 1, t, 1, dir);
                crate::game::pieces::lemma_offset(t - 8 * dir + 1, t, -1, dir);
            }
            if east.has(t) {
                assert(piece_attacks(*board, by, t - 8 * dir - 1, t));
            }
            if west.has(t) {
                assert(piece_attacks(*board, by, t - 8 * dir + 1, t));
            }
            if knights.has(t) {
                let s = choose|s: int| #[trigger] side.knights.has(s) && knight_step(s, t);
                assert(piece_attacks(*board, by, s, t));
            }
            if king.has(t) {
                let s = choose|s: int| #[trigger] side.king.has(s) && king_step(s, t);
                assert(piece_attacks(*board, by, s, t));
            }
            if straight.has(t) {
                let s = choose|s: int| #[trigger]
                    rooks_queens.has(s) && rook_sees(all_pieces, s, t);
                assert(rooks_queens@.contains(s) == (side.rooks@.contains(s)
                    || side.queens@.contains(s)));
                assert(piece_attacks(*board, by, s, t));
            }
            if diagonal.has(t) {
                let s = choose|s: int| #[trigger]
                    bishops_queens.has(s) && bishop_sees(all_pieces, s, t);
                assert(bishops_queens@.contains(s) == (side.bishops@.contains(s)
                    || side.queens@.contains(s)));
                assert(piece_attacks(*board, by, s, t));
            }
            if attacked_by(*board, by, t) {
                let s = choose|s: int| #[trigger] piece_attacks(*board, by, s, t);
                assert(rooks_queens@.contains(s) == (side.rooks@.contains(s)
                    || side.queens@.contains(s)));
                assert(bishops_queens@.contains(s) == (side.bishops@.contains(s)
                    || side.queens@.contains(s)));
                if side.pawns.has(s) && pawn_attacks(by, s, t) {
                    crate::game::pieces::pawn::lemma_pawn_target(s, t);
                    assert(east.has(t) || west.has(t));
                } else if side.knights.has(s) && knight_step(s, t) {
                    assert(knights.has(t));
                } else if side.king.has(s) && king_step(s, t) {
                    assert(king.has(t));
                } else if (side.rooks.has(s) || side.queens.has(s)) && rook_sees(
                    all_pieces,
                    s,
                    t,
                ) {
                    assert(rooks_queens.has(s));
                    assert(straight.has(t));
                } else {
                    assert(bishops_queens.has(s));
                    assert(diagonal.has(t));
                }
            }
        }
    }
    r
}

/// Whether the king of the colour is in check.
pub fn is_in_check(board: &Board, color: Color) -> (b: bool)
    ensures
        b == in_check(*board, color),
{
    let attacked = attacks(board, color.opposite());
    let king = board.get_side(color).king;
    let hit = attacked & king;
    let b = !hit.is_empty();
    proof {
        if b {
            crate::bitboard::lemma_lowest(hit);
            let k = hit.lowest();
            assert(hit@.contains(k) == (attacked@.contains(k) && king@.contains(k)));
            assert(board.side(color).king.has(k) && attacked_by(*board, color.opposite(), k));
        }
        if in_check(*board, color) {
            let k = choose|k: int| #[trigger]
                board.side(color).king.has(k) && attacked_by(*board, color.opposite(), k);
            assert(hit@.contains(k) == (attacked@.contains(k) && king@.contains(k)));
            assert(hit@.contains(k));
        }
    }
    b
}

/// Whether the piece may go to the square `t` by its way of moving: a pawn
/// by a push or a capture, any other piece onto a square that it reaches and
/// that holds none of its own side. Castling is not among these.
pub open spec fn reaches(board: Board, piece: Pieces, t: int) -> bool {
    let s = piece.position().index();
    let own = board.side(piece.color()).pieces;
    let occupancy = board.occupancy();
    match piece {
        Pieces::Pawn(color, _) => pawn_reaches(board, color, s, t),
        Pieces::Rook(_, _) => rook_sees(occupancy, s, t) && !own.has(t),
        Pieces::Knight(_, _) => knight_step(s, t) && !own.has(t),
        Pieces::Bishop(_, _) => bishop_sees(occupancy, s, t) && !own.has(t),
        Pieces::Queen(_, _) => queen_sees(occupancy, s, t) && !own.has(t),
        Pieces::King(_, _) => king_step(s, t) && !own.has(t),
    }
}

/// Whether the squares of `b` are those that the piece may go to.
pub open spec fn is_targets(b: BitBoard, board: Board, piece: Pieces) -> bool {
    forall|t: int| #[trigger] b.has(t) == reaches(board, piece, t)
}

/// The board of the squares that the piece may go to.
pub open spec fn targets(board: Board, piece: Pieces) -> BitBoard {
    choose|b: BitBoard| #[trigger] is_targets(b, board, piece)
}

/// A board that holds the squares that the piece may go to is the board of
/// those squares: there is no other.
pub proof fn lemma_targets(board: Board, piece: Pieces, r: BitBoard)
    requires
        forall|t: int| #[trigger] r.has(t) == reaches(board, piece, t),
    ensures
        r == targets(board, piece),
{
    let b = targets(board, piece);
    assert(is_targets(r, board, piece));
    assert(is_targets(b, board, piece));
    lemma_same_squares(r, b);
}

/// Generates a bitboard with the squares that the piece may go to by its
/// way of moving.
pub fn get_targets(board: &Board, piece: Pieces) -> (r: BitBoard)
    requires
        piece.position().wf(),
    ensures
        r == targets(*board, piece),
        forall|t: int| #[trigger] r.has(t) == reaches(*board, piece, t),
{
    let origin = piece.get_position();
    let color = piece.get_color();
    let square = BitBoard::from_position(origin);
    proof {
        crate::bitboard::lemma_square(origin.index());
    }
    let r = match piece {
        Pieces::Pawn(_, _) => get_pawn_moves_and_attacks(board, color, &square),
        Pieces::Rook(_, _) => get_rook_sliding_moves(board, color, &square),
        Pieces::Knight(_, _) => get_knight_moves(board, color, origin),
        Pieces::Bishop(_, _) => get_bishop_sliding_moves(board, color, &square),
        Pieces::Queen(_, _) => get_queen_sliding_moves(board, color, &square),
        Pieces::King(_, _) => get_king_steps(board, color, origin),
    };
    proof {
        let s = origin.index();
        assert forall|t: int| #[trigger] r.has(t) == reaches(*board, piece, t) by {
            assert(square.has(s));
            match piece {
                Pieces::Pawn(_, _) => {
                    if r.has(t) {
                        let o = choose|o: int| #[trigger]
                            square.has(o) && pawn_reaches(*board, color, o, t);
                        assert(o == s);
                    }
                },
                Pieces::Rook(_, _) => {
                    if r.has(t) {
                        let o = choose|o: int| #[trigger]
                            square.has(o) && rook_sees(board.occupancy(), o, t);
                        assert(o == s);
                    }
                },
                Pieces::Knight(_, _) => {},
                Pieces::Bishop(_, _) => {
                    if r.has(t) {
                        let o = choose|o: int| #[trigger]
                            square.has(o) && bishop_sees(board.occupancy(), o, t);
                        assert(o == s);
                    }
                },
                Pieces::Queen(_, _) => {
                    if r.has(t) {
                        let o = choose|o: int| #[trigger]
                            square.has(o) && queen_sees(board.occupancy(), o, t);
                        assert(o == s);
                    }
                },
                Pieces::King(_, _) => {},
            }
        }
        lemma_targets(*board, piece, r);
    }
    r
}

/// What a piece is promoted to on arriving on the square `t`: a pawn that
/// reaches the first or the eighth rank becomes a queen.
pub open spec fn promotion_for(piece: Pieces, t: int) -> Promotion {
    if piece is Pawn && (rank_of(t) == 0 || rank_of(t) == 7) {
        Promotion::Queen
    } else {
        Promotion::NoPromotion
    }
}

/// Selects the promotion to get based on destination position.
pub fn promote(destination: Position) -> (p: Promotion)
    ensures
        p == if destination.rank_y == 0 || destination.rank_y == 7 {
            Promotion::Queen
        } else {
            Promotion::NoPromotion
        },
{
    if destination.rank_y == 0 || destination.rank_y == 7 {
        Promotion::Queen
    } else {
        Promotion::NoPromotion
    }
}

/// The four moves that a pawn's move onto the last rank stands for, one for
/// each piece that the pawn may become: queen, rook, bishop, knight. The
/// engine itself always takes the first.
pub fn promotion_choices(m: Move) -> (moves: Vec<Move>)
    ensures
        moves@ == seq![
            Move(m.0, m.1, Promotion::Queen),
            Move(m.0, m.1, Promotion::Rook),
            Move(m.0, m.1, Promotion::Bishop),
            Move(m.0, m.1, Promotion::Knight),
        ],
{
    let mut moves: Vec<Move> = Vec::new();
    moves.push(m.with_promotion(Promotion::Queen));
    moves.push(m.with_promotion(Promotion::Rook));
    moves.push(m.with_promotion(Promotion::Bishop));
    moves.push(m.with_promotion(Promotion::Knight));
    assert(moves@ =~= seq![
        Move(m.0, m.1, Promotion::Queen),
        Move(m.0, m.1, Promotion::Rook),
        Move(m.0, m.1, Promotion::Bishop),
        Move(m.0, m.1, Promotion::Knight),
    ]);
    moves
}

/// The moves of one piece, by ascending index of the destination.
pub open spec fn piece_moves(board: Board, piece: Pieces) -> Seq<Move> {
    let squares = targets(board, piece).squares();
    Seq::new(
        squares.len(),
        |n: int|
            Move(piece.position(), Position::at(squares[n]), promotion_for(piece, squares[n])),
    )
}

/// Whether the move is one that a piece of the colour makes by its way of
/// moving.
pub open spec fn is_step(board: Board, color: Color, m: Move) -> bool {
    exists|kind: Kind| #[trigger]
        is_step_of(board, color, kind, m)
}

/// Whether the move is one that a piece of the colour and of the given kind
/// makes by its way of moving.
pub open spec fn is_step_of(board: Board, color: Color, kind: Kind, m: Move) -> bool {
    let piece = kind.piece(color, m.0);
    &&& m.wf()
    &&& board.side(color).board(kind).has(m.0.index())
    &&& reaches(board, piece, m.1.index())
    &&& m.2 == promotion_for(piece, m.1.index())
}

/// Adds the moves of one piece to a list.
pub fn add_piece_moves(board: &Board, color: Color, kind: Kind, origin: Position, moves: &mut Vec<Move>)
    requires
        origin.wf(),
        board.side(color).board(kind).has(origin.index()),
        forall|n: int| 0 <= n < old(moves)@.len() ==> is_move(*board, color, #[trigger] old(moves)@[n]),
    ensures
        final(moves)@ == old(moves)@ + piece_moves(*board, kind.piece(color, origin)),
        final(moves)@.len() <= old(moves)@.len() + 64,
        forall|n: int| 0 <= n < final(moves)@.len() ==> is_move(*board, color, #[trigger] final(moves)@[n]),
{
    let piece = kind.piece(color, origin);
    let destinations = get_targets(board, piece).to_positions();
    proof {
        crate::bitboard::lemma_finite(targets(*board, piece));
    }
    let ghost start = moves@;
    let ghost all = piece_moves(*board, piece);
    let ghost squares = targets(*board, piece).squares();
    let mut n: usize = 0;
    while n < destinations.len()
        invariant
            n <= destinations@.len(),
            origin.wf(),
            piece == kind.piece(color, origin),
            board.side(color).board(kind).has(origin.index()),
            destinations@ == targets(*board, piece).positions(),
            squares == targets(*board, piece).squares(),
            all == piece_moves(*board, piece),
            forall|k: int|
                0 <= k < destinations@.len() ==> (#[trigger] destinations@[k]).wf() && targets(
                    *board,
                    piece,
                ).has(destinations@[k].index()),
            forall|t: int| #[trigger] targets(*board, piece).has(t) == reaches(*board, piece, t),
            moves@ == start + all.subrange(0, n as int),
            destinations@.len() <= 64,
            all.len() == destinations@.len(),
            forall|k: int| 0 <= k < moves@.len() ==> is_move(*board, color, #[trigger] moves@[k]),
        decreases destinations@.len() - n,
    {
        let destination = destinations[n];
        let promotion = if piece.is_pawn() {
            promote(destination)
        } else {
            Promotion::NoPromotion
        };
        let m = Move(origin, destination, promotion);
        proof {
            crate::bitboard::lemma_squares_member(targets(*board, piece), n as int);
            lemma_index_round_trip(destination, squares[n as int]);
            assert(destination.index() == squares[n as int]);
            assert(m == all[n as int]);
            assert(is_step_of(*board, color, kind, m));
            assert(is_step(*board, color, m));
        }
        moves.push(m);
        proof {
            assert(moves@ =~= start + all.subrange(0, n as int + 1));
        }
        n = n + 1;
    }
    proof {
        assert(all.subrange(0, n as int) =~= all);
    }
}

/// The moves of the first `k` pieces of one kind, by ascending index of the
/// piece's square.
pub open spec fn kind_moves_upto(board: Board, color: Color, kind: Kind, k: nat) -> Seq<Move>
    decreases k,
{
    if k == 0 {
        Seq::empty()
    } else {
        kind_moves_upto(board, color, kind, (k - 1) as nat) + piece_moves(
            board,
            kind.piece(color, Position::at(board.side(color).board(kind).squares()[k - 1])),
        )
    }
}

/// The moves of all pieces of one kind.
pub open spec fn kind_moves(board: Board, color: Color, kind: Kind) -> Seq<Move> {
    kind_moves_upto(board, color, kind, board.side(color).board(kind).squares().len())
}

/// Adds the moves of all pieces of one kind to a list.
pub fn add_kind_moves(board: &Board, color: Color, kind: Kind, moves: &mut Vec<Move>)
    requires
        forall|n: int| 0 <= n < old(moves)@.len() ==> is_move(*board, color, #[trigger] old(moves)@[n]),
    ensures
        final(moves)@ == old(moves)@ + kind_moves(*board, color, kind),
        final(moves)@.len() <= old(moves)@.len() + 4096,
        forall|n: int| 0 <= n < final(moves)@.len() ==> is_move(*board, color, #[trigger] final(moves)@[n]),
{
    let origins = board.get_side(color).board(kind).to_positions();
    proof {
        crate::bitboard::lemma_finite(board.side(color).board(kind));
    }
    let ghost start = moves@;
    let ghost pieces = board.side(color).board(kind);
    let mut k: usize = 0;
    while k < origins.len()
        invariant
            k <= origins@.len(),
            pieces == board.side(color).board(kind),
            origins@ == pieces.positions(),
            forall|n: int|
                0 <= n < origins@.len() ==> (#[trigger] origins@[n]).wf() && pieces.has(
                    origins@[n].index(),
                ),
            moves@ == start + kind_moves_upto(*board, color, kind, k as nat),
            origins@.len() <= 64,
            moves@.len() <= start.len() + 64 * k,
            forall|n: int| 0 <= n < moves@.len() ==> is_move(*board, color, #[trigger] moves@[n]),
        decreases origins@.len() - k,
    {
        let origin = origins[k];
        proof {
            crate::bitboard::lemma_squares_member(pieces, k as int);
            lemma_index_round_trip(origin, pieces.squares()[k as int]);
        }
        add_piece_moves(board, color, kind, origin, moves);
        k = k + 1;
    }
}

/// The moves that the pieces of the colour make by their ways of moving:
/// those of the pawns first, then of the rooks, knights, bishops, queens and
/// king.
pub open spec fn steps(board: Board, color: Color) -> Seq<Move> {
    kind_moves(board, color, Kind::Pawn) + kind_moves(board, color, Kind::Rook) + kind_moves(
        board,
        color,
        Kind::Knight,
    ) + kind_moves(board, color, Kind::Bishop) + kind_moves(board, color, Kind::Queen)
        + kind_moves(board, color, Kind::King)
}

/// The first rank of the colour, counted from 0.
pub open spec fn home_rank(color: Color) -> int {
    match color {
        Color::White => 0,
        Color::Black => 7,
    }
}

/// The king's move of a castling: from the e-file to the g-file on the
/// king's side, to the c-file on the queen's side.
pub open spec fn castling_move(color: Color, kingside: bool) -> Move {
    Move(
        Position { file_x: 4, rank_y: home_rank(color) as u8 },
        Position {
            file_x: if kingside {
                6
            } else {
                2
            },
            rank_y: home_rank(color) as u8,
        },
        Promotion::NoPromotion,
    )
}

/// Whether the colour may castle on the given side: king and rook have not
/// moved and stand on their squares, the squares between them are empty,
/// and the king is not in check, does not pass over an attacked square and
/// does not land on one.
pub open spec fn can_castle(board: Board, color: Color, kingside: bool) -> bool {
    let side = board.side(color);
    let occupancy = board.occupancy();
    let other = color.opposite();
    let home = 8 * home_rank(color);
    &&& !side.king_has_moved
    &&& side.king.has(home + 4)
    &&& !attacked_by(board, other, home + 4)
    &&& if kingside {
        &&& side.rooks.has(home + 7)
        &&& side.unmoved_rooks.has(home + 7)
        &&& !occupancy.has(home + 5)
        &&& !occupancy.has(home + 6)
        &&& !attacked_by(board, other, home + 5)
        &&& !attacked_by(board, other, home + 6)
    } else {
        &&& side.rooks.has(home)
        &&& side.unmoved_rooks.has(home)
        &&& !occupancy.has(home + 1)
        &&& !occupancy.has(home + 2)
        &&& !occupancy.has(home + 3)
        &&& !attacked_by(board, other, home + 3)
        &&& !attacked_by(board, other, home + 2)
    }
}

/// The castlings that the colour may make: on the king's side first.
pub open spec fn castlings(board: Board, color: Color) -> Seq<Move> {
    (if can_castle(board, color, true) {
        seq![castling_move(color, true)]
    } else {
        Seq::empty()
    }) + (if can_castle(board, color, false) {
        seq![castling_move(color, false)]
    } else {
        Seq::empty()
    })
}

/// Whether the move is a castling that the colour may make.
pub open spec fn is_castling(board: Board, color: Color, m: Move) -> bool {
    exists|kingside: bool| #[trigger]
        can_castle(board, color, kingside) && m == castling_move(color, kingside)
}

/// Whether the move is one that the colour may make, before asking whether
/// it leaves the king in check.
pub open spec fn is_move(board: Board, color: Color, m: Move) -> bool {
    is_step(board, color, m) || is_castling(board, color, m)
}

/// Whether the colour may castle on the given side.
pub fn may_castle(board: &Board, color: Color, kingside: bool) -> (b: bool)
    ensures
        b == can_castle(*board, color, kingside),
{
    let side = board.get_side(color);
    let rank: u8 = if color.is_white() {
        0
    } else {
        7
    };
    let king = Position { file_x: 4, rank_y: rank };
    if side.king_has_moved || !side.king.contains(king) {
        return false;
    }
    let occupancy = board.get_bitboard();
    let attacked = attacks(board, color.opposite());
    if attacked.contains(king) {
        return false;
    }
    if kingside {
        let rook = Position { file_x: 7, rank_y: rank };
        let pass = Position { file_x: 5, rank_y: rank };
        let land = Position { file_x: 6, rank_y: rank };
        side.rooks.contains(rook) && side.unmoved_rooks.contains(rook) && !occupancy.contains(pass)
            && !occupancy.contains(land) && !attacked.contains(pass) && !attacked.contains(land)
    } else {
        let rook = Position { file_x: 0, rank_y: rank };
        let knight = Position { file_x: 1, rank_y: rank };
        let land = Position { file_x: 2, rank_y: rank };
        let pass = Position { file_x: 3, rank_y: rank };
        side.rooks.contains(rook) && side.unmoved_rooks.contains(rook) && !occupancy.contains(
            knight,
        ) && !occupancy.contains(land) && !occupancy.contains(pass) && !attacked.contains(pass)
            && !attacked.contains(land)
    }
}

/// The moves that the colour may make, before asking whether they leave
/// its king in check: the pieces' moves, then the castlings.
pub open spec fn pseudo_legal_moves(board: Board, color: Color) -> Seq<Move> {
    steps(board, color) + castlings(board, color)
}

/// Lists the moves that the colour may make, before asking whether they
/// leave its king in check.
pub fn generate_moves(board: &Board, color: Color) -> (moves: Vec<Move>)
    ensures
        moves@ == pseudo_legal_moves(*board, color),
        moves@.len() <= 24578,
        forall|n: int| 0 <= n < moves@.len() ==> is_move(*board, color, #[trigger] moves@[n]),
{
    let mut moves: Vec<Move> = Vec::new();
    add_kind_moves(board, color, Kind::Pawn, &mut moves);
    add_kind_moves(board, color, Kind::Rook, &mut moves);
    add_kind_moves(board, color, Kind::Knight, &mut moves);
    add_kind_moves(board, color, Kind::Bishop, &mut moves);
    add_kind_moves(board, color, Kind::Queen, &mut moves);
    add_kind_moves(board, color, Kind::King, &mut moves);
    assert(moves@ =~= steps(*board, color));
    let rank: u8 = if color.is_white() {
        0
    } else {
        7
    };
    let king = Position { file_x: 4, rank_y: rank };
    if may_castle(board, color, true) {
        let m = Move(king, Position { file_x: 6, rank_y: rank }, Promotion::NoPromotion);
        assert(can_castle(*board, color, true) && m == castling_move(color, true));
        assert(is_castling(*board, color, m));
        moves.push(m);
    }
    if may_castle(board, color, false) {
        let m = Move(king, Position { file_x: 2, rank_y: rank }, Promotion::NoPromotion);
        assert(can_castle(*board, color, false) && m == castling_move(color, false));
        assert(is_castling(*board, color, m));
        moves.push(m);
    }
    assert(moves@ =~= pseudo_legal_moves(*board, color));
    moves
}

/// Whether the square that the colour left open to a capture in passing, if
/// it left one, is what a pawn's two-step leaves behind: an empty square on
/// the rank next to the pawns' starting rank, with the colour's pawn in
/// front of it.
pub open spec fn side_sound(board: Board, color: Color) -> bool {
    let side = board.side(color);
    side.en_passant_target != BitBoard(0) ==> exists|t: int| #[trigger]
        is_open_square(board, color, t)
}

/// Whether the square `t` is the one that the colour left open to a capture
/// in passing, behind a pawn that made its two-step.
pub open spec fn is_open_square(board: Board, color: Color, t: int) -> bool {
    let side = board.side(color);
    &&& 0 <= t < 64
    &&& side.en_passant_target == BitBoard::square(t)
    &&& rank_of(t) == pawn_rank(color) + forward(color)
    &&& !board.occupancy().has(t)
    &&& side.pawns.has(t + 8 * forward(color))
}

/// Whether the squares open to a capture in passing are what pawns'
/// two-steps leave behind. A game that starts from the default position and
/// goes on by the moves that this module lists stays so.
pub open spec fn sound(board: Board) -> bool {
    side_sound(board, Color::White) && side_sound(board, Color::Black)
}

/// Whether the squares open to a capture in passing are what pawns'
/// two-steps leave behind.
pub fn is_sound(board: &Board) -> (b: bool)
    requires
        board.wf(),
    ensures
        b == sound(*board),
{
    is_side_sound(board, Color::White) && is_side_sound(board, Color::Black)
}

/// Whether the square that the colour left open to a capture in passing is
/// what a pawn's two-step leaves behind.
pub fn is_side_sound(board: &Board, color: Color) -> (b: bool)
    requires
        board.wf(),
    ensures
        b == side_sound(*board, color),
{
    let side = board.get_side(color);
    if side.en_passant_target.is_empty() {
        return true;
    }
    let target = side.en_passant_target.to_position();
    let ghost t = target.index();
    let (rank, pawn_rank): (u8, u8) = if color.is_white() {
        (2, 3)
    } else {
        (5, 4)
    };
    proof {
        let known = choose|k: int| 0 <= k < 64 && side.en_passant_target == BitBoard::square(k);
        crate::bitboard::lemma_square(known);
        assert(t == known);
        if exists|x: int| #[trigger] is_open_square(*board, color, x) {
            let x = choose|x: int| #[trigger] is_open_square(*board, color, x);
            crate::bitboard::lemma_square(x);
            assert(BitBoard::square(x).has(x));
            assert(x == t);
        }
    }
    if target.rank_y != rank {
        return false;
    }
    let pawn = Position { file_x: target.file_x, rank_y: pawn_rank };
    let b = !board.get_bitboard().contains(target) && side.pawns.contains(pawn);
    proof {
        assert(pawn.index() == t + 8 * forward(color));
        if b {
            assert(is_open_square(*board, color, t));
        }
    }
    b
}

/// On a board whose squares open to a capture in passing are sound, every
/// listed move can be applied: it moves a piece of the colour, takes none
/// of its own, and leaves a board that is sound again.
pub proof fn lemma_move_applicable(board: Board, color: Color, m: Move)
    requires
        board.wf(),
        sound(board),
        is_move(board, color, m),
    ensures
        m.wf(),
        board.can_apply(m),
        board.mover(m).color() == color,
        board.after(m).wf(),
        sound(board.after(m)),
{
    if is_step(board, color, m) {
        let kind = choose|kind: Kind| #[trigger] is_step_of(board, color, kind, m);
        lemma_step_applicable(board, color, kind, m);
    } else {
        let kingside = choose|kingside: bool| #[trigger]
            can_castle(board, color, kingside) && m == castling_move(color, kingside);
        lemma_castling_applicable(board, color, kingside);
    }
    lemma_after(board, m);
}

/// A castling that may be made can be applied, and leaves no square open to
/// a capture in passing.
pub proof fn lemma_castling_applicable(board: Board, color: Color, kingside: bool)
    requires
        board.wf(),
        can_castle(board, color, kingside),
    ensures
        castling_move(color, kingside).wf(),
        board.can_apply(castling_move(color, kingside)),
        board.mover(castling_move(color, kingside)) == Pieces::King(
            color,
            castling_move(color, kingside).0,
        ),
        sound(board.after(castling_move(color, kingside))),
{
    let m = castling_move(color, kingside);
    let rook_move = castling_rook_move(m)->0;
    lemma_piece_at(board, m.0);
    lemma_piece_at(board, m.1);
    lemma_piece_at(board, rook_move.0);
    lemma_piece_at(board, rook_move.1);
    assert(board.side(color).board(Kind::King).has(m.0.index()));
    assert(board.piece_at(m.0) == Some(Kind::King.piece(color, m.0)));
    assert(!board.in_passing(m));
    let after = board.after(m);
    assert(after.side(color).en_passant_target == BitBoard(0));
    assert(after.side(color.opposite()).en_passant_target == BitBoard(0));
}

/// A move that a piece makes by its way of moving can be applied on a sound
/// board, and leaves a sound board.
pub proof fn lemma_step_applicable(board: Board, color: Color, kind: Kind, m: Move)
    requires
        board.wf(),
        sound(board),
        is_step_of(board, color, kind, m),
    ensures
        board.can_apply(m),
        board.mover(m) == kind.piece(color, m.0),
        sound(board.after(m)),
{
    let piece = kind.piece(color, m.0);
    let side = board.side(color);
    let other = color.opposite();
    let opponent = board.side(other);
    let o = m.0.index();
    let d = m.1.index();
    lemma_piece_at(board, m.0);
    lemma_piece_at(board, m.1);
    assert(board.side(color).board(kind).has(o));
    assert(board.piece_at(m.0) == Some(piece));
    crate::bitboard::lemma_set_algebra(opponent.pieces, opponent.en_passant_target);
    crate::bitboard::lemma_set_algebra(board.white.pieces, board.black.pieces);
    crate::bitboard::lemma_empty();
    crate::bitboard::lemma_square(d);
    // the square that the other side left open, if the move goes there
    if opponent.en_passant_target.has(d) {
        assert(opponent.en_passant_target != BitBoard(0));
        let t = choose|t: int| #[trigger] is_open_square(board, other, t);
        crate::bitboard::lemma_square(t);
        assert(t == d);
        let behind = m.1.ahead(other, 1);
        lemma_index_round_trip(behind, 0);
        assert(behind.index() == d + 8 * forward(other));
        lemma_piece_at(board, behind);
        assert(opponent.board(Kind::Pawn).has(behind.index()));
        assert(board.piece_at(behind) == Some(Kind::Pawn.piece(other, behind)));
    }
    if board.in_passing(m) {
        assert(BitBoard::square(d).has(d));
        assert(opponent.en_passant_target.has(d));
    }
    assert(!side.pieces.has(d)) by {
        if kind == Kind::Pawn {
            assert(pawn_reaches(board, color, o, d));
        }
    }
    assert(castling_rook_move(m) is Some ==> !(piece is King)) by {
        if piece is King {
            assert(king_step(o, d));
            assert(o == 8 * m.0.rank_y + m.0.file_x);
            assert(d == 8 * m.1.rank_y + m.1.file_x);
        }
    }
    assert(board.can_apply(m));
    lemma_step_sound(board, color, kind, m);
}

/// A move that a piece makes by its way of moving leaves a sound board.
pub proof fn lemma_step_sound(board: Board, color: Color, kind: Kind, m: Move)
    requires
        board.wf(),
        is_step_of(board, color, kind, m),
        board.can_apply(m),
        board.mover(m) == kind.piece(color, m.0),
    ensures
        sound(board.after(m)),
{
    let piece = kind.piece(color, m.0);
    let side = board.side(color);
    let other = color.opposite();
    let opponent = board.side(other);
    let o = m.0.index();
    let d = m.1.index();
    let after = board.after(m);
    assert(after.side(other).en_passant_target == BitBoard(0));
    if piece is Pawn && pawn_two_step(m) {
        let behind = m.1.ahead(other, 1);
        let t = behind.index();
        lemma_index_round_trip(behind, 0);
        assert(pawn_reaches(board, color, o, d));
        assert(o == 8 * m.0.rank_y + m.0.file_x);
        assert(d == 8 * m.1.rank_y + m.1.file_x);
        assert(rank_of(d) - rank_of(o) == 2 * forward(color));
        assert(t == o + 8 * forward(color));
        assert(!board.occupancy().has(t));
        assert(board.placed(m) == Pieces::Pawn(color, m.1));
        assert(board.rook_part(m) is None);
        lemma_all_pieces(side);
        assert(d == o || !side.pieces.has(d)) by {
            crate::bitboard::lemma_set_algebra(board.white.pieces, board.black.pieces);
        }
        lemma_moved(side, o, board.placed(m));
        lemma_cleared(opponent, board.capture_square(m).index());
        crate::bitboard::lemma_set_algebra(board.white.pieces, board.black.pieces);
        crate::bitboard::lemma_set_algebra(after.white.pieces, after.black.pieces);
        assert(after.side(color).pawns.has(d));
        assert(!after.occupancy().has(t));
        assert(is_open_square(after, color, t));
    } else {
        assert(after.side(color).en_passant_target == BitBoard(0));
    }
}

} // verus!
