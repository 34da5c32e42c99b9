//! Pieces, colours and the constant lines of the board.
use crate::bitboard::BitBoard;
use crate::bits::{anti_diagonal_word, diagonal_word, file_word, lemma_line_bits, rank_word};
use crate::game::position::Position;
use crate::game::{Move, Promotion};
use vstd::prelude::*;

pub mod bishop;
pub mod king;
pub mod knight;
pub mod pawn;
pub mod queen;
pub mod rook;
pub mod sliding;

verus! {

/// The A file.
pub const FILE_A: u64 = 0x0101_0101_0101_0101;

/// The B file
pub const FILE_B: u64 = FILE_A << 1;

/// The C file
pub const FILE_C: u64 = FILE_A << 2;

/// The D file
pub const FILE_D: u64 = FILE_A << 3;

/// The E file
pub const FILE_E: u64 = FILE_A << 4;

/// The F file
pub const FILE_F: u64 = FILE_A << 5;

/// The G file
pub const FILE_G: u64 = FILE_A << 6;

/// The H file
pub const FILE_H: u64 = FILE_A << 7;

/// The 1st rank
pub const RANK_1: u64 = 0xFF;

/// The 2nd rank
pub const RANK_2: u64 = RANK_1 << 8;

/// The 3rd rank
pub const RANK_3: u64 = RANK_1 << 16;

/// The 4th rank
pub const RANK_4: u64 = RANK_1 << 24;

/// The 5th rank
pub const RANK_5: u64 = RANK_1 << 32;

/// The 6th rank
pub const RANK_6: u64 = RANK_1 << 40;

/// The 7th rank
pub const RANK_7: u64 = RANK_1 << 48;

/// The 8th rank
pub const RANK_8: u64 = RANK_1 << 56;

/// The a1-h8 diagonal.
pub const MAIN_DIAGONAL: u64 = 0x8040_2010_0804_0201;

/// The a8-h1 diagonal.
pub const ANTI_DIAGONAL: u64 = 0x0102_0408_1020_4080;

/// The file of the square with index `i`, 0 to 7.
pub open spec fn file_of(i: int) -> int {
    i % 8
}

/// The rank of the square with index `i`, 0 to 7.
pub open spec fn rank_of(i: int) -> int {
    i / 8
}

/// The squares of one file, counted from 0 (the a-file).
pub fn file_mask(f: u8) -> (b: BitBoard)
    requires
        f < 8,
    ensures
        b == BitBoard(file_word(f as u64)),
        forall|i: int| #[trigger] b.has(i) == (0 <= i < 64 && file_of(i) == f),
{
    let b = BitBoard(FILE_A << f);
    proof {
        assert forall|i: int| #[trigger] b.has(i) == (0 <= i < 64 && file_of(i) == f) by {
            if 0 <= i < 64 {
                lemma_line_bits(f as u64, i as u64);
            }
        }
    }
    b
}

/// The squares of one rank, counted from 0 (the first rank).
pub fn rank_mask(r: u8) -> (b: BitBoard)
    requires
        r < 8,
    ensures
        b == BitBoard(rank_word(r as u64)),
        forall|i: int| #[trigger] b.has(i) == (0 <= i < 64 && rank_of(i) == r),
{
    let b = BitBoard(RANK_1 << (8 * r));
    proof {
        assert forall|i: int| #[trigger] b.has(i) == (0 <= i < 64 && rank_of(i) == r) by {
            if 0 <= i < 64 {
                lemma_line_bits(r as u64, i as u64);
            }
        }
    }
    b
}

/// One of the 15 diagonals that run parallel to a1-h8: the one with index
/// `7 + rank - file`.
pub fn diagonal_mask(d: u8) -> (b: BitBoard)
    requires
        d < 15,
    ensures
        b == BitBoard(diagonal_word(d as u64)),
        forall|i: int| #[trigger] b.has(i) == (0 <= i < 64 && 7 + rank_of(i) - file_of(i) == d),
{
    let b = if d >= 7 {
        BitBoard(MAIN_DIAGONAL << (8 * (d - 7)))
    } else {
        BitBoard(MAIN_DIAGONAL >> (8 * (7 - d)))
    };
    proof {
        assert forall|i: int| #[trigger]
            b.has(i) == (0 <= i < 64 && 7 + rank_of(i) - file_of(i) == d) by {
            if 0 <= i < 64 {
                lemma_line_bits(d as u64, i as u64);
            }
        }
    }
    b
}

/// One of the 15 diagonals that run parallel to a8-h1: the one with index
/// `rank + file`.
pub fn anti_diagonal_mask(d: u8) -> (b: BitBoard)
    requires
        d < 15,
    ensures
        b == BitBoard(anti_diagonal_word(d as u64)),
        forall|i: int| #[trigger] b.has(i) == (0 <= i < 64 && rank_of(i) + file_of(i) == d),
{
    let b = if d >= 7 {
        BitBoard(ANTI_DIAGONAL << (8 * (d - 7)))
    } else {
        BitBoard(ANTI_DIAGONAL >> (8 * (7 - d)))
    };
    proof {
        assert forall|i: int| #[trigger]
            b.has(i) == (0 <= i < 64 && rank_of(i) + file_of(i) == d) by {
            if 0 <= i < 64 {
                lemma_line_bits(d as u64, i as u64);
            }
        }
    }
    b
}

/// The diagonal parallel to a1-h8 that runs through the square.
pub fn diagonal_through(position: Position) -> (b: BitBoard)
    requires
        position.wf(),
    ensures
        forall|i: int| #[trigger]
            b.has(i) == (0 <= i < 64 && rank_of(i) - file_of(i) == position.rank_y
                - position.file_x),
{
    diagonal_mask(7 + position.rank_y - position.file_x)
}

/// The diagonal parallel to a8-h1 that runs through the square.
pub fn anti_diagonal_through(position: Position) -> (b: BitBoard)
    requires
        position.wf(),
    ensures
        forall|i: int| #[trigger]
            b.has(i) == (0 <= i < 64 && rank_of(i) + file_of(i) == position.rank_y
                + position.file_x),
{
    anti_diagonal_mask(position.rank_y + position.file_x)
}

/// Whether the square `t` is what a square of `board` becomes when it moves
/// `df` files and `dr` ranks; a square that would leave the board becomes
/// none.
pub open spec fn shifted(board: BitBoard, df: int, dr: int, t: int) -> bool {
    &&& 0 <= t < 64
    &&& 0 <= file_of(t) - df < 8
    &&& 0 <= rank_of(t) - dr < 8
    &&& board.has(t - 8 * dr - df)
}

/// Moves every square of a board by `df` files and `dr` ranks. The squares
/// that would leave the board by a side are masked out before the shift,
/// those that leave it at the top or the bottom fall off the word.
pub fn offset(board: BitBoard, df: i8, dr: i8) -> (r: BitBoard)
    requires
        -2 <= df <= 2,
        -2 <= dr <= 2,
    ensures
        forall|t: int| #[trigger] r.has(t) == shifted(board, df as int, dr as int, t),
{
    let a = file_mask(0);
    let b = file_mask(1);
    let g = file_mask(6);
    let h = file_mask(7);
    let gh = g | h;
    let ab = a | b;
    let keep = if df == 2 {
        gh.inverse()
    } else if df == 1 {
        h.inverse()
    } else if df == 0 {
        BitBoard::empty().inverse()
    } else if df == -1 {
        a.inverse()
    } else {
        ab.inverse()
    };
    let masked = board & keep;
    let n: i8 = 8 * dr + df;
    let r = if n >= 0 {
        masked << (n as u8)
    } else {
        masked >> ((-n) as u8)
    };
    proof {
        assert forall|i: int| 0 <= i < 64 implies #[trigger] keep.has(i) == (0 <= file_of(i) + df
            < 8) by {
            assert(gh@.contains(i) == (g@.contains(i) || h@.contains(i)));
            assert(ab@.contains(i) == (a@.contains(i) || b@.contains(i)));
            assert(g.has(i) == (file_of(i) == 6));
            assert(h.has(i) == (file_of(i) == 7));
            assert(a.has(i) == (file_of(i) == 0));
            assert(b.has(i) == (file_of(i) == 1));
        }
        crate::bitboard::lemma_shift(masked, if n >= 0 {
            n as u8
        } else {
            (-n) as u8
        });
        assert forall|t: int| #[trigger] r.has(t) == shifted(board, df as int, dr as int, t) by {
            let s = t - n;
            assert(r.has(t) == (0 <= t < 64 && masked.has(s)));
            assert(masked@.contains(s) == (board@.contains(s) && keep@.contains(s)));
            if 0 <= t < 64 {
                lemma_offset(s, t, df as int, dr as int);
            }
        }
    }
    r
}

/// A square moved by `df` files and `dr` ranks has the index moved by
/// `8 * dr + df`, as long as it stays on the board.
pub proof fn lemma_offset(s: int, t: int, df: int, dr: int)
    requires
        0 <= t < 64,
        t == s + 8 * dr + df,
        -8 < df < 8,
    ensures
        (0 <= s < 64 && 0 <= file_of(s) + df < 8) == (0 <= file_of(t) - df < 8 && 0 <= rank_of(t)
            - dr < 8),
        0 <= s < 64 && 0 <= file_of(s) + df < 8 ==> file_of(t) == file_of(s) + df && rank_of(t)
            == rank_of(s) + dr,
{
    if 0 <= s < 64 && 0 <= file_of(s) + df < 8 {
        vstd::arithmetic::div_mod::lemma_fundamental_div_mod_converse(
            t,
            8,
            rank_of(s) + dr,
            file_of(s) + df,
        );
    }
    if 0 <= file_of(t) - df < 8 && 0 <= rank_of(t) - dr < 8 {
        vstd::arithmetic::div_mod::lemma_fundamental_div_mod_converse(
            s,
            8,
            rank_of(t) - dr,
            file_of(t) - df,
        );
    }
}

/// The six kinds of pieces.
#[derive(Debug, Clone, Copy, Eq, PartialEq, Structural)]
pub enum Kind {
    Pawn,
    Rook,
    Knight,
    Bishop,
    Queen,
    King,
}

impl Kind {
    /// The piece of this kind with the given colour on the given square.
    pub open spec fn spec_piece(self, color: Color, position: Position) -> Pieces {
        match self {
            Kind::Pawn => Pieces::Pawn(color, position),
            Kind::Rook => Pieces::Rook(color, position),
            Kind::Knight => Pieces::Knight(color, position),
            Kind::Bishop => Pieces::Bishop(color, position),
            Kind::Queen => Pieces::Queen(color, position),
            Kind::King => Pieces::King(color, position),
        }
    }

    /// The piece of this kind with the given colour on the given square.
    #[verifier::when_used_as_spec(spec_piece)]
    pub fn piece(self, color: Color, position: Position) -> (p: Pieces)
        ensures
            p == self.spec_piece(color, position),
    {
        match self {
            Kind::Pawn => Pieces::Pawn(color, position),
            Kind::Rook => Pieces::Rook(color, position),
            Kind::Knight => Pieces::Knight(color, position),
            Kind::Bishop => Pieces::Bishop(color, position),
            Kind::Queen => Pieces::Queen(color, position),
            Kind::King => Pieces::King(color, position),
        }
    }
}

/// A chess piece.
#[derive(Debug, Clone, Copy, Eq, PartialEq, Structural)]
pub enum Pieces {
    Pawn(Color, Position),
    Rook(Color, Position),
    Knight(Color, Position),
    Bishop(Color, Position),
    Queen(Color, Position),
    King(Color, Position),
}

impl Pieces {
    /// The colour of the piece.
    pub open spec fn color(&self) -> Color {
        match self {
            Pieces::Pawn(color, _) => *color,
            Pieces::Rook(color, _) => *color,
            Pieces::Knight(color, _) => *color,
            Pieces::Bishop(color, _) => *color,
            Pieces::Queen(color, _) => *color,
            Pieces::King(color, _) => *color,
        }
    }

    /// The square of the piece.
    pub open spec fn position(&self) -> Position {
        match self {
            Pieces::Pawn(_, position) => *position,
            Pieces::Rook(_, position) => *position,
            Pieces::Knight(_, position) => *position,
            Pieces::Bishop(_, position) => *position,
            Pieces::Queen(_, position) => *position,
            Pieces::King(_, position) => *position,
        }
    }

    /// The kind of the piece.
    pub open spec fn kind(&self) -> Kind {
        match self {
            Pieces::Pawn(_, _) => Kind::Pawn,
            Pieces::Rook(_, _) => Kind::Rook,
            Pieces::Knight(_, _) => Kind::Knight,
            Pieces::Bishop(_, _) => Kind::Bishop,
            Pieces::Queen(_, _) => Kind::Queen,
            Pieces::King(_, _) => Kind::King,
        }
    }

    /// What the piece is worth: pawn 1, knight and bishop 3, rook 5, queen 8,
    /// king 100.
    pub open spec fn value(&self) -> int {
        match self {
            Pieces::Pawn(_, _) => 1,
            Pieces::Bishop(_, _) => 3,
            Pieces::Knight(_, _) => 3,
            Pieces::Rook(_, _) => 5,
            Pieces::Queen(_, _) => 8,
            Pieces::King(_, _) => 100,
        }
    }

    /// Get the color of the piece.
    pub fn get_color(&self) -> (c: Color)
        ensures
            c == self.color(),
    {
        match self {
            Pieces::Pawn(color, _) => *color,
            Pieces::Rook(color, _) => *color,
            Pieces::Knight(color, _) => *color,
            Pieces::Bishop(color, _) => *color,
            Pieces::Queen(color, _) => *color,
            Pieces::King(color, _) => *color,
        }
    }

    /// Get the position of the piece.
    pub fn get_position(&self) -> (p: Position)
        ensures
            p == self.position(),
    {
        match self {
            Pieces::Pawn(_, position) => *position,
            Pieces::Rook(_, position) => *position,
            Pieces::Knight(_, position) => *position,
            Pieces::Bishop(_, position) => *position,
            Pieces::Queen(_, position) => *position,
            Pieces::King(_, position) => *position,
        }
    }

    /// Whether the piece is a `Pawn`.
    pub fn is_pawn(&self) -> (b: bool)
        ensures
            b == (*self is Pawn),
    {
        matches!(self, Pieces::Pawn(_, _))
    }

    /// Whether the piece is a `Rook`.
    pub fn is_rook(&self) -> (b: bool)
        ensures
            b == (*self is Rook),
    {
        matches!(self, Pieces::Rook(_, _))
    }

    /// Whether the piece is a `Knight`.
    pub fn is_knight(&self) -> (b: bool)
        ensures
            b == (*self is Knight),
    {
        matches!(self, Pieces::Knight(_, _))
    }

    /// Whether the piece is a `Bishop`.
    pub fn is_bishop(&self) -> (b: bool)
        ensures
            b == (*self is Bishop),
    {
        matches!(self, Pieces::Bishop(_, _))
    }

    /// Whether the piece is a `Queen`.
    pub fn is_queen(&self) -> (b: bool)
        ensures
            b == (*self is Queen),
    {
        matches!(self, Pieces::Queen(_, _))
    }

    /// Whether the piece is a `King`.
    pub fn is_king(&self) -> (b: bool)
        ensures
            b == (*self is King),
    {
        matches!(self, Pieces::King(_, _))
    }

    /// Whether the piece is black.
    pub fn is_black(&self) -> (b: bool)
        ensures
            b == (self.color() == Color::Black),
    {
        matches!(self.get_color(), Color::Black)
    }

    /// Whether the piece is white.
    pub fn is_white(&self) -> (b: bool)
        ensures
            b == (self.color() == Color::White),
    {
        matches!(self.get_color(), Color::White)
    }

    /// The letter of the piece's kind and colour.
    pub open spec fn letter(&self) -> char {
        match self {
            Pieces::Pawn(Color::White, _) => 'P',
            Pieces::Pawn(Color::Black, _) => 'p',
            Pieces::Rook(Color::White, _) => 'R',
            Pieces::Rook(Color::Black, _) => 'r',
            Pieces::Knight(Color::White, _) => 'N',
            Pieces::Knight(Color::Black, _) => 'n',
            Pieces::Bishop(Color::White, _) => 'B',
            Pieces::Bishop(Color::Black, _) => 'b',
            Pieces::Queen(Color::White, _) => 'Q',
            Pieces::Queen(Color::Black, _) => 'q',
            Pieces::King(Color::White, _) => 'K',
            Pieces::King(Color::Black, _) => 'k',
        }
    }

    /// Converts the piece type & color to a single letter. Uppercase is for white characters.
    pub fn to_letter_notation(&self) -> (c: char)
        ensures
            c == self.letter(),
    {
        match self {
            Pieces::Pawn(Color::White, _) => 'P',
            Pieces::Pawn(Color::Black, _) => 'p',
            Pieces::Rook(Color::White, _) => 'R',
            Pieces::Rook(Color::Black, _) => 'r',
            Pieces::Knight(Color::White, _) => 'N',
            Pieces::Knight(Color::Black, _) => 'n',
            Pieces::Bishop(Color::White, _) => 'B',
            Pieces::Bishop(Color::Black, _) => 'b',
            Pieces::Queen(Color::White, _) => 'Q',
            Pieces::Queen(Color::Black, _) => 'q',
            Pieces::King(Color::White, _) => 'K',
            Pieces::King(Color::Black, _) => 'k',
        }
    }

    /// The chess symbol of the piece's kind and colour.
    pub open spec fn symbol(&self) -> char {
        match self {
            Pieces::Pawn(Color::White, _) => '♙',
            Pieces::Pawn(Color::Black, _) => '♟',
            Pieces::Rook(Color::White, _) => '♖',
            Pieces::Rook(Color::Black, _) => '♜',
            Pieces::Knight(Color::White, _) => '♘',
            Pieces::Knight(Color::Black, _) => '♞',
            Pieces::Bishop(Color::White, _) => '♗',
            Pieces::Bishop(Color::Black, _) => '♝',
            Pieces::Queen(Color::White, _) => '♕',
            Pieces::Queen(Color::Black, _) => '♛',
            Pieces::King(Color::White, _) => '♔',
            Pieces::King(Color::Black, _) => '♚',
        }
    }

    /// Returns the piece type & color in unicode.
    pub fn to_unicode_symbol(&self) -> (c: char)
        ensures
            c == self.symbol(),
    {
        match self {
            Pieces::Pawn(Color::White, _) => '♙',
            Pieces::Pawn(Color::Black, _) => '♟',
            Pieces::Rook(Color::White, _) => '♖',
            Pieces::Rook(Color::Black, _) => '♜',
            Pieces::Knight(Color::White, _) => '♘',
            Pieces::Knight(Color::Black, _) => '♞',
            Pieces::Bishop(Color::White, _) => '♗',
            Pieces::Bishop(Color::Black, _) => '♝',
            Pieces::Queen(Color::White, _) => '♕',
            Pieces::Queen(Color::Black, _) => '♛',
            Pieces::King(Color::White, _) => '♔',
            Pieces::King(Color::Black, _) => '♚',
        }
    }
}

/// The rook's part of a castling, given the king's part: the king leaves e1
/// or e8 for the c- or g-file of the same rank, and the rook of that side
/// jumps over it.
pub open spec fn castling_rook_move(king_move: Move) -> Option<Move> {
    let origin = king_move.0;
    let destination = king_move.1;
    if king_move.2 != Promotion::NoPromotion || origin.file_x != 4 || origin.rank_y != destination.rank_y
        || (origin.rank_y != 0 && origin.rank_y != 7) {
        None
    } else if destination.file_x == 2 {
        Some(
            Move(
                Position { file_x: 0, rank_y: origin.rank_y },
                Position { file_x: 3, rank_y: origin.rank_y },
                Promotion::NoPromotion,
            ),
        )
    } else if destination.file_x == 6 {
        Some(
            Move(
                Position { file_x: 7, rank_y: origin.rank_y },
                Position { file_x: 5, rank_y: origin.rank_y },
                Promotion::NoPromotion,
            ),
        )
    } else {
        None
    }
}

/// When the king moves, find whether it was a castling action.
/// If it is a castling move, return the corresponding `Move` for the rook.
pub fn get_castling_rook_move(king_move: &Move) -> (r: Option<Move>)
    ensures
        r == castling_rook_move(*king_move),
        r is Some ==> r->0.wf(),
{
    let Move(origin, destination, promotion) = *king_move;
    let rank = origin.rank_y;
    if promotion != Promotion::NoPromotion || origin.file_x != 4 || rank != destination.rank_y || (rank
        != 0 && rank != 7) {
        None
    } else if destination.file_x == 2 {
        // Queenside (O-O-O)
        Some(
            Move(
                Position { file_x: 0, rank_y: rank },
                Position { file_x: 3, rank_y: rank },
                Promotion::NoPromotion,
            ),
        )
    } else if destination.file_x == 6 {
        // Kingside (O-O)
        Some(
            Move(
                Position { file_x: 7, rank_y: rank },
                Position { file_x: 5, rank_y: rank },
                Promotion::NoPromotion,
            ),
        )
    } else {
        None
    }
}

/// Whether a move goes two ranks up or down from the second or the seventh
/// rank.
pub open spec fn pawn_two_step(pawn_move: Move) -> bool {
    vstd::math::abs(pawn_move.0.rank_y - pawn_move.1.rank_y) == 2 && (pawn_move.0.rank_y == 1
        || pawn_move.0.rank_y == 6)
}

/// Whether the move was a pawn "two-step" (when they move by 2 from their starting square).
/// This function assumes the piece is already determined to be a pawn.
pub fn is_pawn_two_step(pawn_move: &Move) -> (b: bool)
    ensures
        b == pawn_two_step(*pawn_move),
{
    let Move(origin, destination, _) = pawn_move;
    origin.distance_rank(destination) == 2 && (origin.rank_y == 1 || origin.rank_y == 6)
}

/// A chess piece set (white or black).
#[derive(Debug, Clone, Copy, PartialEq, Eq, Structural, Hash)]
pub enum Color {
    White,
    Black,
}

impl Color {
    /// The other colour.
    pub open spec fn spec_opposite(&self) -> Color {
        match self {
            Color::White => Color::Black,
            Color::Black => Color::White,
        }
    }

    #[verifier::when_used_as_spec(spec_opposite)]
    pub fn opposite(&self) -> (c: Color)
        ensures
            c == self.spec_opposite(),
    {
        match self {
            Self::White => Self::Black,
            Self::Black => Self::White,
        }
    }

    pub fn is_black(&self) -> (b: bool)
        ensures
            b == (*self == Color::Black),
    {
        *self == Color::Black
    }

    pub fn is_white(&self) -> (b: bool)
        ensures
            b == (*self == Color::White),
    {
        *self == Color::White
    }
}

} // verus!
