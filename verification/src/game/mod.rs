//! The board, its two sides, and the moves that change it.
use crate::bitboard::{
    lemma_empty, lemma_finite, lemma_flips, lemma_set_algebra, lemma_square, BitBoard,
};
use crate::game::pieces::{
    castling_rook_move, get_castling_rook_move, is_pawn_two_step, pawn_two_step, Color, Kind,
    Pieces,
};
use crate::game::position::{lemma_index_round_trip, parse_notation, Position, PositionError};
use vstd::prelude::*;
use vstd::string::*;

pub mod draw;
pub mod fen;
pub mod lists;
pub mod moves;
pub mod pieces;
pub mod play;
pub mod position;

verus! {

/// A pawn promotion decision. Use `NoPromotion` when there is none.
#[derive(Debug, Clone, Copy, PartialEq, Eq, Structural)]
pub enum Promotion {
    Queen,
    Rook,
    Bishop,
    Knight,
    NoPromotion,
}

impl Default for Promotion {
    fn default() -> (p: Promotion)
        ensures
            p == Promotion::NoPromotion,
    {
        Promotion::NoPromotion
    }
}

impl Promotion {
    /// The letter of the promotion in a move's text; nothing for `NoPromotion`.
    pub open spec fn notation(self) -> Seq<char> {
        match self {
            Promotion::Queen => seq!['q'],
            Promotion::Rook => seq!['r'],
            Promotion::Bishop => seq!['b'],
            Promotion::Knight => seq!['n'],
            Promotion::NoPromotion => Seq::empty(),
        }
    }

    /// The promotion that a piece of text stands for: one of the letters
    /// `q`, `r`, `b`, `n`, and `NoPromotion` for anything else.
    pub open spec fn of_text(text: Seq<char>) -> Promotion {
        if text == seq!['q'] {
            Promotion::Queen
        } else if text == seq!['r'] {
            Promotion::Rook
        } else if text == seq!['b'] {
            Promotion::Bishop
        } else if text == seq!['n'] {
            Promotion::Knight
        } else {
            Promotion::NoPromotion
        }
    }

    /// The text of the promotion: its letter, or nothing.
    pub fn to_notation(&self) -> (text: &'static str)
        ensures
            text@ == self.notation(),
    {
        proof {
            reveal_strlit("q");
            reveal_strlit("r");
            reveal_strlit("b");
            reveal_strlit("n");
            reveal_strlit("");
        }
        let text = match self {
            Promotion::Queen => "q",
            Promotion::Rook => "r",
            Promotion::Bishop => "b",
            Promotion::Knight => "n",
            Promotion::NoPromotion => "",
        };
        assert(text@ =~= self.notation());
        text
    }

    /// Reads a promotion letter; anything but `q`, `r`, `b`, `n` is no
    /// promotion.
    pub fn from_notation(text: &str) -> (p: Promotion)
        ensures
            p == Promotion::of_text(text@),
    {
        if text.unicode_len() != 1 {
            assert(text@ != seq!['q'] && text@ != seq!['r'] && text@ != seq!['b'] && text@
                != seq!['n']) by {
                assert(seq!['q'].len() == 1 && seq!['r'].len() == 1 && seq!['b'].len() == 1
                    && seq!['n'].len() == 1);
            }
            return Promotion::NoPromotion;
        }
        let c = text.get_char(0);
        assert(text@ =~= seq![c]);
        assert(seq!['q'][0] == 'q' && seq!['r'][0] == 'r' && seq!['b'][0] == 'b' && seq!['n'][0]
            == 'n');
        if c == 'q' {
            Promotion::Queen
        } else if c == 'r' {
            Promotion::Rook
        } else if c == 'b' {
            Promotion::Bishop
        } else if c == 'n' {
            Promotion::Knight
        } else {
            Promotion::NoPromotion
        }
    }
}

/// Why a move's text could not be read.
#[derive(Debug, Clone, Copy, PartialEq, Eq, Structural)]
pub enum MoveError {
    /// The text is not four or five characters long.
    InvalidLength,
    /// The first two characters name no square.
    InvalidOrigin(PositionError),
    /// The third and fourth characters name no square.
    InvalidDestination(PositionError),
    /// The fifth character is none of `q`, `r`, `b`, `n`.
    InvalidPromotion,
}

/// A chess piece move (origin and destination).
#[derive(Debug, Clone, Copy, Eq, PartialEq, Structural)]
pub struct Move(pub Position, pub Position, pub Promotion);

/// The move that a piece of text stands for, in pure coordinate notation:
/// the origin square, the destination square, and a promotion letter if a
/// pawn is promoted.
pub open spec fn parse_move(text: Seq<char>) -> Result<Move, MoveError> {
    if text.len() != 4 && text.len() != 5 {
        Err(MoveError::InvalidLength)
    } else if parse_notation(text.subrange(0, 2)) is Err {
        Err(MoveError::InvalidOrigin(parse_notation(text.subrange(0, 2))->Err_0))
    } else if parse_notation(text.subrange(2, 4)) is Err {
        Err(MoveError::InvalidDestination(parse_notation(text.subrange(2, 4))->Err_0))
    } else if text.len() == 5 && Promotion::of_text(text.subrange(4, 5)) == Promotion::NoPromotion {
        Err(MoveError::InvalidPromotion)
    } else {
        Ok(
            Move(
                parse_notation(text.subrange(0, 2))->Ok_0,
                parse_notation(text.subrange(2, 4))->Ok_0,
                Promotion::of_text(text.subrange(4, text.len() as int)),
            ),
        )
    }
}

impl From<(Position, Position)> for Move {
    /// The move from the first square to the second, without promotion.
    fn from(m: (Position, Position)) -> (r: Move)
        ensures
            r == Move(m.0, m.1, Promotion::NoPromotion),
    {
        Move(m.0, m.1, Promotion::NoPromotion)
    }
}

impl vstd::std_specs::convert::FromSpecImpl<(Position, Position)> for Move {
    open spec fn obeys_from_spec() -> bool {
        true
    }

    open spec fn from_spec(m: (Position, Position)) -> Move {
        Move(m.0, m.1, Promotion::NoPromotion)
    }
}

impl Move {
    /// Both squares lie on the board.
    pub open spec fn wf(self) -> bool {
        self.0.wf() && self.1.wf()
    }

    /// The move's text in pure coordinate notation.
    pub open spec fn notation(self) -> Seq<char> {
        self.0.notation() + self.1.notation() + self.2.notation()
    }

    /// Convert a `Move` to Algebraic Pure Coordinate Notation.
    ///
    /// For example: `Move(a1, a2, Queen)` becomes `"a1a2q"`.
    pub fn to_pure_notation(&self) -> (text: String)
        requires
            self.wf(),
        ensures
            text@ == self.notation(),
    {
        let mut text = self.0.to_notation();
        let destination = self.1.to_notation();
        text.append(destination.as_str());
        text.append(self.2.to_notation());
        text
    }

    /// Convert a `Move` from Algebraic Pure Coordinate Notation.
    ///
    /// For example: `"a1a2q"` becomes `Move(a1, a2, Queen)`.
    pub fn from_pure_notation(notation: &str) -> (r: Result<Move, MoveError>)
        ensures
            r == parse_move(notation@),
            r is Ok ==> r->Ok_0.wf(),
    {
        let len = notation.unicode_len();
        if len != 4 && len != 5 {
            return Err(MoveError::InvalidLength);
        }
        let origin = match Position::from_notation(notation.substring_char(0, 2)) {
            Ok(p) => p,
            Err(e) => {
                return Err(MoveError::InvalidOrigin(e));
            },
        };
        let destination = match Position::from_notation(notation.substring_char(2, 4)) {
            Ok(p) => p,
            Err(e) => {
                return Err(MoveError::InvalidDestination(e));
            },
        };
        let promotion = Promotion::from_notation(notation.substring_char(4, len));
        if len == 5 && promotion == Promotion::NoPromotion {
            return Err(MoveError::InvalidPromotion);
        }
        Ok(Move(origin, destination, promotion))
    }

    /// Returns a new `Move` with the given `Promotion`.
    pub fn with_promotion(&self, promotion: Promotion) -> (m: Move)
        ensures
            m == Move(self.0, self.1, promotion),
    {
        Move(self.0, self.1, promotion)
    }
}

/// A move's text reads back as the move.
pub proof fn lemma_move_round_trip(m: Move)
    requires
        m.wf(),
    ensures
        parse_move(m.notation()) == Ok::<Move, MoveError>(m),
{
    let text = m.notation();
    assert(text.subrange(0, 2) =~= m.0.notation());
    assert(text.subrange(2, 4) =~= m.1.notation());
    assert(text.subrange(4, text.len() as int) =~= m.2.notation());
    crate::game::position::lemma_notation_round_trip(m.0);
    crate::game::position::lemma_notation_round_trip(m.1);
    assert(seq!['q'][0] == 'q' && seq!['r'][0] == 'r' && seq!['b'][0] == 'b' && seq!['n'][0]
        == 'n');
    assert(Promotion::of_text(m.2.notation()) == m.2);
}

#[derive(Debug, Clone, Copy, Eq, PartialEq, Structural)]
pub struct BoardSide {
    pub color: Color,
    /// Where all this side's pawns are.
    pub pawns: BitBoard,
    /// Where all this side's rooks are.
    pub rooks: BitBoard,
    /// Where all this side's knights are.
    pub knights: BitBoard,
    /// Where all this side's bishops are.
    pub bishops: BitBoard,
    /// Where all this side's queens are.
    pub queens: BitBoard,
    /// Where this side's king is.
    pub king: BitBoard,
    /// Rooks that haven't moved.
    pub unmoved_rooks: BitBoard,
    /// En-passant target square. This is the 'vulnerable' square for this side, i.e. behind the
    /// pawn that just did a 2-step.
    pub en_passant_target: BitBoard,
    /// Inherited; Where all this side's pieces are.
    pub pieces: BitBoard,
    /// Whether the king has already moved.
    pub king_has_moved: bool,
}

#[derive(Debug, Clone, Copy, Eq, PartialEq, Structural)]
pub struct Board {
    /// The `Color::White` board side.
    pub white: BoardSide,
    /// The `Color::Black` board side.
    pub black: BoardSide,
}

/// 1 for a square that a board holds, 0 for one that it lacks.
pub open spec fn held(b: BitBoard, i: int) -> int {
    if b.has(i) {
        1
    } else {
        0
    }
}

impl BoardSide {
    /// The squares of all six kinds together.
    pub open spec fn all_pieces(self) -> BitBoard {
        self.pawns.union(self.rooks).union(self.knights).union(self.bishops).union(
            self.queens,
        ).union(self.king)
    }

    /// The side with `pieces` brought up to date.
    pub open spec fn refreshed(self) -> BoardSide {
        BoardSide {
            color: self.color,
            pawns: self.pawns,
            rooks: self.rooks,
            knights: self.knights,
            bishops: self.bishops,
            queens: self.queens,
            king: self.king,
            unmoved_rooks: self.unmoved_rooks,
            en_passant_target: self.en_passant_target,
            pieces: self.all_pieces(),
            king_has_moved: self.king_has_moved,
        }
    }

    /// How many of the side's six kinds hold the square `i`.
    pub open spec fn count_at(self, i: int) -> int {
        held(self.pawns, i) + held(self.rooks, i) + held(self.knights, i) + held(self.bishops, i)
            + held(self.queens, i) + held(self.king, i)
    }

    /// How many pieces the side has.
    pub open spec fn total(self) -> nat {
        self.pawns@.len() + self.rooks@.len() + self.knights@.len() + self.bishops@.len()
            + self.queens@.len() + self.king@.len()
    }

    /// The side's piece on a square, if it has one there.
    pub open spec fn piece_at(self, position: Position) -> Option<Pieces> {
        let i = position.index();
        if self.pawns.has(i) {
            Some(Pieces::Pawn(self.color, position))
        } else if self.rooks.has(i) {
            Some(Pieces::Rook(self.color, position))
        } else if self.knights.has(i) {
            Some(Pieces::Knight(self.color, position))
        } else if self.bishops.has(i) {
            Some(Pieces::Bishop(self.color, position))
        } else if self.queens.has(i) {
            Some(Pieces::Queen(self.color, position))
        } else if self.king.has(i) {
            Some(Pieces::King(self.color, position))
        } else {
            None
        }
    }

    /// `pieces` is up to date, no square holds two of the side's pieces, and
    /// at most one square is open to a capture in passing.
    pub open spec fn wf(self) -> bool {
        &&& self.pieces == self.all_pieces()
        &&& forall|i: int| 0 <= i < 64 ==> #[trigger] self.count_at(i) <= 1
        &&& (self.en_passant_target == BitBoard(0) || exists|t: int|
            0 <= t < 64 && self.en_passant_target == BitBoard::square(t))
    }

    /// The side without whatever it had on the square `i`.
    pub open spec fn cleared(self, i: int) -> BoardSide {
        let keep = BitBoard::square(i).complement();
        BoardSide {
            color: self.color,
            pawns: self.pawns.intersection(keep),
            rooks: self.rooks.intersection(keep),
            knights: self.knights.intersection(keep),
            bishops: self.bishops.intersection(keep),
            queens: self.queens.intersection(keep),
            king: self.king.intersection(keep),
            unmoved_rooks: self.unmoved_rooks,
            en_passant_target: self.en_passant_target,
            pieces: self.pieces,
            king_has_moved: self.king_has_moved,
        }.refreshed()
    }

    /// The side with one more piece, of the kind and on the square that
    /// `piece` says.
    pub open spec fn added(self, piece: Pieces) -> BoardSide {
        let at = BitBoard::square(piece.position().index());
        BoardSide {
            color: self.color,
            pawns: if piece is Pawn {
                self.pawns.union(at)
            } else {
                self.pawns
            },
            rooks: if piece is Rook {
                self.rooks.union(at)
            } else {
                self.rooks
            },
            knights: if piece is Knight {
                self.knights.union(at)
            } else {
                self.knights
            },
            bishops: if piece is Bishop {
                self.bishops.union(at)
            } else {
                self.bishops
            },
            queens: if piece is Queen {
                self.queens.union(at)
            } else {
                self.queens
            },
            king: if piece is King {
                self.king.union(at)
            } else {
                self.king
            },
            unmoved_rooks: self.unmoved_rooks,
            en_passant_target: self.en_passant_target,
            pieces: self.pieces,
            king_has_moved: self.king_has_moved,
        }.refreshed()
    }

    /// The side as the other colour sees it: every board mirrored top to
    /// bottom.
    pub open spec fn spec_flip(&self) -> BoardSide {
        BoardSide {
            color: self.color.opposite(),
            pawns: self.pawns.reverse_colors(),
            rooks: self.rooks.reverse_colors(),
            knights: self.knights.reverse_colors(),
            bishops: self.bishops.reverse_colors(),
            queens: self.queens.reverse_colors(),
            king: self.king.reverse_colors(),
            unmoved_rooks: self.unmoved_rooks.reverse_colors(),
            pieces: self.pieces.reverse_colors(),
            en_passant_target: self.en_passant_target.reverse_colors(),
            king_has_moved: self.king_has_moved,
        }
    }

    /// The side of the given colour without pieces.
    pub open spec fn blank(color: Color) -> BoardSide {
        BoardSide {
            color,
            pawns: BitBoard(0),
            rooks: BitBoard(0),
            knights: BitBoard(0),
            bishops: BitBoard(0),
            queens: BitBoard(0),
            king: BitBoard(0),
            unmoved_rooks: BitBoard(0),
            pieces: BitBoard(0),
            en_passant_target: BitBoard(0),
            king_has_moved: false,
        }
    }

    /// The squares of the side's pieces of one kind.
    pub open spec fn spec_board(&self, kind: Kind) -> BitBoard {
        match kind {
            Kind::Pawn => self.pawns,
            Kind::Rook => self.rooks,
            Kind::Knight => self.knights,
            Kind::Bishop => self.bishops,
            Kind::Queen => self.queens,
            Kind::King => self.king,
        }
    }

    /// The squares of the side's pieces of one kind.
    #[verifier::when_used_as_spec(spec_board)]
    pub fn board(&self, kind: Kind) -> (b: BitBoard)
        ensures
            b == self.spec_board(kind),
    {
        match kind {
            Kind::Pawn => self.pawns,
            Kind::Rook => self.rooks,
            Kind::Knight => self.knights,
            Kind::Bishop => self.bishops,
            Kind::Queen => self.queens,
            Kind::King => self.king,
        }
    }

    /// Get the piece at the given position if any.
    pub fn get_piece(&self, position: Position) -> (r: Option<Pieces>)
        requires
            position.wf(),
        ensures
            r == self.piece_at(position),
    {
        if self.pawns.contains(position) {
            Some(Pieces::Pawn(self.color, position))
        } else if self.rooks.contains(position) {
            Some(Pieces::Rook(self.color, position))
        } else if self.knights.contains(position) {
            Some(Pieces::Knight(self.color, position))
        } else if self.bishops.contains(position) {
            Some(Pieces::Bishop(self.color, position))
        } else if self.queens.contains(position) {
            Some(Pieces::Queen(self.color, position))
        } else if self.king.contains(position) {
            Some(Pieces::King(self.color, position))
        } else {
            None
        }
    }

    /// Return a new instance for the other side.
    #[verifier::when_used_as_spec(spec_flip)]
    pub fn flip(&self) -> (r: BoardSide)
        ensures
            r == self.spec_flip(),
    {
        BoardSide {
            color: self.color.opposite(),
            pawns: self.pawns.reverse_colors(),
            rooks: self.rooks.reverse_colors(),
            knights: self.knights.reverse_colors(),
            bishops: self.bishops.reverse_colors(),
            queens: self.queens.reverse_colors(),
            king: self.king.reverse_colors(),
            unmoved_rooks: self.unmoved_rooks.reverse_colors(),
            pieces: self.pieces.reverse_colors(),
            en_passant_target: self.en_passant_target.reverse_colors(),
            king_has_moved: self.king_has_moved,
        }
    }

    /// Initialize a new side, empty at first.
    pub fn new(color: Color) -> (r: BoardSide)
        ensures
            r == BoardSide::blank(color),
            r.wf(),
    {
        let empty = BitBoard::empty();
        let side = BoardSide {
            color,
            pawns: empty,
            rooks: empty,
            knights: empty,
            bishops: empty,
            queens: empty,
            king: empty,
            unmoved_rooks: empty,
            pieces: empty,
            en_passant_target: empty,
            king_has_moved: false,
        };
        proof {
            lemma_all_pieces(side);
            crate::bitboard::lemma_same_squares(side.all_pieces(), empty);
        }
        side
    }

    /// Takes over every field of `update` but `pieces`, which is brought up
    /// to date: all of the side's pieces are never seen stale.
    pub fn mutate(&mut self, update: BoardSide)
        ensures
            *final(self) == update.refreshed(),
    {
        *self = update;
        self.refresh();
    }

    /// Re-calculates inherited properties.
    pub fn refresh(&mut self)
        ensures
            *final(self) == old(self).refreshed(),
    {
        self.pieces = self.pawns | self.rooks | self.knights | self.bishops | self.queens
            | self.king;
    }

    /// Takes whatever the side has on the square off the board.
    pub fn clear(&mut self, position: Position)
        requires
            position.wf(),
        ensures
            *final(self) == old(self).cleared(position.index()),
    {
        let keep = BitBoard::from_position(position).inverse();
        self.pawns = self.pawns & keep;
        self.rooks = self.rooks & keep;
        self.knights = self.knights & keep;
        self.bishops = self.bishops & keep;
        self.queens = self.queens & keep;
        self.king = self.king & keep;
        self.refresh();
    }

    /// Puts a piece on the board, of the kind and on the square that `piece`
    /// says.
    pub fn add(&mut self, piece: Pieces)
        requires
            piece.position().wf(),
        ensures
            *final(self) == old(self).added(piece),
    {
        let at = BitBoard::from_position(piece.get_position());
        match piece {
            Pieces::Pawn(_, _) => {
                self.pawns = self.pawns | at;
            },
            Pieces::Rook(_, _) => {
                self.rooks = self.rooks | at;
            },
            Pieces::Knight(_, _) => {
                self.knights = self.knights | at;
            },
            Pieces::Bishop(_, _) => {
                self.bishops = self.bishops | at;
            },
            Pieces::Queen(_, _) => {
                self.queens = self.queens | at;
            },
            Pieces::King(_, _) => {
                self.king = self.king | at;
            },
        }
        self.refresh();
    }
}

/// What clearing a square and adding a piece do to the squares of a side.
pub proof fn lemma_side_squares(side: BoardSide, j: int, piece: Pieces)
    requires
        0 <= j < 64,
        piece.position().wf(),
    ensures
        forall|i: int|
            #![trigger side.cleared(j).pawns.has(i)]
            #![trigger side.cleared(j).rooks.has(i)]
            #![trigger side.cleared(j).knights.has(i)]
            #![trigger side.cleared(j).bishops.has(i)]
            #![trigger side.cleared(j).queens.has(i)]
            #![trigger side.cleared(j).king.has(i)]
            {
                &&& side.cleared(j).pawns.has(i) == (side.pawns.has(i) && i != j)
                &&& side.cleared(j).rooks.has(i) == (side.rooks.has(i) && i != j)
                &&& side.cleared(j).knights.has(i) == (side.knights.has(i) && i != j)
                &&& side.cleared(j).bishops.has(i) == (side.bishops.has(i) && i != j)
                &&& side.cleared(j).queens.has(i) == (side.queens.has(i) && i != j)
                &&& side.cleared(j).king.has(i) == (side.king.has(i) && i != j)
            },
        forall|i: int|
            #![trigger side.added(piece).pawns.has(i)]
            #![trigger side.added(piece).rooks.has(i)]
            #![trigger side.added(piece).knights.has(i)]
            #![trigger side.added(piece).bishops.has(i)]
            #![trigger side.added(piece).queens.has(i)]
            #![trigger side.added(piece).king.has(i)]
            {
                let d = piece.position().index();
                &&& side.added(piece).pawns.has(i) == (side.pawns.has(i) || (piece is Pawn && i
                    == d))
                &&& side.added(piece).rooks.has(i) == (side.rooks.has(i) || (piece is Rook && i
                    == d))
                &&& side.added(piece).knights.has(i) == (side.knights.has(i) || (piece is Knight
                    && i == d))
                &&& side.added(piece).bishops.has(i) == (side.bishops.has(i) || (piece is Bishop
                    && i == d))
                &&& side.added(piece).queens.has(i) == (side.queens.has(i) || (piece is Queen && i
                    == d))
                &&& side.added(piece).king.has(i) == (side.king.has(i) || (piece is King && i == d))
            },
        side.cleared(j).pieces == side.cleared(j).all_pieces(),
        side.added(piece).pieces == side.added(piece).all_pieces(),
{
    let keep = BitBoard::square(j).complement();
    let d = piece.position().index();
    let at = BitBoard::square(d);
    lemma_square(j);
    lemma_square(d);
    lemma_set_algebra(BitBoard::square(j), BitBoard::square(j));
    lemma_set_algebra(side.pawns, keep);
    lemma_set_algebra(side.rooks, keep);
    lemma_set_algebra(side.knights, keep);
    lemma_set_algebra(side.bishops, keep);
    lemma_set_algebra(side.queens, keep);
    lemma_set_algebra(side.king, keep);
    lemma_set_algebra(side.pawns, at);
    lemma_set_algebra(side.rooks, at);
    lemma_set_algebra(side.knights, at);
    lemma_set_algebra(side.bishops, at);
    lemma_set_algebra(side.queens, at);
    lemma_set_algebra(side.king, at);
}

/// The squares of all of a side's pieces are those of its six kinds.
pub proof fn lemma_all_pieces(side: BoardSide)
    ensures
        forall|i: int| #[trigger]
            side.all_pieces().has(i) == (side.pawns.has(i) || side.rooks.has(i)
                || side.knights.has(i) || side.bishops.has(i) || side.queens.has(i)
                || side.king.has(i)),
        forall|i: int| #[trigger] side.all_pieces().has(i) == (side.count_at(i) >= 1),
{
    let a = side.pawns.union(side.rooks);
    let b = a.union(side.knights);
    let c = b.union(side.bishops);
    let d = c.union(side.queens);
    lemma_set_algebra(side.pawns, side.rooks);
    lemma_set_algebra(a, side.knights);
    lemma_set_algebra(b, side.bishops);
    lemma_set_algebra(c, side.queens);
    lemma_set_algebra(d, side.king);
}

impl Board {
    /// The side of the given colour.
    pub open spec fn side(self, color: Color) -> BoardSide {
        match color {
            Color::White => self.white,
            Color::Black => self.black,
        }
    }

    /// The board on which `color` has `side` and the other colour has
    /// `opponent`.
    pub open spec fn of(color: Color, side: BoardSide, opponent: BoardSide) -> Board {
        match color {
            Color::White => Board { white: side, black: opponent },
            Color::Black => Board { white: opponent, black: side },
        }
    }

    /// Every occupied square.
    pub open spec fn occupancy(self) -> BitBoard {
        self.white.pieces.union(self.black.pieces)
    }

    /// How many of the twelve piece boards hold the square `i`.
    pub open spec fn count_at(self, i: int) -> int {
        self.white.count_at(i) + self.black.count_at(i)
    }

    /// How many pieces stand on the board.
    pub open spec fn total(self) -> nat {
        self.white.total() + self.black.total()
    }

    /// The piece on a square, if there is one.
    pub open spec fn piece_at(self, position: Position) -> Option<Pieces> {
        match self.white.piece_at(position) {
            Some(piece) => Some(piece),
            None => self.black.piece_at(position),
        }
    }

    /// Each side has its own colour and is well formed, and no square holds
    /// two pieces: of all twelve boards at most one has it.
    pub open spec fn wf(self) -> bool {
        &&& self.white.color == Color::White
        &&& self.black.color == Color::Black
        &&& self.white.wf()
        &&& self.black.wf()
        &&& forall|i: int| !(#[trigger] self.white.pieces.has(i) && self.black.pieces.has(i))
    }

    /// The piece that the move takes from its origin.
    pub open spec fn mover(self, m: Move) -> Pieces {
        self.piece_at(m.0)->0
    }

    /// Whether the move is a pawn's onto the square that the other side left
    /// open to a capture in passing.
    pub open spec fn in_passing(self, m: Move) -> bool {
        self.mover(m) is Pawn && self.side(self.mover(m).color().opposite()).en_passant_target
            == BitBoard::square(m.1.index())
    }

    /// The square whose piece the move takes: the destination, or for a
    /// capture in passing the square behind it.
    pub open spec fn capture_square(self, m: Move) -> Position {
        if self.in_passing(m) {
            m.1.ahead(self.mover(m).color().opposite(), 1)
        } else {
            m.1
        }
    }

    /// The piece that stands on the destination after the move: the mover,
    /// or what a pawn is promoted to.
    pub open spec fn placed(self, m: Move) -> Pieces {
        match self.mover(m) {
            Pieces::Pawn(color, _) => match m.2 {
                Promotion::NoPromotion => Pieces::Pawn(color, m.1),
                Promotion::Queen => Pieces::Queen(color, m.1),
                Promotion::Rook => Pieces::Rook(color, m.1),
                Promotion::Bishop => Pieces::Bishop(color, m.1),
                Promotion::Knight => Pieces::Knight(color, m.1),
            },
            Pieces::Rook(color, _) => Pieces::Rook(color, m.1),
            Pieces::Knight(color, _) => Pieces::Knight(color, m.1),
            Pieces::Bishop(color, _) => Pieces::Bishop(color, m.1),
            Pieces::Queen(color, _) => Pieces::Queen(color, m.1),
            Pieces::King(color, _) => Pieces::King(color, m.1),
        }
    }

    /// The rook's part of the move, if the move is a king's castling.
    pub open spec fn rook_part(self, m: Move) -> Option<Move> {
        if self.mover(m) is King {
            castling_rook_move(m)
        } else {
            None
        }
    }

    /// What `apply_move` asks of a move: there is a piece to move, it takes
    /// none of its own colour, a castling king finds its unmoved rook, and no
    /// square ends up with two pieces.
    pub open spec fn can_apply(self, m: Move) -> bool {
        &&& m.wf()
        &&& self.piece_at(m.0) is Some
        &&& (self.piece_at(self.capture_square(m)) matches Some(taken) ==> taken.color()
            != self.mover(m).color())
        &&& (self.in_passing(m) ==> self.piece_at(m.1) is None)
        &&& (self.rook_part(m) matches Some(rook_move) ==> {
            let side = self.side(self.mover(m).color());
            &&& side.rooks.has(rook_move.0.index())
            &&& side.unmoved_rooks.has(rook_move.0.index())
            &&& self.piece_at(rook_move.1) is None
        })
    }

    /// The mover's side after the move.
    pub open spec fn side_after(self, m: Move) -> BoardSide {
        let mover = self.mover(m);
        let side = self.side(mover.color());
        let moved = side.cleared(m.0.index()).added(self.placed(m));
        let castled = match self.rook_part(m) {
            Some(rook_move) => moved.cleared(rook_move.0.index()).added(
                Pieces::Rook(mover.color(), rook_move.1),
            ),
            None => moved,
        };
        let left = match self.rook_part(m) {
            Some(rook_move) => castled.unmoved_rooks.intersection(
                BitBoard::square(rook_move.0.index()).complement(),
            ),
            None => if mover is Rook {
                castled.unmoved_rooks.intersection(BitBoard::square(m.0.index()).complement())
            } else {
                castled.unmoved_rooks
            },
        };
        BoardSide {
            color: castled.color,
            pawns: castled.pawns,
            rooks: castled.rooks,
            knights: castled.knights,
            bishops: castled.bishops,
            queens: castled.queens,
            king: castled.king,
            unmoved_rooks: left,
            en_passant_target: if mover is Pawn && pawn_two_step(m) {
                BitBoard::square(m.1.ahead(mover.color().opposite(), 1).index())
            } else {
                BitBoard(0)
            },
            pieces: castled.pieces,
            king_has_moved: side.king_has_moved || mover is King,
        }
    }

    /// The other side after the move.
    pub open spec fn opponent_after(self, m: Move) -> BoardSide {
        let opponent = self.side(self.mover(m).color().opposite());
        let taken = opponent.cleared(self.capture_square(m).index());
        BoardSide {
            color: taken.color,
            pawns: taken.pawns,
            rooks: taken.rooks,
            knights: taken.knights,
            bishops: taken.bishops,
            queens: taken.queens,
            king: taken.king,
            unmoved_rooks: taken.unmoved_rooks,
            en_passant_target: BitBoard(0),
            pieces: taken.pieces,
            king_has_moved: taken.king_has_moved,
        }
    }

    /// The board after the move.
    ///
    /// The mover leaves its origin and stands on the destination, promoted
    /// if it is a pawn and the move says so. What stood on the capture square
    /// is gone. A castling king takes its rook along. The mover's side is
    /// open to a capture in passing exactly after a pawn's two-step, on the
    /// square behind the pawn; the other side no longer is.
    pub open spec fn after(self, m: Move) -> Board {
        Board::of(self.mover(m).color(), self.side_after(m), self.opponent_after(m))
    }

    /// The position at which a game starts.
    pub open spec fn initial() -> Board {
        let white = BoardSide {
            color: Color::White,
            pawns: BitBoard(0xFF00),
            rooks: BitBoard(0x81),
            knights: BitBoard(0x42),
            bishops: BitBoard(0x24),
            queens: BitBoard(0x08),
            king: BitBoard(0x10),
            unmoved_rooks: BitBoard(0x81),
            en_passant_target: BitBoard(0),
            pieces: BitBoard(0xFFFF),
            king_has_moved: false,
        };
        Board { white, black: white.flip() }
    }

    /// Update the board after a player moved.
    pub fn apply_move(&mut self, m: Move)
        requires
            old(self).wf(),
            old(self).can_apply(m),
        ensures
            *final(self) == old(self).after(m),
            final(self).wf(),
            final(self).total() <= old(self).total(),
    {
        let Move(origin, destination, promotion) = m;
        let piece_moved = self.get_piece(origin).unwrap();
        let color = piece_moved.get_color();
        proof {
            lemma_after(*self, m);
        }

        let (mut side, mut opponent) = match color {
            Color::White => (self.white, self.black),
            Color::Black => (self.black, self.white),
        };
        let king_has_moved = side.king_has_moved || piece_moved.is_king();

        // Detect capture via en-passant: the pawn behind the destination
        // goes, not what stands on it.
        let capture_at = if piece_moved.is_pawn() && opponent.en_passant_target
            == BitBoard::from_position(destination) {
            destination.backwards(color, 1)
        } else {
            destination
        };

        // Move the piece in the side
        let placed = match piece_moved {
            Pieces::Pawn(_, _) => match promotion {
                Promotion::NoPromotion => Pieces::Pawn(color, destination),
                Promotion::Queen => Pieces::Queen(color, destination),
                Promotion::Rook => Pieces::Rook(color, destination),
                Promotion::Bishop => Pieces::Bishop(color, destination),
                Promotion::Knight => Pieces::Knight(color, destination),
            },
            Pieces::Rook(_, _) => Pieces::Rook(color, destination),
            Pieces::Knight(_, _) => Pieces::Knight(color, destination),
            Pieces::Bishop(_, _) => Pieces::Bishop(color, destination),
            Pieces::Queen(_, _) => Pieces::Queen(color, destination),
            Pieces::King(_, _) => Pieces::King(color, destination),
        };
        side.clear(origin);
        side.add(placed);

        // Check if it was a castling move
        let rook_move = if piece_moved.is_king() {
            get_castling_rook_move(&m)
        } else {
            None
        };
        match rook_move {
            Some(Move(rook_origin, rook_destination, _)) => {
                // Move the rook
                side.clear(rook_origin);
                side.add(Pieces::Rook(color, rook_destination));
                side.unmoved_rooks = side.unmoved_rooks & BitBoard::from_position(
                    rook_origin,
                ).inverse();
            },
            None => {
                if piece_moved.is_rook() {
                    side.unmoved_rooks = side.unmoved_rooks & BitBoard::from_position(
                        origin,
                    ).inverse();
                }
            },
        }
        side.king_has_moved = king_has_moved;

        // When a pawn does a two-step, it becomes the en passant target
        // (the position set is the one 'behind' the pawn that moved)
        side.en_passant_target = if piece_moved.is_pawn() && is_pawn_two_step(&m) {
            BitBoard::from_position(destination.backwards(color, 1))
        } else {
            BitBoard::empty()
        };

        // If a piece was taken, remove it from the opponent's side
        opponent.clear(capture_at);
        opponent.en_passant_target = BitBoard::empty();

        match color {
            Color::White => {
                self.white = side;
                self.black = opponent;
            },
            Color::Black => {
                self.black = side;
                self.white = opponent;
            },
        }
    }

    /// Whether `apply_move` takes the move on this board.
    pub fn can_apply_move(&self, m: Move) -> (b: bool)
        requires
            m.wf(),
        ensures
            b == self.can_apply(m),
    {
        let Move(origin, destination, _) = m;
        let piece_moved = match self.get_piece(origin) {
            Some(piece) => piece,
            None => {
                return false;
            },
        };
        let color = piece_moved.get_color();
        let side = self.get_side(color);
        let opponent = self.get_side(color.opposite());
        let in_passing = piece_moved.is_pawn() && opponent.en_passant_target
            == BitBoard::from_position(destination);
        let capture_at = if in_passing {
            destination.backwards(color, 1)
        } else {
            destination
        };
        match self.get_piece(capture_at) {
            Some(taken) => {
                if taken.get_color() == color {
                    return false;
                }
            },
            None => {},
        }
        if in_passing && self.get_piece(destination).is_some() {
            return false;
        }
        if piece_moved.is_king() {
            match get_castling_rook_move(&m) {
                Some(Move(rook_origin, rook_destination, _)) => {
                    if !side.rooks.contains(rook_origin) || !side.unmoved_rooks.contains(
                        rook_origin,
                    ) || self.get_piece(rook_destination).is_some() {
                        return false;
                    }
                },
                None => {},
            }
        }
        true
    }

    /// Get a list of pawns of the given color.
    pub fn get_pawns(&self, color: Color) -> (v: Vec<Pieces>)
        ensures
            v@.len() == self.side(color).pawns.positions().len(),
            forall|n: int|
                0 <= n < v@.len() ==> #[trigger] v@[n] == Pieces::Pawn(
                    color,
                    self.side(color).pawns.positions()[n],
                ),
    {
        let side = self.get_side(color);
        let positions = side.pawns.to_positions();
        let mut v: Vec<Pieces> = Vec::new();
        let mut n: usize = 0;
        while n < positions.len()
            invariant
                n <= positions@.len(),
                v@.len() == n,
                forall|k: int| 0 <= k < n ==> #[trigger] v@[k] == Pieces::Pawn(color, positions@[k]),
            decreases positions@.len() - n,
        {
            v.push(Pieces::Pawn(color, positions[n]));
            n = n + 1;
        }
        v
    }

    /// Get the piece at the given position if any.
    pub fn get_piece(&self, position: Position) -> (r: Option<Pieces>)
        requires
            position.wf(),
        ensures
            r == self.piece_at(position),
    {
        match self.white.get_piece(position) {
            Some(piece) => Some(piece),
            None => self.black.get_piece(position),
        }
    }

    /// What the piece at the given position is worth; 0 for an empty square.
    pub fn get_piece_value(&self, position: Position) -> (v: u8)
        requires
            position.wf(),
        ensures
            v == match self.piece_at(position) {
                Some(piece) => piece.value(),
                None => 0,
            },
    {
        match self.get_piece(position) {
            Some(Pieces::Pawn(_, _)) => 1,
            Some(Pieces::Bishop(_, _)) => 3,
            Some(Pieces::Knight(_, _)) => 3,
            Some(Pieces::Rook(_, _)) => 5,
            Some(Pieces::Queen(_, _)) => 8,
            Some(Pieces::King(_, _)) => 100,
            None => 0,
        }
    }

    /// Returns a bitboard for all the pieces in the board.
    pub fn get_bitboard(&self) -> (b: BitBoard)
        ensures
            b == self.occupancy(),
            b@ == self.white.pieces@.union(self.black.pieces@),
    {
        self.white.pieces | self.black.pieces
    }

    /// Takes over both sides, with the pieces of each brought up to date.
    pub fn mutate(&mut self, white: BoardSide, black: BoardSide)
        ensures
            final(self).white == white.refreshed(),
            final(self).black == black.refreshed(),
    {
        self.white.mutate(white);
        self.black.mutate(black);
    }

    pub fn get_side(&self, color: Color) -> (side: &BoardSide)
        ensures
            *side == self.side(color),
    {
        match color {
            Color::White => &self.white,
            Color::Black => &self.black,
        }
    }

    pub fn get_side_mut(&mut self, color: Color) -> (side: &mut BoardSide)
        ensures
            *side == old(self).side(color),
            *final(self) == Board::of(color, *final(side), old(self).side(color.opposite())),
    {
        match color {
            Color::White => &mut self.white,
            Color::Black => &mut self.black,
        }
    }

    /// How many pieces stand on the board.
    pub fn count_pieces(&self) -> (n: u32)
        ensures
            n == self.total(),
    {
        let white = self.white.pawns.popcnt() + self.white.rooks.popcnt()
            + self.white.knights.popcnt() + self.white.bishops.popcnt()
            + self.white.queens.popcnt() + self.white.king.popcnt();
        let black = self.black.pawns.popcnt() + self.black.rooks.popcnt()
            + self.black.knights.popcnt() + self.black.bishops.popcnt()
            + self.black.queens.popcnt() + self.black.king.popcnt();
        white + black
    }
}

impl Default for Board {
    /// The position at which a game starts.
    fn default() -> (board: Board)
        ensures
            board == Board::initial(),
            board.wf(),
            board.total() == 32,
    {
        let white = BoardSide {
            color: Color::White,
            pawns: BitBoard(0xFF00),
            rooks: BitBoard(0x81),
            knights: BitBoard(0x42),
            bishops: BitBoard(0x24),
            queens: BitBoard(0x08),
            king: BitBoard(0x10),
            unmoved_rooks: BitBoard(0x81),
            en_passant_target: BitBoard(0),
            pieces: BitBoard(0xFFFF),
            king_has_moved: false,
        };
        let black = white.flip();
        proof {
            lemma_initial();
        }
        Board { white, black }
    }
}

/// Which squares the first two ranks hold when a game starts.
proof fn lemma_initial_bits(i: u64)
    by (bit_vector)
    requires
        i < 64,
    ensures
        crate::bits::bit(0xFF00, i) == (8 <= i && i < 16),
        crate::bits::bit(0x81, i) == (i == 0 || i == 7),
        crate::bits::bit(0x42, i) == (i == 1 || i == 6),
        crate::bits::bit(0x24, i) == (i == 2 || i == 5),
        crate::bits::bit(0x08, i) == (i == 3),
        crate::bits::bit(0x10, i) == (i == 4),
        crate::bits::bit(0xFFFF, i) == (i < 16),
{
}

/// Where the pieces stand when a game starts.
pub proof fn lemma_initial_squares()
    ensures
        forall|i: int|
            #![trigger Board::initial().white.pawns.has(i)]
            #![trigger Board::initial().white.rooks.has(i)]
            #![trigger Board::initial().white.knights.has(i)]
            #![trigger Board::initial().white.bishops.has(i)]
            #![trigger Board::initial().white.queens.has(i)]
            #![trigger Board::initial().white.king.has(i)]
            #![trigger Board::initial().white.pieces.has(i)]
            #![trigger Board::initial().white.en_passant_target.has(i)]
            0 <= i < 64 ==> {
                let w = Board::initial().white;
                &&& w.pawns.has(i) == (8 <= i < 16)
                &&& w.rooks.has(i) == (i == 0 || i == 7)
                &&& w.knights.has(i) == (i == 1 || i == 6)
                &&& w.bishops.has(i) == (i == 2 || i == 5)
                &&& w.queens.has(i) == (i == 3)
                &&& w.king.has(i) == (i == 4)
                &&& w.pieces.has(i) == (i < 16)
                &&& !w.en_passant_target.has(i)
            },
        forall|i: int|
            #![trigger Board::initial().black.pawns.has(i)]
            #![trigger Board::initial().black.rooks.has(i)]
            #![trigger Board::initial().black.knights.has(i)]
            #![trigger Board::initial().black.bishops.has(i)]
            #![trigger Board::initial().black.queens.has(i)]
            #![trigger Board::initial().black.king.has(i)]
            #![trigger Board::initial().black.pieces.has(i)]
            #![trigger Board::initial().black.en_passant_target.has(i)]
            0 <= i < 64 ==> {
                let b = Board::initial().black;
                &&& b.pawns.has(i) == (48 <= i < 56)
                &&& b.rooks.has(i) == (i == 56 || i == 63)
                &&& b.knights.has(i) == (i == 57 || i == 62)
                &&& b.bishops.has(i) == (i == 58 || i == 61)
                &&& b.queens.has(i) == (i == 59)
                &&& b.king.has(i) == (i == 60)
                &&& b.pieces.has(i) == (i >= 48)
                &&& !b.en_passant_target.has(i)
            },
{
    let w = Board::initial().white;
    let b = Board::initial().black;
    reveal(crate::bitboard::flip_rank);
    lemma_empty();
    lemma_flips(w.pawns);
    lemma_flips(w.rooks);
    lemma_flips(w.knights);
    lemma_flips(w.bishops);
    lemma_flips(w.queens);
    lemma_flips(w.king);
    lemma_flips(w.pieces);
    lemma_flips(w.en_passant_target);
    assert forall|i: int| 0 <= i < 64 implies {
        &&& w.pawns.has(i) == (8 <= i < 16)
        &&& w.rooks.has(i) == (i == 0 || i == 7)
        &&& w.knights.has(i) == (i == 1 || i == 6)
        &&& w.bishops.has(i) == (i == 2 || i == 5)
        &&& w.queens.has(i) == (i == 3)
        &&& w.king.has(i) == (i == 4)
        &&& w.pieces.has(i) == (i < 16)
        &&& !w.en_passant_target.has(i)
        &&& b.pawns.has(i) == (48 <= i < 56)
        &&& b.rooks.has(i) == (i == 56 || i == 63)
        &&& b.knights.has(i) == (i == 57 || i == 62)
        &&& b.bishops.has(i) == (i == 58 || i == 61)
        &&& b.queens.has(i) == (i == 59)
        &&& b.king.has(i) == (i == 60)
        &&& b.pieces.has(i) == (i >= 48)
        &&& !b.en_passant_target.has(i)
    } by {
        lemma_initial_bits(i as u64);
        lemma_initial_bits(crate::bitboard::flip_rank(i) as u64);
    }
}

/// The starting position is well formed.
pub proof fn lemma_initial_wf()
    ensures
        Board::initial().wf(),
{
    let board = Board::initial();
    let w = board.white;
    let b = board.black;
    lemma_initial_squares();
    lemma_all_pieces(w);
    lemma_all_pieces(b);
    crate::bitboard::lemma_same_squares(w.pieces, w.all_pieces());
    crate::bitboard::lemma_same_squares(b.pieces, b.all_pieces());
    crate::bitboard::lemma_same_squares(b.en_passant_target, BitBoard(0));
    assert forall|i: int| 0 <= i < 64 implies #[trigger] w.count_at(i) <= 1 by {
        assert(w.pawns.has(i) == (8 <= i < 16));
    }
    assert forall|i: int| 0 <= i < 64 implies #[trigger] b.count_at(i) <= 1 by {
        assert(b.pawns.has(i) == (48 <= i < 56));
    }
}

/// A board whose squares are the integers from `lo` up to `hi` has `hi - lo`
/// of them.
proof fn lemma_range_len(b: BitBoard, lo: int, hi: int)
    requires
        0 <= lo <= hi <= 64,
        forall|i: int| 0 <= i < 64 ==> #[trigger] b.has(i) == (lo <= i < hi),
    ensures
        b@.len() == hi - lo,
{
    vstd::set_lib::lemma_int_range(lo, hi);
    assert(b@ =~= vstd::set_lib::set_int_range(lo, hi));
}

/// A board with the two squares `x` and `y` has two squares, or one if they
/// are the same.
proof fn lemma_pair_len(b: BitBoard, x: int, y: int)
    requires
        0 <= x < 64,
        0 <= y < 64,
        forall|i: int| 0 <= i < 64 ==> #[trigger] b.has(i) == (i == x || i == y),
    ensures
        b@.len() == if x == y {
            1int
        } else {
            2int
        },
{
    assert(b@ =~= set![x, y]);
}

/// The starting position is well formed and has 32 pieces.
pub proof fn lemma_initial()
    ensures
        Board::initial().wf(),
        Board::initial().total() == 32,
{
    let w = Board::initial().white;
    let b = Board::initial().black;
    lemma_initial_wf();
    lemma_initial_squares();
    lemma_range_len(w.pawns, 8, 16);
    lemma_range_len(b.pawns, 48, 56);
    lemma_pair_len(w.rooks, 0, 7);
    lemma_pair_len(w.knights, 1, 6);
    lemma_pair_len(w.bishops, 2, 5);
    lemma_pair_len(w.queens, 3, 3);
    lemma_pair_len(w.king, 4, 4);
    lemma_pair_len(b.rooks, 56, 63);
    lemma_pair_len(b.knights, 57, 62);
    lemma_pair_len(b.bishops, 58, 61);
    lemma_pair_len(b.queens, 59, 59);
    lemma_pair_len(b.king, 60, 60);
}

/// How many pieces a side has after a square was cleared.
pub proof fn lemma_cleared_total(side: BoardSide, j: int)
    requires
        0 <= j < 64,
    ensures
        side.cleared(j).total() == side.total() - side.count_at(j),
{
    lemma_side_squares(side, j, Pieces::Pawn(side.color, Position { file_x: 0, rank_y: 0 }));
    let c = side.cleared(j);
    lemma_finite(side.pawns);
    lemma_finite(side.rooks);
    lemma_finite(side.knights);
    lemma_finite(side.bishops);
    lemma_finite(side.queens);
    lemma_finite(side.king);
    assert(c.pawns@ =~= side.pawns@.remove(j));
    assert(c.rooks@ =~= side.rooks@.remove(j));
    assert(c.knights@ =~= side.knights@.remove(j));
    assert(c.bishops@ =~= side.bishops@.remove(j));
    assert(c.queens@ =~= side.queens@.remove(j));
    assert(c.king@ =~= side.king@.remove(j));
}

/// A side with one piece added has at most one piece more.
pub proof fn lemma_added_total(side: BoardSide, piece: Pieces)
    requires
        piece.position().wf(),
    ensures
        side.added(piece).total() <= side.total() + 1,
        side.added(piece).total() >= side.total(),
        side.count_at(piece.position().index()) == 0 ==> side.added(piece).total() == side.total()
            + 1,
{
    lemma_side_squares(side, 0, piece);
    let a = side.added(piece);
    let d = piece.position().index();
    lemma_finite(side.pawns);
    lemma_finite(side.rooks);
    lemma_finite(side.knights);
    lemma_finite(side.bishops);
    lemma_finite(side.queens);
    lemma_finite(side.king);
    assert(a.pawns@ =~= if piece is Pawn {
        side.pawns@.insert(d)
    } else {
        side.pawns@
    });
    assert(a.rooks@ =~= if piece is Rook {
        side.rooks@.insert(d)
    } else {
        side.rooks@
    });
    assert(a.knights@ =~= if piece is Knight {
        side.knights@.insert(d)
    } else {
        side.knights@
    });
    assert(a.bishops@ =~= if piece is Bishop {
        side.bishops@.insert(d)
    } else {
        side.bishops@
    });
    assert(a.queens@ =~= if piece is Queen {
        side.queens@.insert(d)
    } else {
        side.queens@
    });
    assert(a.king@ =~= if piece is King {
        side.king@.insert(d)
    } else {
        side.king@
    });
}

/// Clearing a square keeps a side well formed and takes at most the piece
/// on that square.
pub proof fn lemma_cleared(side: BoardSide, j: int)
    requires
        side.wf(),
        0 <= j < 64,
    ensures
        side.cleared(j).wf(),
        forall|i: int| #[trigger] side.cleared(j).pieces.has(i) == (side.pieces.has(i) && i != j),
        side.cleared(j).total() == side.total() - held(side.pieces, j),
{
    let c = side.cleared(j);
    lemma_side_squares(side, j, Pieces::Pawn(side.color, Position { file_x: 0, rank_y: 0 }));
    lemma_cleared_total(side, j);
    lemma_all_pieces(side);
    lemma_all_pieces(c);
    assert(side.count_at(j) <= 1);
    assert forall|i: int| 0 <= i < 64 implies #[trigger] c.count_at(i) <= 1 by {
        assert(side.count_at(i) <= 1);
    }
}

impl BoardSide {
    /// The side after its piece on the square `o` made room for `piece`.
    pub open spec fn moved(self, o: int, piece: Pieces) -> BoardSide {
        self.cleared(o).added(piece)
    }
}

/// Moving a piece to a square that the side does not hold keeps the side
/// well formed and its number of pieces.
pub proof fn lemma_moved(side: BoardSide, o: int, piece: Pieces)
    requires
        side.wf(),
        0 <= o < 64,
        piece.position().wf(),
        piece.position().index() == o || !side.pieces.has(piece.position().index()),
    ensures
        side.moved(o, piece).wf(),
        forall|i: int| #[trigger]
            side.moved(o, piece).pieces.has(i) == (i == piece.position().index() || (
            side.pieces.has(i) && i != o)),
        side.pieces.has(o) ==> side.moved(o, piece).total() == side.total(),
        side.moved(o, piece).rooks.has(piece.position().index()) == (piece is Rook),
        side.moved(o, piece).board(piece.kind()).has(piece.position().index()),
        forall|i: int|
            i != o && i != piece.position().index() ==> #[trigger] side.moved(o, piece).rooks.has(i)
                == side.rooks.has(i),
{
    let c = side.cleared(o);
    let a = side.moved(o, piece);
    let d = piece.position().index();
    lemma_cleared(side, o);
    lemma_side_squares(side, o, piece);
    lemma_side_squares(c, o, piece);
    lemma_added_total(c, piece);
    lemma_all_pieces(side);
    lemma_all_pieces(c);
    lemma_all_pieces(a);
    assert(!c.pieces.has(d));
    assert(c.count_at(d) == 0);
    assert forall|i: int| 0 <= i < 64 implies #[trigger] a.count_at(i) <= 1 by {
        assert(c.count_at(i) <= 1);
    }
}

/// Adding a piece on a square that the side does not hold keeps the side
/// well formed and gives it one piece more.
pub proof fn lemma_added(side: BoardSide, piece: Pieces)
    requires
        side.wf(),
        piece.position().wf(),
        !side.pieces.has(piece.position().index()),
    ensures
        side.added(piece).wf(),
        forall|i: int| #[trigger]
            side.added(piece).pieces.has(i) == (i == piece.position().index() || side.pieces.has(
                i,
            )),
        side.added(piece).total() == side.total() + 1,
{
    let a = side.added(piece);
    let d = piece.position().index();
    lemma_side_squares(side, 0, piece);
    lemma_added_total(side, piece);
    lemma_all_pieces(side);
    lemma_all_pieces(a);
    assert(side.count_at(d) == 0);
    assert forall|i: int| 0 <= i < 64 implies #[trigger] a.count_at(i) <= 1 by {
        assert(side.count_at(i) <= 1);
    }
}

/// A move that `apply_move` takes leaves a well-formed board with as many
/// pieces as before, or one less.
pub proof fn lemma_after(board: Board, m: Move)
    requires
        board.wf(),
        board.can_apply(m),
    ensures
        board.after(m).wf(),
        board.after(m).total() <= board.total(),
        board.after(m).total() >= board.total() - 1,
{
    let mover = board.mover(m);
    let color = mover.color();
    let side = board.side(color);
    let opponent = board.side(color.opposite());
    let o = m.0.index();
    let d = m.1.index();
    let placed = board.placed(m);
    let t = board.capture_square(m).index();
    lemma_index_round_trip(m.1.ahead(color.opposite(), 1), 0);
    lemma_all_pieces(side);
    lemma_all_pieces(opponent);
    assert(side.pieces.has(o));
    assert(d == o || !side.pieces.has(d)) by {
        if side.pieces.has(d) && !board.in_passing(m) {
            assert(side.piece_at(m.1) is Some);
            assert(!(board.white.pieces.has(d) && board.black.pieces.has(d)));
            assert(!opponent.pieces.has(d));
            assert(opponent.piece_at(m.1) is None);
            assert(board.piece_at(m.1) == side.piece_at(m.1));
            assert(side.piece_at(m.1)->0.color() == side.color);
        }
    }
    lemma_moved(side, o, placed);
    lemma_cleared(opponent, t);
    let side2 = side.moved(o, placed);
    let after = board.after(m);
    match board.rook_part(m) {
        Some(rook_move) => {
            let ro = rook_move.0.index();
            let rd = rook_move.1.index();
            let rook = Pieces::Rook(color, rook_move.1);
            assert(!side.pieces.has(rd) && !opponent.pieces.has(rd)) by {
                assert(board.piece_at(rook_move.1) is None);
            }
            assert(side2.pieces.has(ro));
            lemma_moved(side2, ro, rook);
        },
        None => {},
    }
    assert(!(d != t && opponent.pieces.has(d))) by {
        if board.in_passing(m) {
            assert(board.piece_at(m.1) is None);
        }
    }
    assert forall|i: int| 0 <= i < 64 implies #[trigger] board.side_after(m).count_at(i) <= 1 by {
        match board.rook_part(m) {
            Some(rook_move) => {
                assert(side2.moved(rook_move.0.index(), Pieces::Rook(color, rook_move.1)).count_at(
                    i,
                ) <= 1);
            },
            None => {
                assert(side2.count_at(i) <= 1);
            },
        }
    }
    assert forall|i: int| 0 <= i < 64 implies #[trigger] board.opponent_after(m).count_at(i)
        <= 1 by {
        assert(opponent.cleared(t).count_at(i) <= 1);
    }
}

/// No square of a well-formed board holds two pieces: of the six kinds of
/// either side, at most one has the square.
pub proof fn lemma_one_piece_per_square(board: Board, i: int)
    requires
        board.wf(),
        0 <= i < 64,
    ensures
        board.count_at(i) <= 1,
{
    lemma_all_pieces(board.white);
    lemma_all_pieces(board.black);
    assert(board.white.count_at(i) <= 1);
    assert(board.black.count_at(i) <= 1);
    assert(!(board.white.pieces.has(i) && board.black.pieces.has(i)));
}

/// On a well-formed board the piece on a square is the one whose board
/// holds the square, and a square is occupied exactly if a piece is on it.
pub proof fn lemma_piece_at(board: Board, position: Position)
    requires
        board.wf(),
        position.wf(),
    ensures
        board.piece_at(position) is Some == board.occupancy().has(position.index()),
        board.piece_at(position) is Some == (board.white.pieces.has(position.index())
            || board.black.pieces.has(position.index())),
        forall|color: Color, kind: Kind| #[trigger]
            board.side(color).board(kind).has(position.index()) ==> board.piece_at(position)
                == Some(kind.piece(color, position)),
        board.piece_at(position) matches Some(piece) ==> piece.position() == position
            && board.side(piece.color()).board(piece.kind()).has(position.index()) && board.side(
            piece.color(),
        ).pieces.has(position.index()),
{
    let i = position.index();
    lemma_all_pieces(board.white);
    lemma_all_pieces(board.black);
    lemma_set_algebra(board.white.pieces, board.black.pieces);
    assert(board.white.count_at(i) <= 1);
    assert(board.black.count_at(i) <= 1);
    assert(!(board.white.pieces.has(i) && board.black.pieces.has(i)));
}

/// Two boards without a common square have together as many squares as
/// the one and the other.
pub proof fn lemma_disjoint_count(x: BitBoard, y: BitBoard)
    requires
        forall|i: int| !(#[trigger] x.has(i) && y.has(i)),
    ensures
        x.union(y)@.len() == x@.len() + y@.len(),
{
    lemma_set_algebra(x, y);
    lemma_finite(x);
    lemma_finite(y);
    assert(x@.disjoint(y@)) by {
        assert forall|i: int| x@.contains(i) implies !y@.contains(i) by {
            assert(!(x.has(i) && y.has(i)));
        }
    }
    vstd::set_lib::lemma_set_disjoint_lens(x@, y@);
}

/// A well-formed side has as many pieces as its `pieces` has squares.
pub proof fn lemma_side_count(side: BoardSide)
    requires
        side.wf(),
    ensures
        side.pieces@.len() == side.total(),
{
    let a = side.pawns.union(side.rooks);
    let b = a.union(side.knights);
    let c = b.union(side.bishops);
    let d = c.union(side.queens);
    lemma_set_algebra(side.pawns, side.rooks);
    lemma_set_algebra(a, side.knights);
    lemma_set_algebra(b, side.bishops);
    lemma_set_algebra(c, side.queens);
    assert forall|i: int| !(#[trigger] side.pawns.has(i) && side.rooks.has(i)) by {
        if 0 <= i < 64 {
            assert(side.count_at(i) <= 1);
        }
    }
    assert forall|i: int| !(#[trigger] a.has(i) && side.knights.has(i)) by {
        if 0 <= i < 64 {
            assert(side.count_at(i) <= 1);
        }
    }
    assert forall|i: int| !(#[trigger] b.has(i) && side.bishops.has(i)) by {
        if 0 <= i < 64 {
            assert(side.count_at(i) <= 1);
        }
    }
    assert forall|i: int| !(#[trigger] c.has(i) && side.queens.has(i)) by {
        if 0 <= i < 64 {
            assert(side.count_at(i) <= 1);
        }
    }
    assert forall|i: int| !(#[trigger] d.has(i) && side.king.has(i)) by {
        if 0 <= i < 64 {
            assert(side.count_at(i) <= 1);
        }
    }
    lemma_disjoint_count(side.pawns, side.rooks);
    lemma_disjoint_count(a, side.knights);
    lemma_disjoint_count(b, side.bishops);
    lemma_disjoint_count(c, side.queens);
    lemma_disjoint_count(d, side.king);
}

/// On a well-formed board as many squares are occupied as there are
/// pieces: no square is held by two.
pub proof fn lemma_occupancy_count(board: Board)
    requires
        board.wf(),
    ensures
        board.occupancy()@.len() == board.total(),
{
    lemma_side_count(board.white);
    lemma_side_count(board.black);
    lemma_disjoint_count(board.white.pieces, board.black.pieces);
}

} // verus!
