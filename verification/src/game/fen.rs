//! Reading a position from Forsyth-Edwards Notation.
use crate::bitboard::{lemma_empty, BitBoard};
use crate::game::pieces::{Color, Pieces};
use crate::game::position::{parse_notation, Position, PositionError};
use crate::game::{lemma_added, Board, BoardSide};
use vstd::prelude::*;
use vstd::string::*;

verus! {

/// The default starting position in FEN.
pub const DEFAULT_FEN: &'static str = "rnbqkbnr/pppppppp/8/8/8/8/PPPPPPPP/RNBQKBNR w KQkq - 0 1";

/// Why a piece of text is no position.
#[derive(Debug, Clone, Copy, PartialEq, Eq, Structural)]
pub enum FenError {
    /// The text has no first field.
    NoPiecePlacement,
    /// The piece placement does not have 8 ranks.
    WrongRankCount,
    /// A rank holds a character that is neither a digit nor a piece letter.
    InvalidPiece,
    /// A rank describes fewer or more than 8 squares.
    IncompleteRank,
    /// The text has no second field.
    NoActiveColor,
    /// The text has no third field.
    NoCastlingAvailability,
    /// The text has no fourth field.
    NoEnPassantTarget,
    /// The fourth field is neither `-` nor the name of a square.
    InvalidEnPassantTarget(PositionError),
    /// The fourth field names a square on another rank than the third or
    /// the sixth.
    ImpossibleEnPassantTarget,
    /// The text has no fifth field.
    NoHalfMoveClock,
    /// The text has no sixth field.
    NoFullMoveClock,
}

/// Whether a character separates the fields of the text: the characters
/// that Unicode calls white space.
pub open spec fn is_space(c: char) -> bool {
    let n = c as u32;
    n == 0x20 || (0x09 <= n <= 0x0D) || n == 0x85 || n == 0xA0 || n == 0x1680 || (0x2000 <= n
        <= 0x200A) || n == 0x2028 || n == 0x2029 || n == 0x202F || n == 0x205F || n == 0x3000
}

/// The first index from `i` on that holds no white space.
pub open spec fn skip_spaces(text: Seq<char>, i: int) -> int
    decreases text.len() - i,
{
    if 0 <= i < text.len() && is_space(text[i]) {
        skip_spaces(text, i + 1)
    } else {
        i
    }
}

/// The first index from `i` on that holds white space, or the text's end.
pub open spec fn skip_field(text: Seq<char>, i: int) -> int
    decreases text.len() - i,
{
    if 0 <= i < text.len() && !is_space(text[i]) {
        skip_field(text, i + 1)
    } else {
        i
    }
}

/// Where the field with number `n` starts, counted from 0; the text's length
/// if it has no such field.
pub open spec fn field_start(text: Seq<char>, n: nat) -> int
    decreases n,
{
    if n == 0 {
        skip_spaces(text, 0)
    } else {
        skip_spaces(text, skip_field(text, field_start(text, (n - 1) as nat)))
    }
}

/// The field with number `n`: the `n`-th run of characters between white
/// space.
pub open spec fn field(text: Seq<char>, n: nat) -> Option<Seq<char>> {
    let start = field_start(text, n);
    if 0 <= start < text.len() {
        Some(text.subrange(start, skip_field(text, start)))
    } else {
        None
    }
}

/// How often a character occurs in a text.
pub open spec fn count_char(text: Seq<char>, c: char) -> nat
    decreases text.len(),
{
    if text.len() == 0 {
        0
    } else {
        count_char(text.drop_last(), c) + if text.last() == c {
            1nat
        } else {
            0nat
        }
    }
}

/// The number that a decimal digit stands for.
pub open spec fn digit_of(c: char) -> Option<int> {
    let n = c as u32;
    if 0x30 <= n <= 0x39 {
        Some(n - 0x30)
    } else {
        None
    }
}

/// The piece that a letter stands for: upper case for white, lower case for
/// black.
pub open spec fn piece_of(c: char, position: Position) -> Option<Pieces> {
    if c == 'P' {
        Some(Pieces::Pawn(Color::White, position))
    } else if c == 'R' {
        Some(Pieces::Rook(Color::White, position))
    } else if c == 'N' {
        Some(Pieces::Knight(Color::White, position))
    } else if c == 'B' {
        Some(Pieces::Bishop(Color::White, position))
    } else if c == 'Q' {
        Some(Pieces::Queen(Color::White, position))
    } else if c == 'K' {
        Some(Pieces::King(Color::White, position))
    } else if c == 'p' {
        Some(Pieces::Pawn(Color::Black, position))
    } else if c == 'r' {
        Some(Pieces::Rook(Color::Black, position))
    } else if c == 'n' {
        Some(Pieces::Knight(Color::Black, position))
    } else if c == 'b' {
        Some(Pieces::Bishop(Color::Black, position))
    } else if c == 'q' {
        Some(Pieces::Queen(Color::Black, position))
    } else if c == 'k' {
        Some(Pieces::King(Color::Black, position))
    } else {
        None
    }
}

/// The two sides that the piece placement describes from its character `i`
/// on, given what the characters before it gave: the rank and file reached
/// and the sides so far.
///
/// The placement lists the ranks from the eighth down, each from the a-file
/// on; `/` ends a rank, a digit stands for that many empty squares and a
/// letter for a piece. A rank must describe eight squares.
pub open spec fn placement_from(
    text: Seq<char>,
    i: int,
    rank: int,
    file: int,
    white: BoardSide,
    black: BoardSide,
) -> Result<(BoardSide, BoardSide), FenError>
    decreases text.len() - i,
{
    if i < 0 || i >= text.len() {
        if file == 8 {
            Ok((white, black))
        } else {
            Err(FenError::IncompleteRank)
        }
    } else if text[i] == '/' {
        if file == 8 {
            placement_from(text, i + 1, rank - 1, 0, white, black)
        } else {
            Err(FenError::IncompleteRank)
        }
    } else if digit_of(text[i]) is Some {
        if file + digit_of(text[i])->0 > 8 {
            Err(FenError::IncompleteRank)
        } else {
            placement_from(text, i + 1, rank, file + digit_of(text[i])->0, white, black)
        }
    } else {
        let position = Position { file_x: file as u8, rank_y: rank as u8 };
        match piece_of(text[i], position) {
            None => Err(FenError::InvalidPiece),
            Some(piece) => if file > 7 {
                Err(FenError::IncompleteRank)
            } else if piece.color() == Color::White {
                placement_from(text, i + 1, rank, file + 1, white.added(piece), black)
            } else {
                placement_from(text, i + 1, rank, file + 1, white, black.added(piece))
            },
        }
    }
}

/// The two sides that a piece placement describes.
pub open spec fn placement(text: Seq<char>) -> Result<(BoardSide, BoardSide), FenError> {
    if count_char(text, '/') != 7 {
        Err(FenError::WrongRankCount)
    } else {
        placement_from(
            text,
            0,
            7,
            0,
            BoardSide::blank(Color::White),
            BoardSide::blank(Color::Black),
        )
    }
}

/// The rooks that the castling field leaves their right to castle: the one
/// in the a-file corner for a queen's letter, the one in the h-file corner
/// for a king's.
pub open spec fn castling_rooks(text: Seq<char>, color: Color) -> BitBoard {
    let (queen, king, rank) = match color {
        Color::White => ('Q', 'K', 0int),
        Color::Black => ('q', 'k', 7int),
    };
    let queenside = if text.contains(queen) {
        BitBoard::square(8 * rank)
    } else {
        BitBoard(0)
    };
    let kingside = if text.contains(king) {
        BitBoard::square(8 * rank + 7)
    } else {
        BitBoard(0)
    };
    queenside.union(kingside)
}

/// The square that the en passant field leaves open to a capture in passing,
/// and the side that it belongs to: a square on the third rank is white's,
/// one on the sixth is black's, and `-` is none.
pub open spec fn en_passant(text: Seq<char>) -> Result<Option<(Position, Color)>, FenError> {
    if text == seq!['-'] {
        Ok(None)
    } else {
        match parse_notation(text) {
            Err(e) => Err(FenError::InvalidEnPassantTarget(e)),
            Ok(position) => if position.rank_y == 2 {
                Ok(Some((position, Color::White)))
            } else if position.rank_y == 5 {
                Ok(Some((position, Color::Black)))
            } else {
                Err(FenError::ImpossibleEnPassantTarget)
            },
        }
    }
}

/// A side as the placement gave it, with the castling and en passant fields
/// taken in.
pub open spec fn finished(
    side: BoardSide,
    castling: Seq<char>,
    target: Option<(Position, Color)>,
) -> BoardSide {
    BoardSide {
        color: side.color,
        pawns: side.pawns,
        rooks: side.rooks,
        knights: side.knights,
        bishops: side.bishops,
        queens: side.queens,
        king: side.king,
        unmoved_rooks: castling_rooks(castling, side.color),
        en_passant_target: match target {
            Some((position, color)) => if color == side.color {
                BitBoard::square(position.index())
            } else {
                BitBoard(0)
            },
            None => BitBoard(0),
        },
        pieces: side.pieces,
        king_has_moved: side.king_has_moved,
    }
}

/// The position that six fields of text describe: piece placement, active
/// colour, castling availability, en passant target, and the two move
/// counters, which only have to be there.
pub open spec fn board_of_fields(text: Seq<char>) -> Result<Board, FenError> {
    if field(text, 0) is None {
        Err(FenError::NoPiecePlacement)
    } else if placement(field(text, 0)->0) is Err {
        Err(placement(field(text, 0)->0)->Err_0)
    } else if field(text, 1) is None {
        Err(FenError::NoActiveColor)
    } else if field(text, 2) is None {
        Err(FenError::NoCastlingAvailability)
    } else if field(text, 3) is None {
        Err(FenError::NoEnPassantTarget)
    } else if en_passant(field(text, 3)->0) is Err {
        Err(en_passant(field(text, 3)->0)->Err_0)
    } else if field(text, 4) is None {
        Err(FenError::NoHalfMoveClock)
    } else if field(text, 5) is None {
        Err(FenError::NoFullMoveClock)
    } else {
        let sides = placement(field(text, 0)->0)->Ok_0;
        let castling = field(text, 2)->0;
        let target = en_passant(field(text, 3)->0)->Ok_0;
        Ok(
            Board {
                white: finished(sides.0, castling, target),
                black: finished(sides.1, castling, target),
            },
        )
    }
}

/// The position that a text describes; `startpos` stands for the default
/// starting position.
pub open spec fn board_of_fen(text: Seq<char>) -> Result<Board, FenError> {
    if text == "startpos"@ {
        board_of_fields(DEFAULT_FEN@)
    } else {
        board_of_fields(text)
    }
}

/// Whether a character is white space.
pub fn is_whitespace(c: char) -> (b: bool)
    ensures
        b == is_space(c),
{
    let n = c as u32;
    n == 0x20 || (0x09 <= n && n <= 0x0D) || n == 0x85 || n == 0xA0 || n == 0x1680 || (0x2000 <= n
        && n <= 0x200A) || n == 0x2028 || n == 0x2029 || n == 0x202F || n == 0x205F || n == 0x3000
}

/// Finds the next field of the text from the index `from` on: where it
/// starts and where it ends.
pub fn next_field(text: &str, len: usize, from: usize) -> (bounds: (usize, usize))
    requires
        len == text@.len(),
        from <= len,
    ensures
        bounds.0 == skip_spaces(text@, from as int),
        bounds.1 == skip_field(text@, bounds.0 as int),
        from <= bounds.0 <= bounds.1 <= len,
{
    let mut start = from;
    while start < len && is_whitespace(text.get_char(start))
        invariant
            len == text@.len(),
            from <= start <= len,
            skip_spaces(text@, start as int) == skip_spaces(text@, from as int),
        decreases len - start,
    {
        start = start + 1;
    }
    let mut end = start;
    while end < len && !is_whitespace(text.get_char(end))
        invariant
            len == text@.len(),
            start <= end <= len,
            skip_field(text@, end as int) == skip_field(text@, start as int),
        decreases len - end,
    {
        end = end + 1;
    }
    (start, end)
}

/// A text has one more of a character than its prefix has, for each time
/// the character stands at the prefix's end.
pub proof fn lemma_count_step(text: Seq<char>, i: int, c: char)
    requires
        0 <= i < text.len(),
    ensures
        count_char(text.subrange(0, i + 1), c) == count_char(text.subrange(0, i), c) + if text[i]
            == c {
            1nat
        } else {
            0nat
        },
{
    assert(text.subrange(0, i + 1).drop_last() =~= text.subrange(0, i));
}

/// A prefix has no more of a character than a longer prefix has.
pub proof fn lemma_count_monotone(text: Seq<char>, i: int, j: int, c: char)
    requires
        0 <= i <= j <= text.len(),
    ensures
        count_char(text.subrange(0, i), c) <= count_char(text.subrange(0, j), c),
    decreases j - i,
{
    if i < j {
        lemma_count_step(text, j - 1, c);
        lemma_count_monotone(text, i, j - 1, c);
    }
}

/// How often a character occurs in the text.
pub fn count_occurrences(text: &str, c: char) -> (n: usize)
    ensures
        n == count_char(text@, c),
{
    let len = text.unicode_len();
    let mut n: usize = 0;
    let mut i: usize = 0;
    while i < len
        invariant
            len == text@.len(),
            i <= len,
            n == count_char(text@.subrange(0, i as int), c),
            n <= i,
        decreases len - i,
    {
        proof {
            lemma_count_step(text@, i as int, c);
        }
        if text.get_char(i) == c {
            n = n + 1;
        }
        i = i + 1;
    }
    assert(text@.subrange(0, len as int) =~= text@);
    n
}

/// Whether the character occurs in the text.
pub fn contains_char(text: &str, c: char) -> (b: bool)
    ensures
        b == text@.contains(c),
{
    let len = text.unicode_len();
    let mut i: usize = 0;
    while i < len
        invariant
            len == text@.len(),
            i <= len,
            forall|k: int| 0 <= k < i ==> text@[k] != c,
        decreases len - i,
    {
        if text.get_char(i) == c {
            return true;
        }
        i = i + 1;
    }
    false
}

/// Reads a decimal digit.
pub fn to_digit(c: char) -> (d: Option<u8>)
    ensures
        d is Some == digit_of(c) is Some,
        d is Some ==> d->0 == digit_of(c)->0 && d->0 <= 9,
{
    let n = c as u32;
    if 0x30 <= n && n <= 0x39 {
        Some((n - 0x30) as u8)
    } else {
        None
    }
}

/// Reads a piece letter.
pub fn piece_from_letter(c: char, position: Position) -> (r: Option<Pieces>)
    ensures
        r == piece_of(c, position),
        r is Some ==> r->0.position() == position,
{
    if c == 'P' {
        Some(Pieces::Pawn(Color::White, position))
    } else if c == 'R' {
        Some(Pieces::Rook(Color::White, position))
    } else if c == 'N' {
        Some(Pieces::Knight(Color::White, position))
    } else if c == 'B' {
        Some(Pieces::Bishop(Color::White, position))
    } else if c == 'Q' {
        Some(Pieces::Queen(Color::White, position))
    } else if c == 'K' {
        Some(Pieces::King(Color::White, position))
    } else if c == 'p' {
        Some(Pieces::Pawn(Color::Black, position))
    } else if c == 'r' {
        Some(Pieces::Rook(Color::Black, position))
    } else if c == 'n' {
        Some(Pieces::Knight(Color::Black, position))
    } else if c == 'b' {
        Some(Pieces::Bishop(Color::Black, position))
    } else if c == 'q' {
        Some(Pieces::Queen(Color::Black, position))
    } else if c == 'k' {
        Some(Pieces::King(Color::Black, position))
    } else {
        None
    }
}

/// Whether the square `i` lies before the square of `rank` and `file` in the
/// order in which a piece placement lists the squares.
pub open spec fn listed(i: int, rank: int, file: int) -> bool {
    i / 8 > rank || (i / 8 == rank && i % 8 < file)
}

/// Reads a piece placement: the first field of a position's text.
pub fn parse_placement(text: &str) -> (r: Result<(BoardSide, BoardSide), FenError>)
    ensures
        r == placement(text@),
        r matches Ok(sides) ==> {
            &&& sides.0.wf()
            &&& sides.1.wf()
            &&& sides.0.color == Color::White
            &&& sides.1.color == Color::Black
            &&& forall|i: int| !(#[trigger] sides.0.pieces.has(i) && sides.1.pieces.has(i))
        },
{
    if count_occurrences(text, '/') != 7 {
        return Err(FenError::WrongRankCount);
    }
    let len = text.unicode_len();
    let mut white = BoardSide::new(Color::White);
    let mut black = BoardSide::new(Color::Black);
    let mut rank: u8 = 7;
    let mut file: u8 = 0;
    let mut i: usize = 0;
    proof {
        lemma_empty();
    }
    while i < len
        invariant
            len == text@.len(),
            i <= len,
            count_char(text@, '/') == 7,
            rank <= 7,
            file <= 8,
            rank == 7 - count_char(text@.subrange(0, i as int), '/'),
            white.wf(),
            black.wf(),
            white.color == Color::White,
            black.color == Color::Black,
            forall|k: int| #[trigger] white.pieces.has(k) ==> listed(k, rank as int, file as int),
            forall|k: int| #[trigger] black.pieces.has(k) ==> listed(k, rank as int, file as int),
            forall|k: int| !(#[trigger] white.pieces.has(k) && black.pieces.has(k)),
            placement_from(text@, i as int, rank as int, file as int, white, black) == placement(
                text@,
            ),
        decreases len - i,
    {
        let c = text.get_char(i);
        proof {
            lemma_count_step(text@, i as int, '/');
            lemma_count_monotone(text@, i as int + 1, len as int, '/');
            assert(text@.subrange(0, len as int) =~= text@);
        }
        if c == '/' {
            if file != 8 {
                return Err(FenError::IncompleteRank);
            }
            rank = rank - 1;
            file = 0;
        } else {
            match to_digit(c) {
                Some(skip) => {
                    if skip > 8 - file {
                        return Err(FenError::IncompleteRank);
                    }
                    file = file + skip;
                },
                None => {
                    let position = Position { file_x: file, rank_y: rank };
                    match piece_from_letter(c, position) {
                        None => {
                            return Err(FenError::InvalidPiece);
                        },
                        Some(piece) => {
                            if file > 7 {
                                return Err(FenError::IncompleteRank);
                            }
                            proof {
                                assert(position.index() == 8 * rank + file);
                                assert(!listed(position.index(), rank as int, file as int));
                                if piece.color() == Color::White {
                                    lemma_added(white, piece);
                                } else {
                                    lemma_added(black, piece);
                                }
                            }
                            if piece.is_white() {
                                white.add(piece);
                            } else {
                                black.add(piece);
                            }
                            file = file + 1;
                        },
                    }
                },
            }
        }
        i = i + 1;
    }
    if file != 8 {
        return Err(FenError::IncompleteRank);
    }
    Ok((white, black))
}

/// Reads the en passant field of a position's text.
pub fn parse_en_passant(text: &str) -> (r: Result<Option<(Position, Color)>, FenError>)
    ensures
        r == en_passant(text@),
        r matches Ok(Some(target)) ==> target.0.wf(),
{
    if text.unicode_len() == 1 && text.get_char(0) == '-' {
        assert(text@ =~= seq!['-']);
        return Ok(None);
    }
    assert(text@ != seq!['-']) by {
        if text@ == seq!['-'] {
            assert(seq!['-'].len() == 1);
            assert(seq!['-'][0] == '-');
        }
    }
    match Position::from_notation(text) {
        Err(e) => Err(FenError::InvalidEnPassantTarget(e)),
        Ok(position) => {
            if position.rank_y == 2 {
                // 3rd rank
                Ok(Some((position, Color::White)))
            } else if position.rank_y == 5 {
                // 6th rank
                Ok(Some((position, Color::Black)))
            } else {
                Err(FenError::ImpossibleEnPassantTarget)
            }
        },
    }
}

/// The rooks of one colour that the castling field leaves their right to
/// castle.
pub fn parse_castling(text: &str, color: Color) -> (b: BitBoard)
    ensures
        b == castling_rooks(text@, color),
{
    let (queen, king, rank) = match color {
        Color::White => ('Q', 'K', 0u8),
        Color::Black => ('q', 'k', 7u8),
    };
    let queenside = if contains_char(text, queen) {
        BitBoard::from_position(Position { file_x: 0, rank_y: rank })
    } else {
        BitBoard::empty()
    };
    let kingside = if contains_char(text, king) {
        BitBoard::from_position(Position { file_x: 7, rank_y: rank })
    } else {
        BitBoard::empty()
    };
    queenside | kingside
}

/// Takes the castling and en passant fields into a side that the piece
/// placement gave.
pub fn finish_side(side: BoardSide, castling: &str, target: Option<(Position, Color)>) -> (r:
    BoardSide)
    requires
        side.wf(),
        target matches Some(t) ==> t.0.wf(),
    ensures
        r == finished(side, castling@, target),
        r.wf(),
        r.pieces == side.pieces,
        r.color == side.color,
{
    let mut r = side;
    r.unmoved_rooks = parse_castling(castling, side.color);
    r.en_passant_target = match target {
        Some((position, color)) => if color == side.color {
            BitBoard::from_position(position)
        } else {
            BitBoard::empty()
        },
        None => BitBoard::empty(),
    };
    proof {
        assert forall|i: int| 0 <= i < 64 implies #[trigger] r.count_at(i) <= 1 by {
            assert(side.count_at(i) <= 1);
        }
    }
    r
}

/// Whether the text is the word `startpos`.
pub fn is_startpos(text: &str) -> (b: bool)
    ensures
        b == (text@ == "startpos"@),
{
    proof {
        reveal_strlit("startpos");
    }
    if text.unicode_len() != 8 {
        return false;
    }
    let b = text.get_char(0) == 's' && text.get_char(1) == 't' && text.get_char(2) == 'a'
        && text.get_char(3) == 'r' && text.get_char(4) == 't' && text.get_char(5) == 'p'
        && text.get_char(6) == 'o' && text.get_char(7) == 's';
    proof {
        if b {
            assert(text@ =~= "startpos"@);
        }
    }
    b
}

/// Reads the six fields of a position's text.
pub fn parse_fields(text: &str) -> (r: Result<Board, FenError>)
    ensures
        r == board_of_fields(text@),
        r matches Ok(board) ==> board.wf(),
{
    let len = text.unicode_len();
    proof {
        reveal_with_fuel(field_start, 6);
    }
    let (start, end) = next_field(text, len, 0);
    if start >= len {
        return Err(FenError::NoPiecePlacement);
    }
    let sides = match parse_placement(text.substring_char(start, end)) {
        Ok(sides) => sides,
        Err(e) => {
            return Err(e);
        },
    };

    let (start, end) = next_field(text, len, end);
    if start >= len {
        return Err(FenError::NoActiveColor);
    }
    let (start, end) = next_field(text, len, end);
    if start >= len {
        return Err(FenError::NoCastlingAvailability);
    }
    let castling = text.substring_char(start, end);

    let (start, end) = next_field(text, len, end);
    if start >= len {
        return Err(FenError::NoEnPassantTarget);
    }
    let target = match parse_en_passant(text.substring_char(start, end)) {
        Ok(target) => target,
        Err(e) => {
            return Err(e);
        },
    };

    let (start, end) = next_field(text, len, end);
    if start >= len {
        return Err(FenError::NoHalfMoveClock);
    }
    let (start, end) = next_field(text, len, end);
    if start >= len {
        return Err(FenError::NoFullMoveClock);
    }
    // Construct board
    let white = finish_side(sides.0, castling, target);
    let black = finish_side(sides.1, castling, target);
    Ok(Board { white, black })
}

impl Board {
    /// Convert a Forsyth-Edwards Notation (FEN) string to `Board`
    pub fn from_fen(fen: &str) -> (r: Result<Board, FenError>)
        ensures
            r == board_of_fen(fen@),
            r matches Ok(board) ==> board.wf(),
    {
        if is_startpos(fen) {
            parse_fields(DEFAULT_FEN)
        } else {
            parse_fields(fen)
        }
    }
}

} // verus!
