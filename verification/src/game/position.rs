//! Squares of the board, by file and rank, and their two-character names.
use crate::game::pieces::Color;
use vstd::prelude::*;
use vstd::string::*;

verus! {

/// Why a square could not be made.
#[derive(Debug, Clone, Copy, PartialEq, Eq, Structural)]
pub enum PositionError {
    /// The file index is above 7.
    InvalidFile(u8),
    /// The rank index is above 7.
    InvalidRank(u8),
    /// The text is not two characters long.
    InvalidNotation,
    /// The first character is not a file letter `a` to `h`.
    InvalidNotationFile,
    /// The second character is not a rank digit `1` to `8`.
    InvalidNotationRank,
}

/// Position on the board.
#[derive(Debug, Clone, Copy, PartialEq, Eq, Structural, Hash)]
pub struct Position {
    /// The file index, 0 to 7 (maps A to H)
    pub file_x: u8,
    /// The rank index, 0 to 7 (maps 1 to 8)
    pub rank_y: u8,
}

/// The letter of file `f`.
pub open spec fn file_char(f: int) -> char {
    if f == 0 {
        'a'
    } else if f == 1 {
        'b'
    } else if f == 2 {
        'c'
    } else if f == 3 {
        'd'
    } else if f == 4 {
        'e'
    } else if f == 5 {
        'f'
    } else if f == 6 {
        'g'
    } else {
        'h'
    }
}

/// The digit of rank `r`.
pub open spec fn rank_char(r: int) -> char {
    if r == 0 {
        '1'
    } else if r == 1 {
        '2'
    } else if r == 2 {
        '3'
    } else if r == 3 {
        '4'
    } else if r == 4 {
        '5'
    } else if r == 5 {
        '6'
    } else if r == 6 {
        '7'
    } else {
        '8'
    }
}

/// The file that a letter names, if it names one.
pub open spec fn file_of_char(c: char) -> Option<u8> {
    if c == 'a' {
        Some(0u8)
    } else if c == 'b' {
        Some(1u8)
    } else if c == 'c' {
        Some(2u8)
    } else if c == 'd' {
        Some(3u8)
    } else if c == 'e' {
        Some(4u8)
    } else if c == 'f' {
        Some(5u8)
    } else if c == 'g' {
        Some(6u8)
    } else if c == 'h' {
        Some(7u8)
    } else {
        None
    }
}

/// The rank that a digit names, if it names one.
pub open spec fn rank_of_char(c: char) -> Option<u8> {
    if c == '1' {
        Some(0u8)
    } else if c == '2' {
        Some(1u8)
    } else if c == '3' {
        Some(2u8)
    } else if c == '4' {
        Some(3u8)
    } else if c == '5' {
        Some(4u8)
    } else if c == '6' {
        Some(5u8)
    } else if c == '7' {
        Some(6u8)
    } else if c == '8' {
        Some(7u8)
    } else {
        None
    }
}

/// The square that a piece of text names: a file letter, then a rank digit.
pub open spec fn parse_notation(text: Seq<char>) -> Result<Position, PositionError> {
    if text.len() != 2 {
        Err(PositionError::InvalidNotation)
    } else if file_of_char(text[0]) is None {
        Err(PositionError::InvalidNotationFile)
    } else if rank_of_char(text[1]) is None {
        Err(PositionError::InvalidNotationRank)
    } else {
        Ok(Position { file_x: file_of_char(text[0])->0, rank_y: rank_of_char(text[1])->0 })
    }
}

/// Reads a file letter.
pub fn file_from_char(c: char) -> (r: Option<u8>)
    ensures
        r == file_of_char(c),
{
    if c == 'a' {
        Some(0)
    } else if c == 'b' {
        Some(1)
    } else if c == 'c' {
        Some(2)
    } else if c == 'd' {
        Some(3)
    } else if c == 'e' {
        Some(4)
    } else if c == 'f' {
        Some(5)
    } else if c == 'g' {
        Some(6)
    } else if c == 'h' {
        Some(7)
    } else {
        None
    }
}

/// Reads a rank digit.
pub fn rank_from_char(c: char) -> (r: Option<u8>)
    ensures
        r == rank_of_char(c),
{
    if c == '1' {
        Some(0)
    } else if c == '2' {
        Some(1)
    } else if c == '3' {
        Some(2)
    } else if c == '4' {
        Some(3)
    } else if c == '5' {
        Some(4)
    } else if c == '6' {
        Some(5)
    } else if c == '7' {
        Some(6)
    } else if c == '8' {
        Some(7)
    } else {
        None
    }
}

impl Position {
    /// Both coordinates lie on the board.
    pub open spec fn wf(self) -> bool {
        self.file_x < 8 && self.rank_y < 8
    }

    /// The square's index: 0 is a1, 7 is h1, 63 is h8.
    pub open spec fn index(self) -> int {
        self.rank_y * 8 + self.file_x
    }

    /// The square with the given index.
    pub open spec fn at(index: int) -> Position {
        Position { file_x: (index % 8) as u8, rank_y: (index / 8) as u8 }
    }

    /// The square's name: its file letter, then its rank digit.
    pub open spec fn notation(self) -> Seq<char> {
        seq![file_char(self.file_x as int), rank_char(self.rank_y as int)]
    }

    /// The square mirrored across the middle of the board.
    pub open spec fn flipped(self) -> Position {
        Position { file_x: self.file_x, rank_y: (7 - self.rank_y) as u8 }
    }

    /// The square `inc` ranks ahead as `color` sees it, stopping at the edge.
    pub open spec fn ahead(self, color: Color, inc: int) -> Position {
        let rank = match color {
            Color::White => self.rank_y + inc,
            Color::Black => self.rank_y - inc,
        };
        Position {
            file_x: self.file_x,
            rank_y: if rank < 0 {
                0u8
            } else if rank > 7 {
                7u8
            } else {
                rank as u8
            },
        }
    }

    /// Initialize a position from indexes.
    pub fn new(file_x: u8, rank_y: u8) -> (r: Result<Position, PositionError>)
        ensures
            file_x > 7 ==> r == Err::<Position, PositionError>(PositionError::InvalidFile(file_x)),
            file_x <= 7 && rank_y > 7 ==> r == Err::<Position, PositionError>(
                PositionError::InvalidRank(rank_y),
            ),
            file_x <= 7 && rank_y <= 7 ==> r == Ok::<Position, PositionError>(
                Position { file_x, rank_y },
            ),
    {
        if file_x > 7 {
            return Err(PositionError::InvalidFile(file_x));
        }
        if rank_y > 7 {
            return Err(PositionError::InvalidRank(rank_y));
        }
        Ok(Position { file_x, rank_y })
    }

    /// The square with the given index, 0 to 63.
    pub fn from_index(index: u8) -> (p: Position)
        requires
            index < 64,
        ensures
            p == Position::at(index as int),
            p.wf(),
            p.index() == index,
    {
        Position { file_x: index % 8, rank_y: index / 8 }
    }

    /// Initialize a position from notation (for example: a8).
    pub fn from_notation(notation: &str) -> (r: Result<Position, PositionError>)
        ensures
            r == parse_notation(notation@),
            r is Ok ==> r->Ok_0.wf(),
    {
        if notation.unicode_len() != 2 {
            return Err(PositionError::InvalidNotation);
        }
        let file_x = match file_from_char(notation.get_char(0)) {
            Some(f) => f,
            None => {
                return Err(PositionError::InvalidNotationFile);
            },
        };
        let rank_y = match rank_from_char(notation.get_char(1)) {
            Some(r) => r,
            None => {
                return Err(PositionError::InvalidNotationRank);
            },
        };
        Ok(Position { file_x, rank_y })
    }

    /// The two-character name of the square (for example: a8).
    pub fn to_notation(&self) -> (text: String)
        requires
            self.wf(),
        ensures
            text@ == self.notation(),
    {
        let file = if self.file_x == 0 {
            "a"
        } else if self.file_x == 1 {
            "b"
        } else if self.file_x == 2 {
            "c"
        } else if self.file_x == 3 {
            "d"
        } else if self.file_x == 4 {
            "e"
        } else if self.file_x == 5 {
            "f"
        } else if self.file_x == 6 {
            "g"
        } else {
            "h"
        };
        let rank = if self.rank_y == 0 {
            "1"
        } else if self.rank_y == 1 {
            "2"
        } else if self.rank_y == 2 {
            "3"
        } else if self.rank_y == 3 {
            "4"
        } else if self.rank_y == 4 {
            "5"
        } else if self.rank_y == 5 {
            "6"
        } else if self.rank_y == 6 {
            "7"
        } else {
            "8"
        };
        proof {
            reveal_strlit("a");
            reveal_strlit("b");
            reveal_strlit("c");
            reveal_strlit("d");
            reveal_strlit("e");
            reveal_strlit("f");
            reveal_strlit("g");
            reveal_strlit("h");
            reveal_strlit("1");
            reveal_strlit("2");
            reveal_strlit("3");
            reveal_strlit("4");
            reveal_strlit("5");
            reveal_strlit("6");
            reveal_strlit("7");
            reveal_strlit("8");
        }
        let mut text = String::new();
        text.append(file);
        text.append(rank);
        assert(text@ =~= self.notation());
        text
    }

    /// Rotates the position for the other side.
    pub fn flip(&self) -> (p: Position)
        requires
            self.wf(),
        ensures
            p == self.flipped(),
            p.wf(),
    {
        Position { file_x: self.file_x, rank_y: 7 - self.rank_y }
    }

    /// Returns a new position, forwards by increment in the direction of the given color.
    /// A position that would leave the board stays on its last rank.
    pub fn forwards(&self, color: Color, inc: u8) -> (p: Position)
        requires
            self.wf(),
        ensures
            p == self.ahead(color, inc as int),
            p.wf(),
    {
        let rank = match color {
            Color::Black => if self.rank_y >= inc {
                self.rank_y - inc
            } else {
                0
            },
            Color::White => if inc <= 7 - self.rank_y {
                self.rank_y + inc
            } else {
                7
            },
        };
        Position { file_x: self.file_x, rank_y: rank }
    }

    /// Returns a new position, backwards by increment in the direction of the given color.
    pub fn backwards(&self, color: Color, inc: u8) -> (p: Position)
        requires
            self.wf(),
        ensures
            p == self.ahead(color.opposite(), inc as int),
            p.wf(),
    {
        self.forwards(color.opposite(), inc)
    }

    /// Returns the distance between 2 positions on the Y axis (rank).
    pub fn distance_rank(&self, other: &Position) -> (d: u8)
        ensures
            d == vstd::math::abs(self.rank_y - other.rank_y),
    {
        if self.rank_y >= other.rank_y {
            self.rank_y - other.rank_y
        } else {
            other.rank_y - self.rank_y
        }
    }

    /// Convert to `BitBoard` notation.
    pub fn to_int(&self) -> (i: u8)
        requires
            self.wf(),
        ensures
            i == self.index(),
            i < 64,
    {
        self.rank_y * 8 + self.file_x
    }
}

/// A square's name reads back as the square.
pub proof fn lemma_notation_round_trip(p: Position)
    requires
        p.wf(),
    ensures
        parse_notation(p.notation()) == Ok::<Position, PositionError>(p),
{
}

/// A square and its index determine each other.
pub proof fn lemma_index_round_trip(p: Position, index: int)
    requires
        p.wf(),
        0 <= index < 64,
    ensures
        0 <= p.index() < 64,
        Position::at(p.index()) == p,
        Position::at(index).wf(),
        Position::at(index).index() == index,
{
}

} // verus!
