//! Drawing the board as text.
use crate::game::pieces::{Color, Pieces};
use crate::game::position::Position;
use crate::game::Board;
use vstd::prelude::*;
use vstd::string::*;

verus! {

/// The character that stands for a square in a drawing: the letter of the
/// piece on it, upper case for white, or a dot.
pub open spec fn square_char(piece: Option<Pieces>) -> char {
    match piece {
        Some(piece) => piece.letter(),
        None => '.',
    }
}

/// The text of a square in a drawing: its character and a space.
pub fn square_text(piece: Option<Pieces>) -> (text: &'static str)
    ensures
        text@ == seq![square_char(piece), ' '],
{
    proof {
        reveal_strlit(". ");
        reveal_strlit("P ");
        reveal_strlit("p ");
        reveal_strlit("R ");
        reveal_strlit("r ");
        reveal_strlit("N ");
        reveal_strlit("n ");
        reveal_strlit("B ");
        reveal_strlit("b ");
        reveal_strlit("Q ");
        reveal_strlit("q ");
        reveal_strlit("K ");
        reveal_strlit("k ");
    }
    let text = match piece {
        None => ". ",
        Some(Pieces::Pawn(Color::White, _)) => "P ",
        Some(Pieces::Pawn(Color::Black, _)) => "p ",
        Some(Pieces::Rook(Color::White, _)) => "R ",
        Some(Pieces::Rook(Color::Black, _)) => "r ",
        Some(Pieces::Knight(Color::White, _)) => "N ",
        Some(Pieces::Knight(Color::Black, _)) => "n ",
        Some(Pieces::Bishop(Color::White, _)) => "B ",
        Some(Pieces::Bishop(Color::Black, _)) => "b ",
        Some(Pieces::Queen(Color::White, _)) => "Q ",
        Some(Pieces::Queen(Color::Black, _)) => "q ",
        Some(Pieces::King(Color::White, _)) => "K ",
        Some(Pieces::King(Color::Black, _)) => "k ",
    };
    assert(text@ =~= seq![square_char(piece), ' ']);
    text
}

impl Board {
    /// The drawing of the first `files` squares of a rank.
    pub open spec fn row_drawing(self, rank: int, files: int) -> Seq<char>
        decreases files,
    {
        if files <= 0 {
            Seq::empty()
        } else {
            self.row_drawing(rank, files - 1) + seq![
                square_char(
                    self.piece_at(Position { file_x: (files - 1) as u8, rank_y: rank as u8 }),
                ),
                ' ',
            ]
        }
    }

    /// The rank that the line with number `row` of a drawing shows: white
    /// sees the eighth rank at the top, black the first.
    pub open spec fn drawn_rank(side: Color, row: int) -> int {
        match side {
            Color::White => 7 - row,
            Color::Black => row,
        }
    }

    /// The first `rows` lines of the drawing.
    pub open spec fn rows_drawing(self, side: Color, rows: int) -> Seq<char>
        decreases rows,
    {
        if rows <= 0 {
            Seq::empty()
        } else if rows == 1 {
            self.row_drawing(Board::drawn_rank(side, 0), 8)
        } else {
            self.rows_drawing(side, rows - 1) + seq!['\n'] + self.row_drawing(
                Board::drawn_rank(side, rows - 1),
                8,
            )
        }
    }

    /// The drawing of the board as the given side sees it.
    pub open spec fn drawing(self, side: Color) -> Seq<char> {
        self.rows_drawing(side, 8)
    }

    /// Draws the board as an 8x8 ASCII string
    pub fn draw_ascii(&self, side: Color) -> (text: String)
        ensures
            text@ == self.drawing(side),
    {
        let mut text = String::new();
        let mut row: u8 = 0;
        while row < 8
            invariant
                row <= 8,
                text@ == self.rows_drawing(side, row as int),
            decreases 8 - row,
        {
            let rank = if side.is_black() {
                row
            } else {
                7 - row
            };
            if row > 0 {
                text.append("\n");
            }
            let ghost start = text@;
            let mut file: u8 = 0;
            while file < 8
                invariant
                    file <= 8,
                    rank < 8,
                    text@ == start + self.row_drawing(rank as int, file as int),
                decreases 8 - file,
            {
                let piece = self.get_piece(Position { file_x: file, rank_y: rank });
                text.append(square_text(piece));
                proof {
                    assert(text@ =~= start + self.row_drawing(rank as int, file as int + 1));
                }
                file = file + 1;
            }
            proof {
                reveal_strlit("\n");
                assert("\n"@ =~= seq!['\n']);
                assert(text@ =~= self.rows_drawing(side, row as int + 1));
            }
            row = row + 1;
        }
        text
    }
}

} // verus!
