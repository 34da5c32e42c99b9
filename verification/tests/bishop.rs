use poirebot::bitboard::BitBoard;
use poirebot::game::pieces::bishop;
use poirebot::game::pieces::Color;
use poirebot::game::position::Position;
use poirebot::game::Board;

fn place(notation: &str) -> Position {
    Position::from_notation(notation).unwrap()
}

#[test]
fn get_bishop_sliding_moves() {
    let board = Board::from_fen("7P/6P1/5P2/4P1R1/3P4/2P1b3/1P6/P1r5 b - - 0 1").unwrap();
    let moves = bishop::get_bishop_sliding_moves(
        &board,
        Color::Black,
        &BitBoard::from_position(place("e3")),
    );
    assert_eq!(
        moves.to_positions(),
        vec![
            place("g1"),
            place("d2"),
            place("f2"),
            place("d4"),
            place("f4"),
            place("g5"),
        ]
    );
}

#[test]
fn get_bishop_sliding_moves_2() {
    let board = Board::from_fen("rnb1k1nr/7p/7p/8/8/bppp1p2/3B4/1N1QKBNq w kq - 0 1").unwrap();
    let moves = bishop::get_bishop_sliding_moves(
        &board,
        Color::White,
        &BitBoard::from_position(place("f1")),
    );
    assert_eq!(
        moves.to_positions(),
        vec![place("e2"), place("g2"), place("d3"), place("h3"),]
    );
}
