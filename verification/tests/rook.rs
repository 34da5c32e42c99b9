use poirebot::bitboard::BitBoard;
use poirebot::game::pieces::rook::get_rook_sliding_moves;
use poirebot::game::pieces::Color;
use poirebot::game::position::Position;
use poirebot::game::Board;

fn cell(notation: &str) -> Position {
    Position::from_notation(notation).unwrap()
}

#[test]
fn test_get_white_rook_sliding_moves() {
    let board = Board::from_fen("7P/6P1/5P2/4P1R1/3P4/2P5/1P2b1r1/P7 w - - 0 1").unwrap();
    let moves = get_rook_sliding_moves(&board, Color::White, &BitBoard::from_position(cell("g5")));
    assert_eq!(
        moves.to_positions(),
        vec![
            cell("g2"),
            cell("g3"),
            cell("g4"),
            cell("f5"),
            cell("h5"),
            cell("g6"),
        ]
    );
}
