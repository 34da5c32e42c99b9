use poirebot::game::pieces::sliding::get_sliding_main_diagonal_moves;
use poirebot::game::pieces::Color;
use poirebot::game::position::Position;
use poirebot::game::{Board, Move};

#[test]
fn test_sliding_main_diagonal_north_moves() {
    let board = Board::from_fen("7P/6P1/5P2/4P1R1/3P4/2P1b3/1P6/P1r5 w - - 0 1").unwrap();
    let moves = get_sliding_main_diagonal_moves(
        board,
        Color::Black,
        Position::from_notation("e3").unwrap(),
    );
    assert_eq!(
        moves,
        vec![
            (Move::from_pure_notation("e3f4").unwrap(), 0),
            (Move::from_pure_notation("e3g5").unwrap(), 5),
            (Move::from_pure_notation("e3d2").unwrap(), 0),
        ]
    );
}
