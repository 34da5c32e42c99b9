use poirebot::game::pieces::king::get_king_steps;
use poirebot::game::pieces::Color;
use poirebot::game::position::Position;
use poirebot::game::Board;

fn spot(notation: &str) -> Position {
    Position::from_notation(notation).unwrap()
}

#[test]
fn test_generate_king_moves() {
    let board =
        Board::from_fen("rnbqk2r/4Pppp/5bn1/4p3/8/p3P3/P1Q2PPP/RNB1KBNR b KQkq - 0 1").unwrap();
    let king = board.black.king.to_position();
    let moves = get_king_steps(&board, Color::Black, king);

    assert_eq!(
        moves.to_positions(),
        vec![spot("d7"), spot("e7"), spot("f8"),]
    )
}
