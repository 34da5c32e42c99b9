use poirebot::game::fen::DEFAULT_FEN;
use poirebot::game::Board;

#[test]
fn test_default_fen() {
    let parsed = Board::from_fen(DEFAULT_FEN).expect("failed to parse FEN");
    assert_eq!(parsed, Board::default());
}
