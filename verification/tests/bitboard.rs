use poirebot::bitboard::BitBoard;
use poirebot::game::position::Position;

fn square(notation: &str) -> Position {
    Position::from_notation(notation).unwrap()
}

#[test]
fn test_bitboard() {
    let one_end = BitBoard::from_position(square("a1"));
    let other_end = BitBoard::from_position(square("h8"));
    let combined = one_end | other_end;

    assert_eq!(
        vec!["a1", "h8"],
        combined
            .to_positions()
            .into_iter()
            .map(|i| i.to_notation())
            .collect::<Vec<String>>()
    );
}
