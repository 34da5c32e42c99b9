use poirebot::game::position::Position;

#[test]
fn test_position_notation() {
    let position = Position::from_notation("a1").unwrap();
    assert_eq!(position.to_notation(), "a1");
    let position = Position::from_notation("b2").unwrap();
    assert_eq!(position.to_notation(), "b2");
    let position = Position::from_notation("h8").unwrap();
    assert_eq!(position.to_notation(), "h8");
}

#[test]
fn test_position_flip() {
    let position = Position::from_notation("a1").unwrap();
    assert_eq!(position.flip().to_notation(), "a8");
    let position = Position::from_notation("b2").unwrap();
    assert_eq!(position.flip().to_notation(), "b7");
    let position = Position::from_notation("h8").unwrap();
    assert_eq!(position.flip().to_notation(), "h1");
}
