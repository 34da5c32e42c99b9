use poirebot::bitboard::BitBoard;
use poirebot::game::pieces::pawn::get_pawn_moves_and_attacks;
use poirebot::game::pieces::Color;
use poirebot::game::position::Position;
use poirebot::game::Board;

fn sq(notation: &str) -> Position {
    Position::from_notation(notation).unwrap()
}

#[test]
fn test_get_pawn_moves_and_attacks_white() {
    let board =
        Board::from_fen("rn2k2r/pp2pp1p/8/2pPb1p1/1b3P1n/3qP1Pp/PP1P3P/RNBQKBNR w KQkq c6 0 1")
            .unwrap();

    // a2 can do single-step or double-step
    assert_eq!(
        get_pawn_moves_and_attacks(&board, Color::White, &BitBoard::from_position(sq("a2")))
            .to_positions(),
        vec![sq("a3"), sq("a4")] as Vec<Position>
    );

    // b2 can do single-step only
    assert_eq!(
        get_pawn_moves_and_attacks(&board, Color::White, &BitBoard::from_position(sq("b2")))
            .to_positions(),
        vec![sq("b3")] as Vec<Position>
    );

    // d2 cannot move
    assert_eq!(
        get_pawn_moves_and_attacks(&board, Color::White, &BitBoard::from_position(sq("d2")))
            .to_positions(),
        vec![] as Vec<Position>
    );

    // d5 can do en-passant or single-step
    assert_eq!(
        get_pawn_moves_and_attacks(&board, Color::White, &BitBoard::from_position(sq("d5")))
            .to_positions(),
        vec![sq("c6"), sq("d6")] as Vec<Position>
    );

    // e3 can do single-step
    assert_eq!(
        get_pawn_moves_and_attacks(&board, Color::White, &BitBoard::from_position(sq("e3")))
            .to_positions(),
        vec![sq("e4")] as Vec<Position>
    );

    // f4 can capture left, right, or single-step
    assert_eq!(
        get_pawn_moves_and_attacks(&board, Color::White, &BitBoard::from_position(sq("f4")))
            .to_positions(),
        vec![sq("e5"), sq("f5"), sq("g5")] as Vec<Position>
    );

    // g3 can capture right, or single-step
    assert_eq!(
        get_pawn_moves_and_attacks(&board, Color::White, &BitBoard::from_position(sq("g3")))
            .to_positions(),
        vec![sq("g4"), sq("h4")] as Vec<Position>
    );

    // test all pawn moves and attacks at once
    assert_eq!(
        get_pawn_moves_and_attacks(&board, Color::White, &board.white.pawns).to_positions(),
        vec![
            sq("a3"),
            sq("b3"),
            sq("a4"),
            sq("e4"),
            sq("g4"),
            sq("h4"),
            sq("e5"),
            sq("f5"),
            sq("g5"),
            sq("c6"),
            sq("d6"),
        ]
    );
}

#[test]
fn test_get_pawn_moves_and_attacks_black() {
    let board =
        Board::from_fen("rn2k2r/p4p1p/3P1b2/b7/5Ppn/pppqP1Pp/PP1P3P/RNBQKBNR b KQkq f3 0 1")
            .unwrap();

    // h7 can do single-step or double-step
    assert_eq!(
        get_pawn_moves_and_attacks(&board, Color::Black, &BitBoard::from_position(sq("h7")))
            .to_positions(),
        vec![sq("h5"), sq("h6")] as Vec<Position>
    );

    // h3 cannot move
    assert_eq!(
        get_pawn_moves_and_attacks(&board, Color::Black, &BitBoard::from_position(sq("h3")))
            .to_positions(),
        vec![] as Vec<Position>
    );

    // g4 can only do en-passant
    assert_eq!(
        get_pawn_moves_and_attacks(&board, Color::Black, &BitBoard::from_position(sq("g4")))
            .to_positions(),
        vec![sq("f3")] as Vec<Position>
    );

    // f7 cannot move
    assert_eq!(
        get_pawn_moves_and_attacks(&board, Color::Black, &BitBoard::from_position(sq("f7")))
            .to_positions(),
        vec![] as Vec<Position>
    );

    // c3 can capture left, right, or single-step
    assert_eq!(
        get_pawn_moves_and_attacks(&board, Color::Black, &BitBoard::from_position(sq("c3")))
            .to_positions(),
        vec![sq("b2"), sq("c2"), sq("d2")] as Vec<Position>
    );

    // b3 can capture left only
    assert_eq!(
        get_pawn_moves_and_attacks(&board, Color::Black, &BitBoard::from_position(sq("b3")))
            .to_positions(),
        vec![sq("a2")] as Vec<Position>
    );

    // a3 can capture right only
    assert_eq!(
        get_pawn_moves_and_attacks(&board, Color::Black, &BitBoard::from_position(sq("a3")))
            .to_positions(),
        vec![sq("b2")] as Vec<Position>
    );

    // test all pawn moves and attacks at once
    assert_eq!(
        get_pawn_moves_and_attacks(&board, Color::Black, &board.black.pawns).to_positions(),
        vec![
            sq("a2"),
            sq("b2"),
            sq("c2"),
            sq("d2"),
            sq("f3"),
            sq("h5"),
            sq("a6"),
            sq("h6"),
        ]
    );
}
