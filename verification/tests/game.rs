use poirebot::game::pieces::{Color, Pieces};
use poirebot::game::position::Position;
use poirebot::game::{Board, Move, Promotion};

fn at(notation: &str) -> Position {
    Position::from_notation(notation).unwrap()
}

fn step(origin: &str, destination: &str) -> Move {
    Move(at(origin), at(destination), Promotion::NoPromotion)
}

#[test]
fn create_default_board() {
    let board = Board::default();

    // White Pawns
    assert!(board.get_piece(at("a2")).unwrap().is_pawn());
    assert!(board.get_piece(at("a2")).unwrap().is_white());
    assert!(board.get_piece(at("b2")).unwrap().is_pawn());
    assert!(board.get_piece(at("b2")).unwrap().is_white());
    assert!(board.get_piece(at("c2")).unwrap().is_pawn());
    assert!(board.get_piece(at("c2")).unwrap().is_white());
    assert!(board.get_piece(at("d2")).unwrap().is_pawn());
    assert!(board.get_piece(at("d2")).unwrap().is_white());
    assert!(board.get_piece(at("e2")).unwrap().is_pawn());
    assert!(board.get_piece(at("e2")).unwrap().is_white());
    assert!(board.get_piece(at("f2")).unwrap().is_pawn());
    assert!(board.get_piece(at("f2")).unwrap().is_white());
    assert!(board.get_piece(at("g2")).unwrap().is_pawn());
    assert!(board.get_piece(at("g2")).unwrap().is_white());
    assert!(board.get_piece(at("h2")).unwrap().is_pawn());
    assert!(board.get_piece(at("h2")).unwrap().is_white());

    // White Rooks
    assert!(board.get_piece(at("a1")).unwrap().is_rook());
    assert!(board.get_piece(at("a1")).unwrap().is_white());
    assert!(board.get_piece(at("h1")).unwrap().is_rook());
    assert!(board.get_piece(at("h1")).unwrap().is_white());

    // White Knights
    assert!(board.get_piece(at("b1")).unwrap().is_knight());
    assert!(board.get_piece(at("b1")).unwrap().is_white());
    assert!(board.get_piece(at("g1")).unwrap().is_knight());
    assert!(board.get_piece(at("g1")).unwrap().is_white());

    // White Bishops
    assert!(board.get_piece(at("c1")).unwrap().is_bishop());
    assert!(board.get_piece(at("c1")).unwrap().is_white());
    assert!(board.get_piece(at("f1")).unwrap().is_bishop());
    assert!(board.get_piece(at("f1")).unwrap().is_white());

    // White Queen
    assert!(board.get_piece(at("d1")).unwrap().is_queen());
    assert!(board.get_piece(at("d1")).unwrap().is_white());

    // White King
    assert!(board.get_piece(at("e1")).unwrap().is_king());
    assert!(board.get_piece(at("e1")).unwrap().is_white());

    // Black Pawns
    assert!(board.get_piece(at("a7")).unwrap().is_pawn());
    assert!(board.get_piece(at("a7")).unwrap().is_black());
    assert!(board.get_piece(at("b7")).unwrap().is_pawn());
    assert!(board.get_piece(at("b7")).unwrap().is_black());
    assert!(board.get_piece(at("c7")).unwrap().is_pawn());
    assert!(board.get_piece(at("c7")).unwrap().is_black());
    assert!(board.get_piece(at("d7")).unwrap().is_pawn());
    assert!(board.get_piece(at("d7")).unwrap().is_black());
    assert!(board.get_piece(at("e7")).unwrap().is_pawn());
    assert!(board.get_piece(at("e7")).unwrap().is_black());
    assert!(board.get_piece(at("f7")).unwrap().is_pawn());
    assert!(board.get_piece(at("f7")).unwrap().is_black());
    assert!(board.get_piece(at("g7")).unwrap().is_pawn());
    assert!(board.get_piece(at("g7")).unwrap().is_black());
    assert!(board.get_piece(at("h7")).unwrap().is_pawn());
    assert!(board.get_piece(at("h7")).unwrap().is_black());

    // Black Rooks
    assert!(board.get_piece(at("a8")).unwrap().is_rook());
    assert!(board.get_piece(at("a8")).unwrap().is_black());
    assert!(board.get_piece(at("h8")).unwrap().is_rook());
    assert!(board.get_piece(at("h8")).unwrap().is_black());

    // Black Knights
    assert!(board.get_piece(at("b8")).unwrap().is_knight());
    assert!(board.get_piece(at("b8")).unwrap().is_black());
    assert!(board.get_piece(at("g8")).unwrap().is_knight());
    assert!(board.get_piece(at("g8")).unwrap().is_black());

    // Black Bishops
    assert!(board.get_piece(at("c8")).unwrap().is_bishop());
    assert!(board.get_piece(at("c8")).unwrap().is_black());
    assert!(board.get_piece(at("f8")).unwrap().is_bishop());
    assert!(board.get_piece(at("f8")).unwrap().is_black());

    // Black Queen
    assert!(board.get_piece(at("d8")).unwrap().is_queen());
    assert!(board.get_piece(at("d8")).unwrap().is_black());

    // Black King
    assert!(board.get_piece(at("e8")).unwrap().is_king());
    assert!(board.get_piece(at("e8")).unwrap().is_black());
}

#[test]
fn move_and_capture_and_promote() {
    let mut board = Board::default();

    // Move white pawn and take b7 pawn
    board.apply_move(step("a2", "a4"));
    board.apply_move(step("a4", "a5"));
    board.apply_move(step("a5", "a6"));
    board.apply_move(step("a6", "b7"));

    let pawn = board.get_piece(at("b7")).expect("should have piece");
    assert_eq!(pawn.get_color(), Color::White);
    assert!(pawn.is_pawn());

    // Then take rook, which should promote
    board.apply_move(Move(at("b7"), at("a8"), Promotion::Queen));

    let promoted = board.get_piece(at("a8")).expect("should have piece");
    assert_eq!(promoted.get_color(), Color::White);
    assert!(promoted.is_queen());
}

#[test]
fn test_queenside_castling() {
    // Initialize with a board that has the queenside rooks and kings only.
    let board_fen = "r3k3/8/8/8/8/8/8/R3K3 w Qq - 0 1";
    let mut board = Board::from_fen(board_fen).unwrap();

    // White does queenside castle
    board.apply_move(step("e1", "c1"));
    assert_eq!(
        board.get_piece(at("c1")),
        Some(Pieces::King(Color::White, at("c1")))
    );
    assert_eq!(
        board.get_piece(at("d1")),
        Some(Pieces::Rook(Color::White, at("d1")))
    );

    // Black does queenside castle
    board.apply_move(step("e8", "c8"));
    assert_eq!(
        board.get_piece(at("c8")),
        Some(Pieces::King(Color::Black, at("c8")))
    );
    assert_eq!(
        board.get_piece(at("d8")),
        Some(Pieces::Rook(Color::Black, at("d8")))
    );
}

#[test]
fn test_kingside_castling() {
    // Initialize with a board that has the kingside rooks and kings only.
    let board_fen = "4k2r/8/8/8/8/8/8/4K2R w Kk - 0 1";
    let mut board = Board::from_fen(board_fen).unwrap();

    // White does kingside castle
    board.apply_move(step("e1", "g1"));
    assert_eq!(
        board.get_piece(at("g1")),
        Some(Pieces::King(Color::White, at("g1")))
    );
    assert_eq!(
        board.get_piece(at("f1")),
        Some(Pieces::Rook(Color::White, at("f1")))
    );

    // Black does kingside castle
    board.apply_move(step("e8", "g8"));
    assert_eq!(
        board.get_piece(at("g8")),
        Some(Pieces::King(Color::Black, at("g8")))
    );
    assert_eq!(
        board.get_piece(at("f8")),
        Some(Pieces::Rook(Color::Black, at("f8")))
    );
}

#[test]
fn test_black_en_passant() {
    // Initialize with a board with imminent en passant by black
    let board_fen = "rnbqkbnr/ppp1pppp/8/8/3pP3/8/PPPP1PPP/RNBQKBNR b KQkq e3 0 1";
    let mut board = Board::from_fen(board_fen).unwrap();

    // Do the en passant
    board.apply_move(step("d4", "e3"));
    assert_eq!(
        board.get_piece(at("e3")),
        Some(Pieces::Pawn(Color::Black, at("e3")))
    );
    assert_eq!(board.get_piece(at("e4")), None);
}

#[test]
fn test_white_en_passant() {
    // Initialize with a board with imminent en passant by white
    let board_fen = "rnbqkbnr/ppp5/4p3/2P2ppp/8/8/P4PPP/RNBQKBNR w KQkq b6 0 1";
    let mut board = Board::from_fen(board_fen).unwrap();

    // Do the en passant
    board.apply_move(step("b7", "b5"));
    board.apply_move(step("c5", "b6"));
    assert_eq!(
        board.get_piece(at("b6")),
        Some(Pieces::Pawn(Color::White, at("b6")))
    );
    assert_eq!(board.get_piece(at("b5")), None);
}
