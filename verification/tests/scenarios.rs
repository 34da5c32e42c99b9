use poirebot::bitboard::BitBoard;
use poirebot::game::pieces::bishop::get_bishop_sliding_moves;
use poirebot::game::pieces::{Color, Pieces};
use poirebot::game::position::Position;
use poirebot::game::{Board, Move, Promotion};

fn sq(notation: &str) -> Position {
    Position::from_notation(notation).unwrap()
}

fn mv(notation: &str) -> Move {
    Move::from_pure_notation(notation).unwrap()
}

#[test]
fn default_board_sanity() {
    let board = Board::default();
    assert_eq!(board.white.pawns, BitBoard(0x0000_0000_0000_FF00));
    assert_eq!(board.black.pawns, BitBoard(0x00FF_0000_0000_0000));
    assert_eq!(
        board.get_piece(sq("e1")),
        Some(Pieces::King(Color::White, sq("e1")))
    );
    assert_eq!(board.get_piece(sq("e4")), None);
    assert_eq!(board.count_pieces(), 32);
    assert_eq!(board.get_bitboard(), BitBoard(0xFFFF_0000_0000_FFFF));
    assert_eq!(board.white.unmoved_rooks, BitBoard(0x81));
    assert_eq!(board.black.unmoved_rooks, BitBoard(0x81 << 56));
    assert!(!board.white.king_has_moved && !board.black.king_has_moved);
    assert_eq!(board.get_pawns(Color::White).len(), 8);
    assert_eq!(
        board.get_pawns(Color::Black)[0],
        Pieces::Pawn(Color::Black, sq("a7"))
    );
}

#[test]
fn pawn_march_and_promotion() {
    let mut board = Board::default();
    for notation in ["a2a4", "a4a5", "a5a6", "a6b7", "b7a8q"] {
        assert!(board.can_apply_move(mv(notation)));
        board.apply_move(mv(notation));
    }
    assert_eq!(
        board.get_piece(sq("a8")),
        Some(Pieces::Queen(Color::White, sq("a8")))
    );
    assert_eq!(board.get_piece(sq("a7")), Some(Pieces::Pawn(Color::Black, sq("a7"))));
    assert_eq!(board.get_piece(sq("b7")), None);
    // the rook on a8 and the pawn on b7 are gone
    assert_eq!(board.black.rooks, BitBoard(1 << 63));
    assert_eq!(board.black.pawns.popcnt(), 7);
    assert_eq!(board.white.pawns.popcnt(), 7);
    assert_eq!(board.white.queens.popcnt(), 2);
    assert_eq!(board.count_pieces(), 30);
}

#[test]
fn under_promotion_is_honoured() {
    let mut board = Board::from_fen("7k/P7/8/8/8/8/8/7K w - - 0 1").unwrap();
    board.apply_move(Move(sq("a7"), sq("a8"), Promotion::Knight));
    assert_eq!(
        board.get_piece(sq("a8")),
        Some(Pieces::Knight(Color::White, sq("a8")))
    );
    assert!(board.white.pawns.is_empty());
}

#[test]
fn queenside_castling_both_sides() {
    let mut board = Board::from_fen("r3k3/8/8/8/8/8/8/R3K3 w Qq - 0 1").unwrap();
    assert_eq!(board.white.unmoved_rooks, BitBoard(1));
    assert_eq!(board.black.unmoved_rooks, BitBoard(1 << 56));
    board.apply_move(mv("e1c1"));
    board.apply_move(mv("e8c8"));
    assert_eq!(board.get_piece(sq("c1")), Some(Pieces::King(Color::White, sq("c1"))));
    assert_eq!(board.get_piece(sq("d1")), Some(Pieces::Rook(Color::White, sq("d1"))));
    assert_eq!(board.get_piece(sq("c8")), Some(Pieces::King(Color::Black, sq("c8"))));
    assert_eq!(board.get_piece(sq("d8")), Some(Pieces::Rook(Color::Black, sq("d8"))));
    assert_eq!(board.get_piece(sq("a1")), None);
    assert_eq!(board.get_piece(sq("e1")), None);
    assert!(board.white.king_has_moved);
    assert!(board.black.king_has_moved);
    assert!(board.white.unmoved_rooks.is_empty());
    assert!(board.black.unmoved_rooks.is_empty());
    assert_eq!(board.count_pieces(), 4);
}

#[test]
fn en_passant_black_captures() {
    let mut board =
        Board::from_fen("rnbqkbnr/ppp1pppp/8/8/3pP3/8/PPPP1PPP/RNBQKBNR b KQkq e3 0 1").unwrap();
    assert_eq!(board.white.en_passant_target, BitBoard::from_position(sq("e3")));
    assert!(board.black.en_passant_target.is_empty());
    board.apply_move(mv("d4e3"));
    assert_eq!(board.get_piece(sq("e3")), Some(Pieces::Pawn(Color::Black, sq("e3"))));
    assert_eq!(board.get_piece(sq("e4")), None);
    assert_eq!(board.get_piece(sq("d4")), None);
    assert!(board.white.en_passant_target.is_empty());
    assert!(board.black.en_passant_target.is_empty());
    assert_eq!(board.white.pawns.popcnt(), 7);
}

#[test]
fn two_step_opens_the_square_behind_for_one_move() {
    let mut board = Board::default();
    board.apply_move(mv("e2e4"));
    assert_eq!(board.white.en_passant_target, BitBoard::from_position(sq("e3")));
    board.apply_move(mv("g8f6"));
    assert!(board.white.en_passant_target.is_empty());
    assert!(board.black.en_passant_target.is_empty());
    board.apply_move(mv("e4e5"));
    assert!(board.white.en_passant_target.is_empty());
    board.apply_move(mv("d7d5"));
    assert_eq!(board.black.en_passant_target, BitBoard::from_position(sq("d6")));
    board.apply_move(mv("e5d6"));
    assert_eq!(board.get_piece(sq("d5")), None);
    assert_eq!(board.get_piece(sq("d6")), Some(Pieces::Pawn(Color::White, sq("d6"))));
    assert!(board.black.en_passant_target.is_empty());
}

#[test]
fn sliding_blocker_trick() {
    let board = Board::from_fen("7P/6P1/5P2/4P1R1/3P4/2P1b3/1P6/P1r5 b - - 0 1").unwrap();
    let moves =
        get_bishop_sliding_moves(&board, Color::Black, &BitBoard::from_position(sq("e3")));
    assert_eq!(
        moves.to_positions(),
        vec![sq("g1"), sq("d2"), sq("f2"), sq("d4"), sq("f4"), sq("g5")]
    );
}

#[test]
fn moving_a_rook_or_the_king_ends_the_right_to_castle() {
    let mut board = Board::from_fen("r3k2r/8/8/8/8/8/8/R3K2R w KQkq - 0 1").unwrap();
    board.apply_move(mv("h1h4"));
    assert_eq!(board.white.unmoved_rooks, BitBoard(1));
    assert!(!board.white.king_has_moved);
    board.apply_move(mv("e8e7"));
    assert!(board.black.king_has_moved);
    assert_eq!(board.black.unmoved_rooks, BitBoard((1 << 56) | (1 << 63)));
}

#[test]
fn moves_that_cannot_be_applied_are_told_apart() {
    let board = Board::default();
    // nothing stands on e4
    assert!(!board.can_apply_move(mv("e4e5")));
    // the rook would take its own pawn
    assert!(!board.can_apply_move(mv("a1a2")));
    // a move that stays where it is takes the mover itself
    assert!(!board.can_apply_move(mv("a1a1")));
    assert!(board.can_apply_move(mv("a1a5")));
    // the king cannot castle without its unmoved rook
    let board = Board::from_fen("4k3/8/8/8/8/8/8/4K2R w - - 0 1").unwrap();
    assert!(!board.can_apply_move(mv("e1g1")));
    let board = Board::from_fen("4k3/8/8/8/8/8/8/4K2R w K - 0 1").unwrap();
    assert!(board.can_apply_move(mv("e1g1")));
}
