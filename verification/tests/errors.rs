use poirebot::game::fen::FenError;
use poirebot::game::pieces::Color;
use poirebot::game::position::{Position, PositionError};
use poirebot::game::{Board, Move, MoveError, Promotion};
use poirebot::session::{parse_moves, set_board, SetupError};

#[test]
fn position_errors() {
    assert_eq!(Position::new(8, 0), Err(PositionError::InvalidFile(8)));
    assert_eq!(Position::new(200, 9), Err(PositionError::InvalidFile(200)));
    assert_eq!(Position::new(7, 8), Err(PositionError::InvalidRank(8)));
    assert_eq!(Position::new(7, 7), Ok(Position { file_x: 7, rank_y: 7 }));
    assert_eq!(Position::new(0, 0), Ok(Position { file_x: 0, rank_y: 0 }));
    assert_eq!(Position::from_notation(""), Err(PositionError::InvalidNotation));
    assert_eq!(Position::from_notation("a"), Err(PositionError::InvalidNotation));
    assert_eq!(Position::from_notation("a10"), Err(PositionError::InvalidNotation));
    assert_eq!(Position::from_notation("i1"), Err(PositionError::InvalidNotationFile));
    assert_eq!(Position::from_notation("A1"), Err(PositionError::InvalidNotationFile));
    assert_eq!(Position::from_notation("a9"), Err(PositionError::InvalidNotationRank));
    assert_eq!(Position::from_notation("a0"), Err(PositionError::InvalidNotationRank));
    assert_eq!(Position::from_notation("z0"), Err(PositionError::InvalidNotationFile));
    assert_eq!(Position::from_notation("c6"), Ok(Position { file_x: 2, rank_y: 5 }));
}

#[test]
fn move_errors() {
    assert_eq!(Move::from_pure_notation(""), Err(MoveError::InvalidLength));
    assert_eq!(Move::from_pure_notation("e2e"), Err(MoveError::InvalidLength));
    assert_eq!(Move::from_pure_notation("e2e4qq"), Err(MoveError::InvalidLength));
    assert_eq!(
        Move::from_pure_notation("x2e4"),
        Err(MoveError::InvalidOrigin(PositionError::InvalidNotationFile))
    );
    assert_eq!(
        Move::from_pure_notation("e9e4"),
        Err(MoveError::InvalidOrigin(PositionError::InvalidNotationRank))
    );
    assert_eq!(
        Move::from_pure_notation("e2e0"),
        Err(MoveError::InvalidDestination(PositionError::InvalidNotationRank))
    );
    assert_eq!(
        Move::from_pure_notation("e2k4"),
        Err(MoveError::InvalidDestination(PositionError::InvalidNotationFile))
    );
    assert_eq!(Move::from_pure_notation("e7e8k"), Err(MoveError::InvalidPromotion));
    assert_eq!(Move::from_pure_notation("e7e8Q"), Err(MoveError::InvalidPromotion));
    assert_eq!(
        Move::from_pure_notation("e7e8r"),
        Ok(Move(
            Position { file_x: 4, rank_y: 6 },
            Position { file_x: 4, rank_y: 7 },
            Promotion::Rook
        ))
    );
    assert_eq!(Promotion::from_notation("b"), Promotion::Bishop);
    assert_eq!(Promotion::from_notation("n"), Promotion::Knight);
    assert_eq!(Promotion::from_notation("x"), Promotion::NoPromotion);
    assert_eq!(Promotion::from_notation(""), Promotion::NoPromotion);
    assert_eq!(Promotion::from_notation("qq"), Promotion::NoPromotion);
    assert_eq!(Promotion::default(), Promotion::NoPromotion);
    assert_eq!(Promotion::Queen.to_notation(), "q");
    assert_eq!(Promotion::NoPromotion.to_notation(), "");
}

#[test]
fn fen_errors() {
    let parse = |text: &str| Board::from_fen(text).map(|_| ());
    assert_eq!(parse(""), Err(FenError::NoPiecePlacement));
    assert_eq!(parse("   \t "), Err(FenError::NoPiecePlacement));
    assert_eq!(parse("8/8/8/8/8/8/8 w - - 0 1"), Err(FenError::WrongRankCount));
    assert_eq!(parse("8/8/8/8/8/8/8/8/8 w - - 0 1"), Err(FenError::WrongRankCount));
    // the ranks are counted before they are read
    assert_eq!(parse("x/8 w - - 0 1"), Err(FenError::WrongRankCount));
    assert_eq!(parse("8/8/8/8/8/8/8/7x w - - 0 1"), Err(FenError::InvalidPiece));
    assert_eq!(parse("8/8/8/8/8/8/8/7 w - - 0 1"), Err(FenError::IncompleteRank));
    assert_eq!(parse("8/8/8/8/8/8/8/9 w - - 0 1"), Err(FenError::IncompleteRank));
    assert_eq!(parse("8/8/8/8/8/8/8/ppppppppp w - - 0 1"), Err(FenError::IncompleteRank));
    assert_eq!(parse("7/8/8/8/8/8/8/8 w - - 0 1"), Err(FenError::IncompleteRank));
    assert_eq!(parse("8/8/8/8/8/8/8/8"), Err(FenError::NoActiveColor));
    assert_eq!(parse("8/8/8/8/8/8/8/8 w"), Err(FenError::NoCastlingAvailability));
    assert_eq!(parse("8/8/8/8/8/8/8/8 w -"), Err(FenError::NoEnPassantTarget));
    assert_eq!(
        parse("8/8/8/8/8/8/8/8 w - e 0 1"),
        Err(FenError::InvalidEnPassantTarget(PositionError::InvalidNotation))
    );
    assert_eq!(
        parse("8/8/8/8/8/8/8/8 w - j3 0 1"),
        Err(FenError::InvalidEnPassantTarget(PositionError::InvalidNotationFile))
    );
    assert_eq!(
        parse("8/8/8/8/8/8/8/8 w - e9 0 1"),
        Err(FenError::InvalidEnPassantTarget(PositionError::InvalidNotationRank))
    );
    assert_eq!(parse("8/8/8/8/8/8/8/8 w - e4 0 1"), Err(FenError::ImpossibleEnPassantTarget));
    assert_eq!(parse("8/8/8/8/8/8/8/8 w - e3"), Err(FenError::NoHalfMoveClock));
    assert_eq!(parse("8/8/8/8/8/8/8/8 w - e6 0"), Err(FenError::NoFullMoveClock));
    assert_eq!(parse("8/8/8/8/8/8/8/8 w - - 0 1"), Ok(()));
    assert_eq!(parse("  8/8/8/8/8/8/8/8   b   -  e6\t0\n1  and more"), Ok(()));
}

#[test]
fn fen_fields_are_taken_in() {
    assert_eq!(Board::from_fen("startpos"), Ok(Board::default()));
    let board = Board::from_fen("4k3/8/8/8/8/8/8/4K3 w Kq e3 12 34").unwrap();
    assert_eq!(board.white.unmoved_rooks.0, 1 << 7);
    assert_eq!(board.black.unmoved_rooks.0, 1 << 56);
    assert_eq!(board.white.en_passant_target.0, 1 << 20);
    assert_eq!(board.black.en_passant_target.0, 0);
    assert_eq!(board.white.king.0, 1 << 4);
    assert_eq!(board.black.king.0, 1 << 60);
    assert_eq!(board.white.pieces.0, 1 << 4);
    assert_eq!(board.white.color, Color::White);
    assert_eq!(board.black.color, Color::Black);
    let board = Board::from_fen("4k3/8/8/8/8/8/8/4K3 b - c6 0 1").unwrap();
    assert_eq!(board.white.en_passant_target.0, 0);
    assert_eq!(board.black.en_passant_target.0, 1 << 42);
    assert!(board.white.unmoved_rooks.is_empty());
    let board = Board::from_fen("1n2k3/8/8/8/8/8/2P5/4K2Q w - - 0 1").unwrap();
    assert_eq!(board.black.knights.0, 1 << 57);
    assert_eq!(board.white.pawns.0, 1 << 10);
    assert_eq!(board.white.queens.0, 1 << 7);
}

#[test]
fn setup_errors() {
    let moves = parse_moves("e2e4 e7e5").unwrap();
    assert_eq!(
        set_board("nonsense", &moves, Color::White).map(|_| ()),
        Err(SetupError::Position(FenError::WrongRankCount))
    );
    assert_eq!(
        set_board("", &moves, Color::White).map(|_| ()),
        Err(SetupError::Position(FenError::NoPiecePlacement))
    );
    let moves = parse_moves("e2e4 e3e5").unwrap();
    assert_eq!(
        set_board("startpos", &moves, Color::White).map(|_| ()),
        Err(SetupError::Move(1))
    );
    let off_board = vec![Move(
        Position { file_x: 9, rank_y: 1 },
        Position { file_x: 0, rank_y: 2 },
        Promotion::NoPromotion,
    )];
    assert_eq!(
        set_board("startpos", &off_board, Color::White).map(|_| ()),
        Err(SetupError::Move(0))
    );
    assert_eq!(
        parse_moves("e2e4 e7e9"),
        Err(MoveError::InvalidDestination(PositionError::InvalidNotationRank))
    );
    assert_eq!(parse_moves("e2e4 e7"), Err(MoveError::InvalidLength));
}
