use poirebot::bitboard::BitBoard;
use poirebot::game::moves::{is_in_check, is_sound};
use poirebot::game::pieces::sliding::{bishop_rays, rook_rays};
use poirebot::game::pieces::Color;
use poirebot::game::position::Position;
use poirebot::game::{Board, Move, Promotion};
use poirebot::genius::list_legal_moves;

fn all_squares() -> Vec<Position> {
    (0..64u8).map(Position::from_index).collect()
}

#[test]
fn no_square_holds_two_pieces() {
    let mut board = Board::default();
    let line = ["e2e4", "d7d5", "e4d5", "d8d5", "b1c3", "d5e5", "f1e2", "c8g4"];
    for notation in line {
        board.apply_move(Move::from_pure_notation(notation).unwrap());
        for square in all_squares() {
            let boards = [
                board.white.pawns,
                board.white.rooks,
                board.white.knights,
                board.white.bishops,
                board.white.queens,
                board.white.king,
                board.black.pawns,
                board.black.rooks,
                board.black.knights,
                board.black.bishops,
                board.black.queens,
                board.black.king,
            ];
            let holders = boards.iter().filter(|b| b.contains(square)).count();
            assert!(holders <= 1);
            assert_eq!(holders == 1, board.get_bitboard().contains(square));
        }
    }
}

#[test]
fn piece_count_never_grows_in_a_legal_game() {
    let mut board = Board::default();
    let mut color = Color::White;
    let mut count = board.count_pieces();
    assert_eq!(count, 32);
    // always play the first legal move that takes something, if there is
    // one, and the first legal move otherwise
    for _ in 0..60 {
        assert!(is_sound(&board));
        let moves = list_legal_moves(&board, color);
        if moves.is_empty() {
            break;
        }
        let taking = moves
            .iter()
            .find(|m| board.get_piece(m.1).is_some())
            .copied()
            .unwrap_or(moves[0]);
        assert!(board.can_apply_move(taking));
        board.apply_move(taking);
        assert!(!is_in_check(&board, color));
        let now = board.count_pieces();
        assert!(now <= count);
        assert!(now >= 2);
        assert_eq!(board.white.king.popcnt(), 1);
        assert_eq!(board.black.king.popcnt(), 1);
        count = now;
        color = color.opposite();
    }
    assert!(count < 32);
}

#[test]
fn a_square_is_one_square() {
    for square in all_squares() {
        let board = BitBoard::from_position(square);
        assert_eq!(board.popcnt(), 1);
        assert_eq!(board.to_position(), square);
        assert_eq!(BitBoard::from(square), board);
        assert_eq!(board.0, 1u64 << square.to_int());
    }
    assert_eq!(BitBoard::from(Position { file_x: 8, rank_y: 0 }), BitBoard(0));
}

#[test]
fn mirrors_undo_themselves() {
    let samples = [
        0u64,
        1,
        0x8000_0000_0000_0000,
        0x0123_4567_89AB_CDEF,
        0xFFFF_0000_0000_00FF,
        0x8040_2010_0804_0201,
        u64::MAX,
    ];
    for word in samples {
        let b = BitBoard(word);
        assert_eq!(b.reverse_colors().reverse_colors(), b);
        assert_eq!(b.mirror_horizontally().mirror_horizontally(), b);
        assert_eq!(b.flip_diagonally().flip_diagonally(), b);
        assert_eq!(b.flip_anti_diagonally().flip_anti_diagonally(), b);
        assert_eq!(b.rotate(), b.reverse_colors().mirror_horizontally());
        assert_eq!(b.reverse_colors().0, word.swap_bytes());
        assert_eq!(b.rotate().0, word.reverse_bits());
    }
    // a1 goes to a8, h1, h8, a1 and h8
    let a1 = BitBoard(1);
    assert_eq!(a1.reverse_colors(), BitBoard(1 << 56));
    assert_eq!(a1.mirror_horizontally(), BitBoard(1 << 7));
    assert_eq!(a1.rotate(), BitBoard(1 << 63));
    assert_eq!(a1.flip_diagonally(), BitBoard(1));
    assert_eq!(a1.flip_anti_diagonally(), BitBoard(1 << 63));
    // b1 goes to a2 about the a1-h8 line and to h7 about the a8-h1 line
    let b1 = BitBoard(2);
    assert_eq!(b1.flip_diagonally(), BitBoard(1 << 8));
    assert_eq!(b1.flip_anti_diagonally(), BitBoard(1 << 55));
}

#[test]
fn notation_reads_back() {
    for square in all_squares() {
        assert_eq!(Position::from_notation(&square.to_notation()), Ok(square));
    }
    let promotions = [
        Promotion::NoPromotion,
        Promotion::Queen,
        Promotion::Rook,
        Promotion::Bishop,
        Promotion::Knight,
    ];
    for origin in all_squares() {
        for destination in [Position::from_index(0), Position::from_index(37), origin] {
            for promotion in promotions {
                let m = Move(origin, destination, promotion);
                assert_eq!(Move::from_pure_notation(&m.to_pure_notation()), Ok(m));
            }
        }
    }
    let m = Move::from_pure_notation("e7e8q").unwrap();
    assert_eq!(m.2, Promotion::Queen);
    assert_eq!(m.to_pure_notation(), "e7e8q");
    assert_eq!(m.with_promotion(Promotion::Knight).to_pure_notation(), "e7e8n");
}

/// Walks from a square along a direction until the first occupied square,
/// which it includes.
fn walk(occupancy: BitBoard, from: Position, df: i8, dr: i8) -> Vec<Position> {
    let mut reached = Vec::new();
    let mut file = from.file_x as i8 + df;
    let mut rank = from.rank_y as i8 + dr;
    while (0..8).contains(&file) && (0..8).contains(&rank) {
        let square = Position { file_x: file as u8, rank_y: rank as u8 };
        reached.push(square);
        if occupancy.contains(square) {
            break;
        }
        file += df;
        rank += dr;
    }
    reached
}

#[test]
fn rays_are_walks_to_the_first_blocker() {
    let occupancies = [
        0u64,
        0x0000_0010_0800_4200,
        0xFFFF_0000_0000_FFFF,
        0x8142_2418_1824_4281,
        0x00FF_00FF_00FF_00FF,
        u64::MAX,
    ];
    for word in occupancies {
        let occupancy = BitBoard(word);
        for square in all_squares() {
            let mut straight = Vec::new();
            for (df, dr) in [(0, 1), (0, -1), (1, 0), (-1, 0)] {
                straight.extend(walk(occupancy, square, df, dr));
            }
            let mut diagonal = Vec::new();
            for (df, dr) in [(1, 1), (-1, -1), (-1, 1), (1, -1)] {
                diagonal.extend(walk(occupancy, square, df, dr));
            }
            assert_eq!(rook_rays(occupancy, square), BitBoard::from_positions(&straight));
            assert_eq!(bishop_rays(occupancy, square), BitBoard::from_positions(&diagonal));
        }
    }
}
