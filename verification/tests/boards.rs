use poirebot::bitboard::BitBoard;
use poirebot::game::pieces::king::{compile_king_moves, king_attacks, king_steps};
use poirebot::game::pieces::knight::{compile_knight_moves, knight_attacks, knight_steps};
use poirebot::game::pieces::queen::get_queen_sliding_moves;
use poirebot::game::pieces::sliding::{get_sliding_diagonal_moves, get_sliding_straight_moves};
use poirebot::game::pieces::{
    anti_diagonal_mask, anti_diagonal_through, diagonal_mask, diagonal_through, file_mask,
    get_castling_rook_move, is_pawn_two_step, offset, rank_mask, Color, Kind, Pieces, ANTI_DIAGONAL,
    FILE_A, FILE_B, FILE_H, MAIN_DIAGONAL, RANK_1, RANK_2, RANK_8,
};
use poirebot::game::moves::promotion_choices;
use poirebot::game::position::Position;
use poirebot::game::{Board, BoardSide, Move, Promotion};

fn p(notation: &str) -> Position {
    Position::from_notation(notation).unwrap()
}

fn names(board: BitBoard) -> Vec<String> {
    board.to_positions().iter().map(|s| s.to_notation()).collect()
}

#[test]
fn set_algebra() {
    let a = BitBoard(0b1100);
    let b = BitBoard(0b1010);
    assert_eq!(a & b, BitBoard(0b1000));
    assert_eq!(a | b, BitBoard(0b1110));
    assert_eq!(a ^ b, BitBoard(0b0110));
    assert_eq!(!a, BitBoard(!0b1100u64));
    assert_eq!(a.inverse(), BitBoard(!0b1100u64));
    assert_eq!(a << 2, BitBoard(0b110000));
    assert_eq!(a >> 2, BitBoard(0b11));
    assert_eq!(BitBoard(1 << 63) << 1, BitBoard(0));
    assert_eq!(BitBoard(1) >> 1, BitBoard(0));
    assert_eq!(a * BitBoard(2), BitBoard(0b11000));
    assert_eq!(BitBoard(1 << 63) * BitBoard(2), BitBoard(0));
    assert_eq!(BitBoard(0) - BitBoard(2), BitBoard(u64::MAX - 1));
    assert_eq!(BitBoard(0).wrapping_sub(BitBoard(1)), BitBoard(u64::MAX));
    assert_eq!(BitBoard(u64::MAX).wrapping_mul(BitBoard(2)), BitBoard(u64::MAX - 1));
    assert_eq!(BitBoard::new(5), BitBoard(5));
    assert_eq!(BitBoard::empty(), BitBoard(0));
    assert_eq!(BitBoard::default(), BitBoard(0));
    assert!(BitBoard(0).is_empty());
    assert!(!BitBoard(8).is_empty());
    assert!(BitBoard(8).contains(p("d1")));
    assert!(!BitBoard(8).contains(p("c1")));
}

#[test]
fn counting_and_walking() {
    assert_eq!(BitBoard(0).popcnt(), 0);
    assert_eq!(BitBoard(u64::MAX).popcnt(), 64);
    assert_eq!(BitBoard(0x8000_0000_0000_0001).popcnt(), 2);
    assert_eq!(BitBoard(0xFF00).popcnt(), 8);
    assert_eq!(BitBoard(0).to_position(), p("a1"));
    assert_eq!(BitBoard(0b110000).to_position(), p("e1"));
    assert_eq!(BitBoard(1 << 63).to_position(), p("h8"));
    let mut board = BitBoard(0b1010 | (1 << 40));
    assert_eq!(board.next(), Some(p("b1")));
    assert_eq!(board, BitBoard(0b1000 | (1 << 40)));
    assert_eq!(board.next(), Some(p("d1")));
    assert_eq!(board.next(), Some(p("a6")));
    assert_eq!(board.next(), None);
    assert_eq!(board, BitBoard(0));
    assert_eq!(
        BitBoard(0b1010 | (1 << 40)).split(),
        vec![BitBoard(0b10), BitBoard(0b1000), BitBoard(1 << 40)]
    );
    assert_eq!(BitBoard(0).split(), vec![]);
    assert_eq!(BitBoard(0).to_positions(), vec![]);
    assert_eq!(BitBoard(u64::MAX).to_positions().len(), 64);
    assert_eq!(
        BitBoard::from_positions(&vec![p("h8"), p("a1"), p("a1")]),
        BitBoard(1 | (1 << 63))
    );
    assert_eq!(BitBoard::from_positions(&vec![]), BitBoard(0));
    assert_eq!(BitBoard(0xFF00).to_size(8), 0xFF);
    assert_eq!(BitBoard(0xFF00).to_size(0), 0xFF00);
}

#[test]
fn positive_ray_subtracts_the_slider_from_the_blockers() {
    // a rook on a1, blockers on a4 and a7: the ray reaches a2, a3, a4
    let occupancy = BitBoard(1 | (1 << 24) | (1 << 48) | (1 << 9));
    let ray = occupancy.positive_ray(BitBoard(FILE_A), p("a1"));
    assert_eq!(names(ray), vec!["a2", "a3", "a4"]);
    // no blocker: up to the edge
    let ray = BitBoard(1 << 3).positive_ray(BitBoard(RANK_1), p("d1"));
    assert_eq!(names(ray), vec!["e1", "f1", "g1", "h1"]);
    // from the last square of the line nothing is left
    let ray = BitBoard(0).positive_ray(BitBoard(RANK_1), p("h1"));
    assert_eq!(ray, BitBoard(0));
    let ray = BitBoard(0).positive_ray(BitBoard(MAIN_DIAGONAL), p("h8"));
    assert_eq!(ray, BitBoard(0));
}

#[test]
fn lines_of_the_board() {
    assert_eq!(FILE_B, 0x0202_0202_0202_0202);
    assert_eq!(FILE_H, 0x8080_8080_8080_8080);
    assert_eq!(RANK_2, 0xFF00);
    assert_eq!(RANK_8, 0xFF00_0000_0000_0000);
    assert_eq!(file_mask(0), BitBoard(FILE_A));
    assert_eq!(file_mask(7), BitBoard(FILE_H));
    assert_eq!(rank_mask(0), BitBoard(RANK_1));
    assert_eq!(rank_mask(7), BitBoard(RANK_8));
    assert_eq!(diagonal_mask(7), BitBoard(MAIN_DIAGONAL));
    assert_eq!(anti_diagonal_mask(7), BitBoard(ANTI_DIAGONAL));
    assert_eq!(names(diagonal_mask(0)), vec!["h1"]);
    assert_eq!(names(diagonal_mask(14)), vec!["a8"]);
    assert_eq!(names(diagonal_mask(8)), vec!["a2", "b3", "c4", "d5", "e6", "f7", "g8"]);
    assert_eq!(names(anti_diagonal_mask(0)), vec!["a1"]);
    assert_eq!(names(anti_diagonal_mask(14)), vec!["h8"]);
    assert_eq!(names(anti_diagonal_mask(1)), vec!["b1", "a2"]);
    assert_eq!(names(diagonal_through(p("c1"))), vec!["c1", "d2", "e3", "f4", "g5", "h6"]);
    assert_eq!(names(anti_diagonal_through(p("c1"))), vec!["c1", "b2", "a3"]);
}

#[test]
fn offsets_drop_what_leaves_the_board() {
    let corners = BitBoard(1 | (1 << 7) | (1 << 56) | (1 << 63));
    assert_eq!(names(offset(corners, 1, 1)), vec!["b2"]);
    assert_eq!(names(offset(corners, -1, -1)), vec!["g7"]);
    assert_eq!(names(offset(corners, 2, 0)), vec!["c1", "c8"]);
    assert_eq!(names(offset(corners, -2, 1)), vec!["f2"]);
    assert_eq!(names(offset(corners, 0, 2)), vec!["a3", "h3"]);
    assert_eq!(names(offset(corners, 0, -2)), vec!["a6", "h6"]);
    assert_eq!(offset(corners, 0, 0), corners);
}

#[test]
fn knight_and_king_tables() {
    let knights = compile_knight_moves();
    let kings = compile_king_moves();
    assert_eq!(knights.len(), 64);
    assert_eq!(kings.len(), 64);
    assert_eq!(names(knights[0]), vec!["c2", "b3"]);
    assert_eq!(names(knights[63]), vec!["g6", "f7"]);
    assert_eq!(
        names(knights[27]),
        vec!["c2", "e2", "b3", "f3", "b5", "f5", "c6", "e6"]
    );
    assert_eq!(names(kings[0]), vec!["b1", "a2", "b2"]);
    assert_eq!(names(kings[7]), vec!["g1", "g2", "h2"]);
    assert_eq!(
        names(kings[27]),
        vec!["c3", "d3", "e3", "c4", "e4", "c5", "d5", "e5"]
    );
    for i in 0..64u8 {
        let square = Position::from_index(i);
        assert_eq!(knight_steps(square), knights[i as usize]);
        assert_eq!(king_steps(square), kings[i as usize]);
        assert!(knights[i as usize].popcnt() >= 2 && knights[i as usize].popcnt() <= 8);
        assert!(kings[i as usize].popcnt() >= 3 && kings[i as usize].popcnt() <= 8);
    }
    assert_eq!(
        knight_attacks(BitBoard(1 | (1 << 63))),
        knights[0] | knights[63]
    );
    assert_eq!(king_attacks(BitBoard(0)), BitBoard(0));
    assert_eq!(king_attacks(BitBoard(1 << 7)), kings[7]);
}

#[test]
fn sliders_in_a_crowd() {
    let board = Board::default();
    let rooks = board.white.rooks;
    assert_eq!(get_sliding_straight_moves(&board, Color::White, &rooks), BitBoard(0));
    assert_eq!(
        get_sliding_diagonal_moves(&board, Color::White, &board.white.bishops),
        BitBoard(0)
    );
    let open = Board::from_fen("4k3/8/8/8/3Q4/8/8/4K3 w - - 0 1").unwrap();
    let queen = get_queen_sliding_moves(&open, Color::White, &open.white.queens);
    assert_eq!(queen.popcnt(), 27);
    assert!(queen.contains(p("d8")) && queen.contains(p("h8")) && queen.contains(p("a1")));
    assert!(!queen.contains(p("d4")));
    // two rooks at once
    let two = Board::from_fen("4k3/8/8/8/8/8/8/R3K2R w - - 0 1").unwrap();
    let moves = get_sliding_straight_moves(&two, Color::White, &two.white.rooks);
    assert_eq!(
        names(moves),
        vec![
            "b1", "c1", "d1", "f1", "g1", "a2", "h2", "a3", "h3", "a4", "h4", "a5", "h5", "a6",
            "h6", "a7", "h7", "a8", "h8"
        ]
    );
}

#[test]
fn pieces_and_their_names() {
    let pawn = Pieces::Pawn(Color::White, p("e2"));
    assert_eq!(pawn.get_color(), Color::White);
    assert_eq!(pawn.get_position(), p("e2"));
    assert!(pawn.is_pawn() && pawn.is_white() && !pawn.is_black());
    assert!(!pawn.is_rook() && !pawn.is_knight() && !pawn.is_bishop());
    assert!(!pawn.is_queen() && !pawn.is_king());
    assert_eq!(pawn.to_letter_notation(), 'P');
    assert_eq!(pawn.to_unicode_symbol(), '♙');
    let king = Kind::King.piece(Color::Black, p("e8"));
    assert_eq!(king, Pieces::King(Color::Black, p("e8")));
    assert!(king.is_king() && king.is_black());
    assert_eq!(king.to_letter_notation(), 'k');
    assert_eq!(king.to_unicode_symbol(), '♚');
    assert_eq!(Pieces::Knight(Color::White, p("b1")).to_letter_notation(), 'N');
    assert_eq!(Pieces::Queen(Color::Black, p("d8")).to_unicode_symbol(), '♛');
    assert_eq!(Pieces::Rook(Color::White, p("a1")).to_unicode_symbol(), '♖');
    assert_eq!(Pieces::Bishop(Color::Black, p("c8")).to_letter_notation(), 'b');
    assert_eq!(Color::White.opposite(), Color::Black);
    assert_eq!(Color::Black.opposite(), Color::White);
    assert!(Color::Black.is_black() && !Color::Black.is_white());
    let board = Board::default();
    assert_eq!(board.get_piece_value(p("e2")), 1);
    assert_eq!(board.get_piece_value(p("b1")), 3);
    assert_eq!(board.get_piece_value(p("c8")), 3);
    assert_eq!(board.get_piece_value(p("h8")), 5);
    assert_eq!(board.get_piece_value(p("d1")), 8);
    assert_eq!(board.get_piece_value(p("e8")), 100);
    assert_eq!(board.get_piece_value(p("e4")), 0);
    assert_eq!(board.white.board(Kind::Pawn), board.white.pawns);
    assert_eq!(board.black.board(Kind::Queen), board.black.queens);
}

#[test]
fn castling_and_two_steps_are_recognised() {
    let rook = |m: &str| get_castling_rook_move(&Move::from_pure_notation(m).unwrap());
    let step = |m: &str| Some(Move::from_pure_notation(m).unwrap());
    assert_eq!(rook("e1c1"), step("a1d1"));
    assert_eq!(rook("e1g1"), step("h1f1"));
    assert_eq!(rook("e8c8"), step("a8d8"));
    assert_eq!(rook("e8g8"), step("h8f8"));
    assert_eq!(rook("e1d1"), None);
    assert_eq!(rook("e2g2"), None);
    assert_eq!(rook("d1b1"), None);
    assert_eq!(rook("e1g8"), None);
    assert_eq!(rook("e1g1q"), None);
    let two = |m: &str| is_pawn_two_step(&Move::from_pure_notation(m).unwrap());
    assert!(two("e2e4"));
    assert!(two("e7e5"));
    assert!(!two("e2e3"));
    assert!(!two("e3e5"));
    assert!(!two("e7e6"));
    assert_eq!(
        promotion_choices(Move::from_pure_notation("a7a8").unwrap())
            .iter()
            .map(|m| m.to_pure_notation())
            .collect::<Vec<String>>(),
        vec!["a7a8q", "a7a8r", "a7a8b", "a7a8n"]
    );
    assert_eq!(
        Move::from((p("a1"), p("a2"))),
        Move(p("a1"), p("a2"), Promotion::NoPromotion)
    );
}

#[test]
fn positions_step_and_stop_at_the_edge() {
    let e2 = p("e2");
    assert_eq!(e2.forwards(Color::White, 2), p("e4"));
    assert_eq!(e2.forwards(Color::Black, 1), p("e1"));
    assert_eq!(e2.forwards(Color::Black, 5), p("e1"));
    assert_eq!(e2.forwards(Color::White, 200), p("e8"));
    assert_eq!(e2.backwards(Color::White, 1), p("e1"));
    assert_eq!(e2.backwards(Color::Black, 3), p("e5"));
    assert_eq!(e2.flip(), p("e7"));
    assert_eq!(e2.distance_rank(&p("a7")), 5);
    assert_eq!(p("a7").distance_rank(&e2), 5);
    assert_eq!(e2.distance_rank(&e2), 0);
    assert_eq!(e2.to_int(), 12);
    assert_eq!(p("a1").to_int(), 0);
    assert_eq!(p("h8").to_int(), 63);
    assert_eq!(Position::from_index(12), e2);
}

#[test]
fn sides_are_kept_up_to_date() {
    let mut side = BoardSide::new(Color::White);
    assert_eq!(side.pieces, BitBoard(0));
    assert_eq!(side.color, Color::White);
    side.add(Pieces::Rook(Color::White, p("a1")));
    side.add(Pieces::King(Color::White, p("e1")));
    assert_eq!(side.pieces, BitBoard(1 | (1 << 4)));
    assert_eq!(side.get_piece(p("a1")), Some(Pieces::Rook(Color::White, p("a1"))));
    assert_eq!(side.get_piece(p("b1")), None);
    side.clear(p("a1"));
    assert_eq!(side.pieces, BitBoard(1 << 4));
    assert_eq!(side.rooks, BitBoard(0));
    let mut update = side;
    update.pawns = BitBoard(0xFF00);
    update.pieces = BitBoard(0);
    side.mutate(update);
    assert_eq!(side.pieces, BitBoard(0xFF00 | (1 << 4)));
    let flipped = side.flip();
    assert_eq!(flipped.color, Color::Black);
    assert_eq!(flipped.pawns, BitBoard(0x00FF_0000_0000_0000));
    assert_eq!(flipped.king, BitBoard(1 << 60));
    let mut board = Board::default();
    let white = board.white;
    let mut black = board.black;
    black.queens = BitBoard(0);
    board.mutate(white, black);
    assert_eq!(board.black.pieces.popcnt(), 15);
    assert_eq!(board.get_side(Color::Black).queens, BitBoard(0));
    board.get_side_mut(Color::White).king_has_moved = true;
    assert!(board.white.king_has_moved);
}

#[test]
fn drawings() {
    assert_eq!(
        BitBoard(0x8000_0000_0000_0001).to_text(),
        ". . . . . . . X \n. . . . . . . . \n. . . . . . . . \n. . . . . . . . \n\
         . . . . . . . . \n. . . . . . . . \n. . . . . . . . \nX . . . . . . . "
    );
    let board = Board::default();
    assert_eq!(
        board.draw_ascii(Color::White),
        "r n b q k b n r \np p p p p p p p \n. . . . . . . . \n. . . . . . . . \n\
         . . . . . . . . \n. . . . . . . . \nP P P P P P P P \nR N B Q K B N R "
    );
    assert_eq!(
        board.draw_ascii(Color::Black),
        "R N B Q K B N R \nP P P P P P P P \n. . . . . . . . \n. . . . . . . . \n\
         . . . . . . . . \n. . . . . . . . \np p p p p p p p \nr n b q k b n r "
    );
}
