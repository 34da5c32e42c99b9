use poirebot::game::moves::{attacks, generate_moves, is_in_check, is_sound};
use poirebot::game::position::Position;
use poirebot::game::{Board, Move, Promotion};
use poirebot::game::pieces::Color;
use poirebot::genius::{
    evaluate, list_legal_moves, list_potential_moves, negamax, Brain, Evaluation,
};

fn on(notation: &str) -> Position {
    Position::from_notation(notation).unwrap()
}

fn text(moves: &[Move]) -> Vec<String> {
    moves.iter().map(|m| m.to_pure_notation()).collect()
}

#[test]
fn default_board_has_twenty_moves() {
    let board = Board::default();
    assert!(is_sound(&board));
    assert_eq!(generate_moves(&board, Color::White).len(), 20);
    assert_eq!(generate_moves(&board, Color::Black).len(), 20);
    assert_eq!(list_legal_moves(&board, Color::White).len(), 20);
}

#[test]
fn pawn_moves_come_first_and_later_moves_before_earlier() {
    let board = Board::default();
    let generated = text(&generate_moves(&board, Color::White));
    assert_eq!(
        generated,
        vec![
            "a2a3", "a2a4", "b2b3", "b2b4", "c2c3", "c2c4", "d2d3", "d2d4", "e2e3", "e2e4",
            "f2f3", "f2f4", "g2g3", "g2g4", "h2h3", "h2h4", "b1a3", "b1c3", "g1f3", "g1h3",
        ]
    );
    let ordered = text(&list_potential_moves(&board, Color::White));
    assert_eq!(
        ordered,
        vec![
            "h2h4", "h2h3", "g2g4", "g2g3", "f2f4", "f2f3", "e2e4", "e2e3", "d2d4", "d2d3",
            "c2c4", "c2c3", "b2b4", "b2b3", "a2a4", "a2a3", "g1h3", "g1f3", "b1c3", "b1a3",
        ]
    );
}

#[test]
fn check_prevents_bad_move() {
    // The white knight on b4 is pinned by the black bishop on a5 along the
    // a5-e1 diagonal.
    let board = Board::from_fen("4k3/8/8/b7/1N6/8/8/4K3 w - - 0 1").unwrap();
    assert!(is_sound(&board));
    assert!(!is_in_check(&board, Color::White));
    let potential = text(&list_potential_moves(&board, Color::White));
    assert!(potential.contains(&"b4d5".to_string()));
    assert!(potential.contains(&"b4a6".to_string()));
    let legal = list_legal_moves(&board, Color::White);
    assert!(!legal.is_empty());
    for m in &legal {
        assert_ne!(m.0, on("b4"), "the pinned knight moved: {}", m.to_pure_notation());
        let mut outcome = board;
        outcome.apply_move(*m);
        assert!(!is_in_check(&outcome, Color::White));
    }
    // the knight shields d2 from the bishop
    assert_eq!(
        text(&legal),
        vec!["e1f2", "e1e2", "e1d2", "e1f1", "e1d1"]
    );
}

#[test]
fn attacks_of_a_lone_rook() {
    let board = Board::from_fen("4k3/8/8/8/8/8/8/R3K3 w - - 0 1").unwrap();
    let attacked = attacks(&board, Color::White);
    assert!(attacked.contains(on("a8")));
    assert!(attacked.contains(on("d1")));
    // the rook sees its own king but not beyond it
    assert!(attacked.contains(on("e1")));
    assert!(!attacked.contains(on("g1")));
    // the king attacks the squares around it
    assert!(attacked.contains(on("f1")));
    assert!(attacked.contains(on("f2")));
    assert!(!attacked.contains(on("h8")));
    assert!(is_in_check(
        &Board::from_fen("4k3/8/8/8/8/8/8/4RK2 b - - 0 1").unwrap(),
        Color::Black
    ));
}

#[test]
fn search_depth_two_prefers_the_capture() {
    // The rook on a1 can take the queen on a8; nothing else changes the
    // material.
    let board = Board::from_fen("q6k/8/8/8/8/8/7P/R6K w - - 0 1").unwrap();
    assert!(is_sound(&board));
    let (value, best) = negamax(
        &board,
        2,
        Evaluation::Worst,
        Evaluation::Best,
        Color::White,
        Color::White,
    );
    assert_eq!(best.unwrap().to_pure_notation(), "a1a8");
    assert!(value > Evaluation::Score(0));
}

#[test]
fn evaluation_is_material_difference() {
    let board = Board::default();
    assert_eq!(evaluate(Color::White, &board), Evaluation::Score(0));
    let board = Board::from_fen("q6k/8/8/8/8/8/7P/R6K w - - 0 1").unwrap();
    // white: rook 5, pawn 1, king 100; black: queen 8, king 100
    assert_eq!(evaluate(Color::White, &board), Evaluation::Score(-2));
    assert_eq!(evaluate(Color::Black, &board), Evaluation::Score(2));
    assert_eq!(board.piecewise_score(Color::Black), 2);
}

#[test]
fn evaluation_order_and_negation() {
    assert!(Evaluation::Worst < Evaluation::Score(i32::MIN + 1));
    assert!(Evaluation::Score(-1) < Evaluation::Score(1));
    assert!(Evaluation::Score(i32::MAX) < Evaluation::Best);
    assert!(Evaluation::Worst.at_most(Evaluation::Score(-5)));
    assert!(Evaluation::Score(3).better_than(Evaluation::Score(2)));
    assert!(!Evaluation::Score(2).better_than(Evaluation::Score(2)));
    assert_eq!(Evaluation::Worst.negated(), Evaluation::Best);
    assert_eq!(Evaluation::Best.negated(), Evaluation::Worst);
    assert_eq!(Evaluation::Score(7).negated(), Evaluation::Score(-7));
    assert_eq!(Evaluation::Score(7).max(Evaluation::Best), Evaluation::Best);
}

#[test]
fn no_moves_is_a_loss_for_the_side_to_move() {
    // Black is mated in the corner.
    let board = Board::from_fen("k7/1Q6/1K6/8/8/8/8/8 b - - 0 1").unwrap();
    assert!(list_legal_moves(&board, Color::Black).is_empty());
    let (value, best) = negamax(
        &board,
        3,
        Evaluation::Worst,
        Evaluation::Best,
        Color::Black,
        Color::Black,
    );
    assert_eq!(value, Evaluation::Worst);
    assert_eq!(best, None);
    let (value, _) = negamax(
        &board,
        3,
        Evaluation::Worst,
        Evaluation::Best,
        Color::Black,
        Color::White,
    );
    assert_eq!(value, Evaluation::Best);
}

#[test]
fn castling_is_listed_when_the_way_is_free_and_safe() {
    let board = Board::from_fen("r3k2r/8/8/8/8/8/8/R3K2R w KQkq - 0 1").unwrap();
    let moves = text(&generate_moves(&board, Color::White));
    assert!(moves.contains(&"e1g1".to_string()));
    assert!(moves.contains(&"e1c1".to_string()));
    // a black rook on f8 attacks f1: no castling on the king's side
    let board = Board::from_fen("r3kr2/8/8/8/8/8/8/R3K2R w KQq - 0 1").unwrap();
    let moves = text(&generate_moves(&board, Color::White));
    assert!(!moves.contains(&"e1g1".to_string()));
    assert!(moves.contains(&"e1c1".to_string()));
    // without the right to castle, none
    let board = Board::from_fen("r3k2r/8/8/8/8/8/8/R3K2R w kq - 0 1").unwrap();
    let moves = text(&generate_moves(&board, Color::White));
    assert!(!moves.contains(&"e1g1".to_string()));
    assert!(!moves.contains(&"e1c1".to_string()));
}

#[test]
fn pawn_reaching_the_last_rank_becomes_a_queen() {
    let board = Board::from_fen("7k/P7/8/8/8/8/8/7K w - - 0 1").unwrap();
    let moves = generate_moves(&board, Color::White);
    assert!(moves.contains(&Move(on("a7"), on("a8"), Promotion::Queen)));
    assert!(!moves.contains(&Move(on("a7"), on("a8"), Promotion::NoPromotion)));
}

#[test]
fn brain_plays_and_remembers() {
    let mut brain = Brain::new(Board::default(), Color::Black);
    let m = Move::from_pure_notation("e2e4").unwrap();
    assert!(brain.accepts(m));
    assert!(!brain.accepts(Move::from_pure_notation("e3e4").unwrap()));
    brain.opponent_move(m);
    assert_eq!(brain.opponent_last_move, Some(m));
    assert_eq!(brain.last_move, None);
    assert!(brain.is_ready());
    let reply = Move::from_pure_notation("e7e5").unwrap();
    assert!(brain.accepts(reply));
    brain.own_move(reply);
    assert_eq!(brain.last_move, Some(reply));
    assert_eq!(brain.board.count_pieces(), 32);
}
