use poirebot::game::pieces::Color;
use poirebot::game::{Board, Move};
use poirebot::genius::Brain;
use poirebot::session::{
    accepts_challenge, ascii_art, asks_following, challenge_message, draw_offer, is_bot_white,
    is_bots_turn, is_own_challenge, last_move, last_move_color, last_moves, on_move, parse_moves,
    rematch_level, rematch_opponent, same_text, set_board, Config, MoveAction, Player,
};

fn config() -> Config {
    Config {
        username: "poirebot".to_string(),
        no_accept: false,
        rematch: false,
        stockfish: 1,
        stockfish_max: 3,
        following_only: false,
    }
}

fn go(notation: &str) -> Move {
    Move::from_pure_notation(notation).unwrap()
}

#[test]
fn who_is_white() {
    assert!(is_bot_white(&Player::User("poirebot".to_string()), "poirebot"));
    assert!(!is_bot_white(&Player::User("someone".to_string()), "poirebot"));
    assert!(!is_bot_white(&Player::User("poirebo".to_string()), "poirebot"));
    assert!(!is_bot_white(&Player::Computer(3), "poirebot"));
    assert!(same_text("", ""));
    assert!(!same_text("a", "b"));
    assert!(!same_text("a", "ab"));
    assert!(is_own_challenge("poirebot", &config()));
    assert!(!is_own_challenge("Poirebot", &config()));
}

#[test]
fn which_challenges_are_accepted() {
    let mut c = config();
    assert!(!asks_following(&c));
    assert!(accepts_challenge(&c, false));
    c.following_only = true;
    assert!(asks_following(&c));
    assert!(!accepts_challenge(&c, false));
    assert!(accepts_challenge(&c, true));
    c.no_accept = true;
    assert!(!asks_following(&c));
    assert!(!accepts_challenge(&c, true));
    assert_eq!(
        challenge_message(&c),
        "I am not accepting challenges, but here is my profile:"
    );
    assert_eq!(challenge_message(&config()), "Send me a challenge on Lichess:");
}

#[test]
fn banner() {
    let lines = ascii_art(&config());
    assert_eq!(
        lines,
        vec![
            "",
            "  _/|",
            " // o\\     Hello, this is poirebot!",
            " || ._)    Send me a challenge on Lichess:",
            " //__\\     https://lichess.org/@/poirebot",
            " )___(",
            "",
        ]
    );
}

#[test]
fn rematches() {
    assert_eq!(rematch_level(1, 3), 2);
    assert_eq!(rematch_level(2, 3), 3);
    assert_eq!(rematch_level(3, 3), 3);
    assert_eq!(rematch_level(255, 255), 255);
    assert_eq!(rematch_level(0, 0), 0);
    let me = Player::User("poirebot".to_string());
    let you = Player::User("someone".to_string());
    let it = Player::Computer(4);
    let name = |p: Player| match p {
        Player::User(name) => name,
        Player::Computer(level) => format!("level {}", level),
    };
    assert_eq!(name(rematch_opponent(me.clone(), you.clone(), &config())), "someone");
    assert_eq!(name(rematch_opponent(you.clone(), me.clone(), &config())), "someone");
    assert_eq!(name(rematch_opponent(it.clone(), me.clone(), &config())), "level 4");
    assert_eq!(name(rematch_opponent(me, it, &config())), "level 4");
}

#[test]
fn turns_and_draws() {
    assert_eq!(draw_offer(true, true), Some(Color::Black));
    assert_eq!(draw_offer(true, false), Some(Color::Black));
    assert_eq!(draw_offer(false, true), Some(Color::White));
    assert_eq!(draw_offer(false, false), None);
    assert_eq!(last_move_color(1), Color::White);
    assert_eq!(last_move_color(2), Color::Black);
    assert_eq!(last_move_color(0), Color::Black);
    assert!(is_bots_turn(Color::White, 0));
    assert!(!is_bots_turn(Color::Black, 0));
    assert!(is_bots_turn(Color::Black, 1));
    assert!(!is_bots_turn(Color::White, 1));
    assert!(is_bots_turn(Color::White, 2));
}

#[test]
fn last_moves_of_a_list() {
    let moves = vec![go("e2e4"), go("e7e5"), go("g1f3")];
    assert_eq!(last_moves(&moves, true), (Some(go("e7e5")), Some(go("g1f3"))));
    assert_eq!(last_moves(&moves, false), (Some(go("g1f3")), Some(go("e7e5"))));
    assert_eq!(last_moves(&moves[..1].to_vec(), true), (None, Some(go("e2e4"))));
    assert_eq!(last_moves(&moves[..1].to_vec(), false), (Some(go("e2e4")), None));
    assert_eq!(last_moves(&Vec::new(), true), (None, None));
    assert_eq!(last_move("e2e4 e7e5 g1f3"), "g1f3");
    assert_eq!(last_move("e2e4"), "e2e4");
    assert_eq!(last_move(""), "");
    assert_eq!(last_move("e2e4 "), "");
}

#[test]
fn move_lists() {
    assert_eq!(parse_moves(""), Ok(vec![]));
    assert_eq!(parse_moves("   "), Ok(vec![]));
    assert_eq!(parse_moves("e2e4"), Ok(vec![go("e2e4")]));
    assert_eq!(
        parse_moves("e2e4  e7e5 a7a8q "),
        Ok(vec![go("e2e4"), go("e7e5"), go("a7a8q")])
    );
}

#[test]
fn what_a_reported_move_asks_for() {
    let mut brain = Brain::new(Board::default(), Color::White);
    let e4 = go("e2e4");
    let e5 = go("e7e5");
    assert_eq!(on_move(&brain, e4, Color::White, false), MoveAction::Own);
    brain.own_move(e4);
    assert_eq!(on_move(&brain, e4, Color::White, false), MoveAction::Ignore);
    assert_eq!(on_move(&brain, e5, Color::Black, false), MoveAction::OpponentReply);
    assert_eq!(on_move(&brain, e5, Color::Black, true), MoveAction::OpponentLast);
    brain.opponent_move(e5);
    assert_eq!(on_move(&brain, e5, Color::Black, false), MoveAction::Ignore);
    assert_eq!(on_move(&brain, e5, Color::Black, true), MoveAction::Ignore);
    assert_eq!(on_move(&brain, e5, Color::White, true), MoveAction::Own);
}

#[test]
fn a_game_is_set_up_from_its_moves() {
    let moves = parse_moves("e2e4 e7e5 g1f3").unwrap();
    let brain = set_board("startpos", &moves, Color::Black).unwrap();
    assert_eq!(brain.color, Color::Black);
    assert_eq!(brain.last_move, Some(go("e7e5")));
    assert_eq!(brain.opponent_last_move, Some(go("g1f3")));
    let mut board = Board::default();
    for m in &moves {
        board.apply_move(*m);
    }
    assert_eq!(brain.board, board);
    let brain = set_board("startpos", &moves, Color::White).unwrap();
    assert_eq!(brain.last_move, Some(go("g1f3")));
    assert_eq!(brain.opponent_last_move, Some(go("e7e5")));
    let brain = set_board("4k3/8/8/8/8/8/8/4K3 w - - 0 1", &Vec::new(), Color::White).unwrap();
    assert_eq!(brain.board.count_pieces(), 2);
    assert_eq!(brain.choose_move().unwrap().0, go("e1e2").0);
}
