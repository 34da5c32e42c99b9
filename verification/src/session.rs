//! What the engine decides while it plays games for an account: whom to
//! play against, whose turn it is, and what a message about a game asks it
//! to do. Talking to the chess service is left to the caller.
use crate::game::fen::{board_of_fen, skip_field, skip_spaces, FenError};
use crate::game::pieces::Color;
use crate::game::play::position_after;
use crate::game::{parse_move, Board, Move, MoveError};
use crate::genius::Brain;
use vstd::prelude::*;
use vstd::string::*;

verus! {

/// Configures the bot.
#[derive(Debug, Clone)]
pub struct Config {
    /// The username of the bot's account.
    pub username: String,
    /// If true, does not accept any incoming challenge.
    pub no_accept: bool,
    /// Whether to send rematch after each game.
    pub rematch: bool,
    /// The Stockfish level to play against (if applicable).
    pub stockfish: u8,
    /// The maximum stockfish level to play against (if applicable).
    pub stockfish_max: u8,
    /// Whether to only accept from users the bot account follows.
    pub following_only: bool,
}

/// Who plays one side of a game.
#[derive(Debug, Clone)]
pub enum Player {
    /// An account, by its username.
    User(String),
    /// The service's own engine, by its level.
    Computer(u8),
}

/// Whether two texts are the same.
pub fn same_text(a: &str, b: &str) -> (same: bool)
    ensures
        same == (a@ == b@),
{
    let len = a.unicode_len();
    if len != b.unicode_len() {
        return false;
    }
    let mut i: usize = 0;
    while i < len
        invariant
            len == a@.len(),
            len == b@.len(),
            i <= len,
            forall|k: int| 0 <= k < i ==> a@[k] == b@[k],
        decreases len - i,
    {
        if a.get_char(i) != b.get_char(i) {
            return false;
        }
        i = i + 1;
    }
    assert(a@ =~= b@);
    true
}

/// Whether the bot plays white: white is an account, and it is the bot's.
pub fn is_bot_white(white: &Player, bot_username: &str) -> (b: bool)
    ensures
        b == (*white matches Player::User(name) && name@ == bot_username@),
{
    match white {
        Player::User(name) => same_text(name.as_str(), bot_username),
        Player::Computer(_) => false,
    }
}

/// Whether a challenge comes from the bot's own account: such a challenge
/// is ignored.
pub fn is_own_challenge(challenger: &str, config: &Config) -> (b: bool)
    ensures
        b == (challenger@ == config.username@),
{
    same_text(challenger, config.username.as_str())
}

/// Whether the decision on a challenge depends on whether the bot follows
/// the challenger.
pub fn asks_following(config: &Config) -> (b: bool)
    ensures
        b == (!config.no_accept && config.following_only),
{
    !config.no_accept && config.following_only
}

/// Whether to accept a challenge: never if the bot accepts none, and only
/// from accounts that it follows if it is set so.
pub fn accepts_challenge(config: &Config, is_following: bool) -> (accept: bool)
    ensures
        accept == (!config.no_accept && (config.following_only ==> is_following)),
{
    if config.no_accept {
        false
    } else if config.following_only && !is_following {
        false
    } else {
        true
    }
}

/// What the banner tells about challenges.
pub fn challenge_message(config: &Config) -> (text: &'static str)
    ensures
        text@ == if config.no_accept {
            "I am not accepting challenges, but here is my profile:"@
        } else {
            "Send me a challenge on Lichess:"@
        },
{
    if config.no_accept {
        "I am not accepting challenges, but here is my profile:"
    } else {
        "Send me a challenge on Lichess:"
    }
}

/// The banner that greets whoever starts the bot, line by line.
pub fn ascii_art(config: &Config) -> (lines: Vec<String>)
    ensures
        lines@.len() == 7,
        lines@[0]@ == ""@,
        lines@[1]@ == "  _/|"@,
        lines@[2]@ == " // o\\     Hello, this is "@ + config.username@ + "!"@,
        lines@[3]@ == " || ._)    "@ + if config.no_accept {
            "I am not accepting challenges, but here is my profile:"@
        } else {
            "Send me a challenge on Lichess:"@
        },
        lines@[4]@ == " //__\\     https://lichess.org/@/"@ + config.username@,
        lines@[5]@ == " )___("@,
        lines@[6]@ == ""@,
{
    let mut lines: Vec<String> = Vec::new();
    lines.push(String::from_str(""));
    lines.push(String::from_str("  _/|"));
    let mut hello = String::from_str(" // o\\     Hello, this is ");
    hello.append(config.username.as_str());
    hello.append("!");
    lines.push(hello);
    let mut challenge = String::from_str(" || ._)    ");
    challenge.append(challenge_message(config));
    lines.push(challenge);
    let mut profile = String::from_str(" //__\\     https://lichess.org/@/");
    profile.append(config.username.as_str());
    lines.push(profile);
    lines.push(String::from_str(" )___("));
    lines.push(String::from_str(""));
    lines
}

/// The level at which to challenge the service's engine again after a game
/// against it at `level`: one higher, up to the highest that the bot is set
/// to play.
pub fn rematch_level(level: u8, stockfish_max: u8) -> (next: u8)
    requires
        level <= stockfish_max,
    ensures
        next == if level < stockfish_max {
            level + 1
        } else {
            stockfish_max as int
        },
{
    if level < stockfish_max {
        level + 1
    } else {
        stockfish_max
    }
}

/// Whom to challenge again after a game: the player that is not the bot.
pub fn rematch_opponent(white: Player, black: Player, config: &Config) -> (opponent: Player)
    ensures
        opponent == if is_user(white, config.username@) {
            black
        } else {
            white
        },
{
    if is_bot_white(&white, config.username.as_str()) {
        black
    } else {
        white
    }
}

/// Whether the player is the account with the given username.
pub open spec fn is_user(player: Player, username: Seq<char>) -> bool {
    player matches Player::User(name) && name@ == username
}

/// Who offers a draw, if anyone: black's offer is looked at first.
pub fn draw_offer(black_draw: bool, white_draw: bool) -> (offer: Option<Color>)
    ensures
        offer == if black_draw {
            Some(Color::Black)
        } else if white_draw {
            Some(Color::White)
        } else {
            None
        },
{
    if black_draw {
        Some(Color::Black)
    } else if white_draw {
        Some(Color::White)
    } else {
        None
    }
}

/// Who made the last of `moves` moves of a game: white moves first.
pub fn last_move_color(moves: usize) -> (color: Color)
    ensures
        color == if moves % 2 == 1 {
            Color::White
        } else {
            Color::Black
        },
{
    if moves % 2 == 1 {
        Color::White
    } else {
        Color::Black
    }
}

/// Whether it is the bot's turn after `moves` moves of a game.
pub fn is_bots_turn(own_color: Color, moves: usize) -> (b: bool)
    ensures
        b == match own_color {
            Color::Black => moves % 2 == 1,
            Color::White => moves % 2 == 0,
        },
{
    match own_color {
        Color::Black => moves % 2 == 1,
        Color::White => moves % 2 == 0,
    }
}

/// The move at the place `n` of a list, counted from its end: 1 is the
/// last move.
pub open spec fn from_end(moves: Seq<Move>, n: int) -> Option<Move> {
    if 1 <= n <= moves.len() {
        Some(moves[moves.len() - n])
    } else {
        None
    }
}

/// The bot's last move and its opponent's, given the moves of a game so
/// far and whether it is the bot's turn.
pub fn last_moves(moves: &Vec<Move>, bots_turn: bool) -> (last: (Option<Move>, Option<Move>))
    ensures
        last.0 == from_end(moves@, if bots_turn {
            2
        } else {
            1
        }),
        last.1 == from_end(moves@, if bots_turn {
            1
        } else {
            2
        }),
{
    let len = moves.len();
    let newest = if len >= 1 {
        Some(moves[len - 1])
    } else {
        None
    };
    let before = if len >= 2 {
        Some(moves[len - 2])
    } else {
        None
    };
    if bots_turn {
        (before, newest)
    } else {
        (newest, before)
    }
}

/// What to do with a move that the service reports.
#[derive(Debug, Clone, Copy, PartialEq, Eq, Structural)]
pub enum MoveAction {
    /// The move is already known: nothing to do.
    Ignore,
    /// The move is the bot's own: take it in.
    Own,
    /// The move is the opponent's and ended the game: take it in and stop.
    OpponentLast,
    /// The move is the opponent's: take it in and answer.
    OpponentReply,
}

/// Decides what to do with a move that the service reports for a game.
pub fn on_move(brain: &Brain, m: Move, color: Color, game_over: bool) -> (action: MoveAction)
    ensures
        action == if color == brain.color {
            if brain.last_move == Some(m) {
                MoveAction::Ignore
            } else {
                MoveAction::Own
            }
        } else if brain.opponent_last_move == Some(m) {
            MoveAction::Ignore
        } else if game_over {
            MoveAction::OpponentLast
        } else {
            MoveAction::OpponentReply
        },
{
    let bot_move = color == brain.color;
    if bot_move {
        if is_move_known(brain.last_move, m) {
            MoveAction::Ignore
        } else {
            MoveAction::Own
        }
    } else {
        if is_move_known(brain.opponent_last_move, m) {
            MoveAction::Ignore
        } else if game_over {
            MoveAction::OpponentLast
        } else {
            MoveAction::OpponentReply
        }
    }
}

/// Whether the move is the one that was seen last.
pub fn is_move_known(last: Option<Move>, m: Move) -> (b: bool)
    ensures
        b == (last == Some(m)),
{
    match last {
        Some(known) => known == m,
        None => false,
    }
}

/// The text after the last space of a text: the last move of a list of
/// moves that spaces separate.
pub open spec fn after_last_space(text: Seq<char>) -> Seq<char>
    decreases text.len(),
{
    if text.len() == 0 || text.last() == ' ' {
        Seq::empty()
    } else {
        after_last_space(text.drop_last()).push(text.last())
    }
}

/// Where the text after the last space starts.
pub open spec fn last_space_end(text: Seq<char>) -> int
    decreases text.len(),
{
    if text.len() == 0 || text.last() == ' ' {
        text.len() as int
    } else {
        last_space_end(text.drop_last())
    }
}

/// The text after the last space is the end of the text from there on.
pub proof fn lemma_after_last_space(text: Seq<char>)
    ensures
        0 <= last_space_end(text) <= text.len(),
        after_last_space(text) == text.subrange(last_space_end(text), text.len() as int),
        forall|i: int| last_space_end(text) <= i < text.len() ==> text[i] != ' ',
        last_space_end(text) > 0 ==> text[last_space_end(text) - 1] == ' ',
    decreases text.len(),
{
    if text.len() == 0 || text.last() == ' ' {
        assert(text.subrange(text.len() as int, text.len() as int) =~= Seq::<char>::empty());
    } else {
        let front = text.drop_last();
        lemma_after_last_space(front);
        assert(text.subrange(last_space_end(text), text.len() as int) =~= front.subrange(
            last_space_end(front),
            front.len() as int,
        ).push(text.last()));
        assert forall|i: int| last_space_end(text) <= i < text.len() implies text[i] != ' ' by {
            if i < front.len() {
                assert(front[i] == text[i]);
            }
        }
        if last_space_end(text) > 0 {
            assert(front[last_space_end(front) - 1] == text[last_space_end(text) - 1]);
        }
    }
}

/// The last move of a list of moves that spaces separate, as text.
pub fn last_move(moves: &str) -> (last: String)
    ensures
        last@ == after_last_space(moves@),
{
    let len = moves.unicode_len();
    let mut start = len;
    proof {
        lemma_after_last_space(moves@);
    }
    while start > 0 && moves.get_char(start - 1) != ' '
        invariant
            len == moves@.len(),
            last_space_end(moves@) <= start <= len,
            forall|i: int| start <= i < len ==> moves@[i] != ' ',
            forall|i: int| last_space_end(moves@) <= i < len ==> moves@[i] != ' ',
            last_space_end(moves@) > 0 ==> moves@[last_space_end(moves@) - 1] == ' ',
        decreases start,
    {
        start = start - 1;
    }
    String::from_str(moves.substring_char(start, len))
}

/// The moves that a text lists from its index `i` on, in pure coordinate
/// notation with white space between them.
pub open spec fn moves_from(text: Seq<char>, i: int) -> Result<Seq<Move>, MoveError>
    decreases text.len() - i,
{
    let start = skip_spaces(text, i);
    let end = skip_field(text, start);
    if start < i || start >= text.len() || end <= start || end > text.len() {
        Ok(Seq::empty())
    } else {
        match parse_move(text.subrange(start, end)) {
            Err(e) => Err(e),
            Ok(m) => match moves_from(text, end) {
                Err(e) => Err(e),
                Ok(rest) => Ok(seq![m] + rest),
            },
        }
    }
}

/// The moves read so far, followed by what the rest of the text gives.
pub open spec fn followed_by(read: Seq<Move>, rest: Result<Seq<Move>, MoveError>) -> Result<
    Seq<Move>,
    MoveError,
> {
    match rest {
        Ok(moves) => Ok(read + moves),
        Err(e) => Err(e),
    }
}

/// Reads a list of moves in pure coordinate notation, with white space
/// between them.
pub fn parse_moves(text: &str) -> (r: Result<Vec<Move>, MoveError>)
    ensures
        r is Ok == moves_from(text@, 0) is Ok,
        r matches Ok(moves) ==> moves@ == moves_from(text@, 0)->Ok_0 && forall|n: int|
            0 <= n < moves@.len() ==> (#[trigger] moves@[n]).wf(),
        r matches Err(e) ==> e == moves_from(text@, 0)->Err_0,
{
    let len = text.unicode_len();
    let mut moves: Vec<Move> = Vec::new();
    let mut i: usize = 0;
    loop
        invariant
            len == text@.len(),
            i <= len,
            forall|n: int| 0 <= n < moves@.len() ==> (#[trigger] moves@[n]).wf(),
            followed_by(moves@, moves_from(text@, i as int)) == moves_from(text@, 0),
        decreases len - i,
    {
        let (start, end) = crate::game::fen::next_field(text, len, i);
        if start >= len {
            proof {
                assert(moves@ + Seq::<Move>::empty() =~= moves@);
            }
            return Ok(moves);
        }
        proof {
            lemma_skip_spaces(text@, i as int);
            lemma_skip_field(text@, start as int + 1);
        }
        let ghost read = moves@;
        match Move::from_pure_notation(text.substring_char(start, end)) {
            Err(e) => {
                return Err(e);
            },
            Ok(m) => {
                moves.push(m);
                proof {
                    let rest = moves_from(text@, end as int);
                    if rest is Ok {
                        assert(read.push(m) + rest->Ok_0 =~= read + (seq![m] + rest->Ok_0));
                    }
                }
            },
        }
        i = end;
    }
}

/// Where skipping white space stops, there is none.
pub proof fn lemma_skip_spaces(text: Seq<char>, i: int)
    requires
        0 <= i <= text.len(),
    ensures
        i <= skip_spaces(text, i) <= text.len(),
        skip_spaces(text, i) < text.len() ==> !crate::game::fen::is_space(
            text[skip_spaces(text, i)],
        ),
    decreases text.len() - i,
{
    if i < text.len() && crate::game::fen::is_space(text[i]) {
        lemma_skip_spaces(text, i + 1);
    }
}

/// Skipping a field goes forwards and stays within the text.
pub proof fn lemma_skip_field(text: Seq<char>, i: int)
    requires
        0 <= i <= text.len(),
    ensures
        i <= skip_field(text, i) <= text.len(),
    decreases text.len() - i,
{
    if i < text.len() && !crate::game::fen::is_space(text[i]) {
        lemma_skip_field(text, i + 1);
    }
}

/// Why a game could not be set up.
#[derive(Debug, Clone, Copy, PartialEq, Eq, Structural)]
pub enum SetupError {
    /// The starting position cannot be read.
    Position(FenError),
    /// The move with the given number, counted from 0, cannot be made in
    /// the position before it.
    Move(usize),
}

/// Whether each of the first `n` moves can be made in the position before
/// it.
pub open spec fn playable(start: Board, moves: Seq<Move>, n: nat) -> bool
    decreases n,
{
    n > 0 ==> {
        &&& playable(start, moves, (n - 1) as nat)
        &&& moves[n - 1].wf()
        &&& position_after(start, moves, (n - 1) as nat).can_apply(moves[n - 1])
    }
}

/// Sets a brain up for a game: the starting position, the moves made so
/// far and the bot's colour.
pub fn set_board(fen: &str, moves: &Vec<Move>, own_color: Color) -> (r: Result<Brain, SetupError>)
    ensures
        match r {
            Ok(brain) => {
                &&& board_of_fen(fen@) matches Ok(start)
                &&& playable(start, moves@, moves@.len())
                &&& brain.board == position_after(start, moves@, moves@.len())
                &&& brain.board.wf()
                &&& brain.color == own_color
            },
            Err(SetupError::Position(e)) => board_of_fen(fen@) == Err::<Board, FenError>(e),
            Err(SetupError::Move(n)) => {
                &&& board_of_fen(fen@) matches Ok(start)
                &&& n < moves@.len()
                &&& playable(start, moves@, n as nat)
                &&& !(moves@[n as int].wf() && position_after(start, moves@, n as nat).can_apply(
                    moves@[n as int],
                ))
            },
        },
{
    let start = match Board::from_fen(fen) {
        Ok(board) => board,
        Err(e) => {
            return Err(SetupError::Position(e));
        },
    };
    let mut board = start;
    let mut n: usize = 0;
    while n < moves.len()
        invariant
            n <= moves@.len(),
            board.wf(),
            board_of_fen(fen@) == Ok::<Board, FenError>(start),
            board == position_after(start, moves@, n as nat),
            playable(start, moves@, n as nat),
        decreases moves@.len() - n,
    {
        let m = moves[n];
        let on_board = m.0.file_x < 8 && m.0.rank_y < 8 && m.1.file_x < 8 && m.1.rank_y < 8;
        if !on_board || !board.can_apply_move(m) {
            return Err(SetupError::Move(n));
        }
        board.apply_move(m);
        n = n + 1;
    }
    let mut brain = Brain::new(board, own_color);
    let bots_turn = is_bots_turn(own_color, moves.len());
    let (last_move, opponent_last_move) = last_moves(moves, bots_turn);
    brain.last_move = last_move;
    brain.opponent_last_move = opponent_last_move;
    Ok(brain)
}

} // verus!
