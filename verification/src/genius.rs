//! The engine's brain: how it values a position and how it looks for its
//! next move.
use crate::bitboard::lemma_finite;
use crate::game::moves::{
    generate_moves, in_check, is_in_check, is_move, lemma_move_applicable, pseudo_legal_moves,
    sound,
};
use crate::game::pieces::Color;
use crate::game::{Board, BoardSide, Move};
use itertools::Itertools;
use vstd::prelude::*;
use vstd::relations::{sorted_by, total_ordering};
use vstd::seq_lib::lemma_sorted_unique;

verus! {

/// An assessment of a game state from a particular player's perspective.
#[derive(Debug, Copy, Clone, PartialEq, Eq, Structural, PartialOrd, Ord)]
pub enum Evaluation {
    /// An absolutely disastrous outcome, e.g. a loss.
    Worst,
    /// An outcome with some score. Higher values mean a more favorable state.
    Score(i32),
    /// An absolutely wonderful outcome, e.g. a win.
    Best,
}

impl Evaluation {
    /// Whether the evaluation can be negated: a score is not the lowest
    /// number that fits.
    pub open spec fn valid(self) -> bool {
        self matches Evaluation::Score(s) ==> s > i32::MIN
    }

    /// The order of evaluations: `Worst` comes before every score, every
    /// score before `Best`, and scores go by their numbers.
    pub open spec fn le(self, other: Evaluation) -> bool {
        match (self, other) {
            (Evaluation::Worst, _) => true,
            (_, Evaluation::Best) => true,
            (Evaluation::Score(a), Evaluation::Score(b)) => a <= b,
            _ => false,
        }
    }

    /// Whether the evaluation comes strictly before the other.
    pub open spec fn lt(self, other: Evaluation) -> bool {
        !other.le(self)
    }

    /// The evaluation from the other player's perspective.
    pub open spec fn spec_negated(self) -> Evaluation {
        match self {
            Evaluation::Worst => Evaluation::Best,
            Evaluation::Score(s) => Evaluation::Score((-s) as i32),
            Evaluation::Best => Evaluation::Worst,
        }
    }

    /// The later of two evaluations.
    pub open spec fn spec_max(self, other: Evaluation) -> Evaluation {
        if self.le(other) {
            other
        } else {
            self
        }
    }

    /// Negating an evaluation results in the corresponding one from the other
    /// player's perspective.
    #[verifier::when_used_as_spec(spec_negated)]
    pub fn negated(self) -> (r: Evaluation)
        requires
            self.valid(),
        ensures
            r == self.spec_negated(),
            r.valid(),
    {
        match self {
            Evaluation::Worst => Evaluation::Best,
            Evaluation::Score(s) => Evaluation::Score(-s),
            Evaluation::Best => Evaluation::Worst,
        }
    }

    /// Whether the evaluation comes before the other or is the same.
    pub fn at_most(self, other: Evaluation) -> (b: bool)
        ensures
            b == self.le(other),
    {
        match (self, other) {
            (Evaluation::Worst, _) => true,
            (_, Evaluation::Best) => true,
            (Evaluation::Score(a), Evaluation::Score(b)) => a <= b,
            _ => false,
        }
    }

    /// Whether the evaluation comes strictly after the other.
    pub fn better_than(self, other: Evaluation) -> (b: bool)
        ensures
            b == other.lt(self),
    {
        !self.at_most(other)
    }

    /// The later of two evaluations.
    #[verifier::when_used_as_spec(spec_max)]
    pub fn max(self, other: Evaluation) -> (r: Evaluation)
        ensures
            r == self.spec_max(other),
    {
        if self.at_most(other) {
            other
        } else {
            self
        }
    }
}

/// The order of evaluations is total, and negating turns it around.
pub proof fn lemma_evaluation_order(a: Evaluation, b: Evaluation, c: Evaluation)
    requires
        a.valid(),
        b.valid(),
    ensures
        a.le(a),
        a.le(b) || b.le(a),
        a.le(b) && b.le(a) ==> a == b,
        a.le(b) && b.le(c) ==> a.le(c),
        Evaluation::Worst.le(a) && a.le(Evaluation::Best),
        a.le(b) == b.negated().le(a.negated()),
        a.negated().negated() == a,
{
}

/// What a side's pieces are worth together: a pawn 1, a knight or a bishop
/// 3, a rook 5, a queen 8 and the king 100.
pub open spec fn material(side: BoardSide) -> nat {
    side.pawns@.len() + 3 * side.knights@.len() + 3 * side.bishops@.len() + 5 * side.rooks@.len()
        + 8 * side.queens@.len() + 100 * side.king@.len()
}

/// What the position is worth to the colour: its own material less the
/// other side's.
pub open spec fn score(board: Board, color: Color) -> int {
    material(board.side(color)) - material(board.side(color.opposite()))
}

/// A position is worth no more than 7680 to either colour, and no less than
/// that to the other.
pub proof fn lemma_score_bound(board: Board, color: Color)
    ensures
        -7680 <= score(board, color) <= 7680,
        Evaluation::Score(score(board, color) as i32).valid(),
{
    lemma_finite(board.white.pawns);
    lemma_finite(board.white.knights);
    lemma_finite(board.white.bishops);
    lemma_finite(board.white.rooks);
    lemma_finite(board.white.queens);
    lemma_finite(board.white.king);
    lemma_finite(board.black.pawns);
    lemma_finite(board.black.knights);
    lemma_finite(board.black.bishops);
    lemma_finite(board.black.rooks);
    lemma_finite(board.black.queens);
    lemma_finite(board.black.king);
}

/// What a side's pieces are worth together.
pub fn material_of(side: &BoardSide) -> (value: i32)
    ensures
        value == material(*side),
        0 <= value <= 7680,
{
    let pawns = side.pawns.popcnt() as i32;
    let knights = side.knights.popcnt() as i32;
    let bishops = side.bishops.popcnt() as i32;
    let rooks = side.rooks.popcnt() as i32;
    let queens = side.queens.popcnt() as i32;
    let king = side.king.popcnt() as i32;
    pawns + 3 * knights + 3 * bishops + 5 * rooks + 8 * queens + 100 * king
}

impl Board {
    /// What the position is worth to the colour, piece by piece.
    pub fn piecewise_score(&self, color: Color) -> (value: i32)
        ensures
            value == score(*self, color),
            -7680 <= value <= 7680,
    {
        material_of(self.get_side(color)) - material_of(self.get_side(color.opposite()))
    }
}

/// The leaf score of a position for the colour.
pub fn evaluate(color: Color, board: &Board) -> (e: Evaluation)
    ensures
        e == Evaluation::Score(score(*board, color) as i32),
        e.valid(),
{
    let score = board.piecewise_score(color);
    Evaluation::Score(score)
}

/// The order in which numbers ascend.
pub open spec fn ascending() -> spec_fn(u64, u64) -> bool {
    |a: u64, b: u64| a <= b
}

/// Sorts numbers with `itertools::Itertools::sorted`, which collects them
/// into a vector and sorts it with the standard library's stable sort: what
/// comes back holds the same numbers, each as often as before, in ascending
/// order.
#[verifier::external_body]
fn sorted_keys(keys: Vec<u64>) -> (sorted: Vec<u64>)
    ensures
        sorted@.to_multiset() == keys@.to_multiset(),
        sorted_by(sorted@, ascending()),
{
    keys.into_iter().sorted().collect()
}

/// What a move is worth before the search looks at it: a small bonus for a
/// pawn's move.
pub open spec fn estimate(board: Board, m: Move) -> int {
    match board.piece_at(m.0) {
        Some(piece) => if piece is Pawn {
            1
        } else {
            0
        },
        None => 0,
    }
}

/// The number by which the search orders the move that stands at the place
/// `n` of a list: the estimate first, the place second.
pub open spec fn order_key(board: Board, m: Move, n: int) -> u64 {
    (estimate(board, m) * 0x1_0000_0000 + n) as u64
}

/// The numbers by which the search orders the moves of a list.
pub open spec fn order_keys(board: Board, moves: Seq<Move>) -> Seq<u64> {
    Seq::new(moves.len(), |n: int| order_key(board, moves[n], n))
}

/// The moves in the order in which the search tries them: by descending
/// estimate, and among moves with the same estimate the later of the list
/// first.
pub open spec fn ordered(board: Board, moves: Seq<Move>) -> Seq<Move> {
    let sorted = order_keys(board, moves).sort_by(ascending());
    Seq::new(
        moves.len(),
        |k: int| moves[(sorted[moves.len() - 1 - k] % 0x1_0000_0000) as int],
    )
}

/// Puts moves into the order in which the search tries them.
pub fn order_moves(board: &Board, moves: Vec<Move>) -> (r: Vec<Move>)
    requires
        moves@.len() < 0x1_0000_0000,
        forall|n: int| 0 <= n < moves@.len() ==> (#[trigger] moves@[n]).wf(),
    ensures
        r@ == ordered(*board, moves@),
        r@.len() == moves@.len(),
        forall|k: int| 0 <= k < r@.len() ==> moves@.contains(#[trigger] r@[k]),
{
    let len = moves.len();
    let mut keys: Vec<u64> = Vec::new();
    let mut n: usize = 0;
    while n < len
        invariant
            len == moves@.len(),
            len < 0x1_0000_0000,
            n <= len,
            forall|i: int| 0 <= i < moves@.len() ==> (#[trigger] moves@[i]).wf(),
            keys@.len() == n,
            forall|i: int| 0 <= i < n ==> #[trigger] keys@[i] == order_key(*board, moves@[i], i),
        decreases len - n,
    {
        let m = moves[n];
        let bonus: u64 = match board.get_piece(m.0) {
            Some(piece) => if piece.is_pawn() {
                1
            } else {
                0
            },
            None => 0,
        };
        keys.push(bonus * 0x1_0000_0000 + n as u64);
        n = n + 1;
    }
    let ghost wanted = order_keys(*board, moves@);
    assert(keys@ =~= wanted);
    let sorted = sorted_keys(keys);
    proof {
        lemma_ascending();
        wanted.lemma_sort_by_ensures(ascending());
        lemma_sorted_unique(sorted@, wanted.sort_by(ascending()), ascending());
        assert(sorted@ == wanted.sort_by(ascending()));
        vstd::seq_lib::to_multiset_len(sorted@);
        vstd::seq_lib::to_multiset_len(wanted);
        assert forall|k: int| 0 <= k < sorted@.len() implies (#[trigger] sorted@[k]) % 0x1_0000_0000
            < len by {
            vstd::seq_lib::to_multiset_contains(sorted@, sorted@[k]);
            vstd::seq_lib::to_multiset_contains(wanted, sorted@[k]);
            assert(sorted@.contains(sorted@[k]));
            assert(wanted.contains(sorted@[k]));
            let i = choose|i: int| 0 <= i < wanted.len() && wanted[i] == sorted@[k];
            assert(wanted[i] == order_key(*board, moves@[i], i));
        }
    }
    let mut r: Vec<Move> = Vec::new();
    let mut k: usize = 0;
    while k < len
        invariant
            len == moves@.len(),
            len == sorted@.len(),
            k <= len,
            r@.len() == k,
            forall|j: int| 0 <= j < sorted@.len() ==> (#[trigger] sorted@[j]) % 0x1_0000_0000 < len,
            forall|j: int|
                0 <= j < k ==> #[trigger] r@[j] == moves@[(sorted@[len - 1 - j]
                    % 0x1_0000_0000) as int],
        decreases len - k,
    {
        let key = sorted[len - 1 - k];
        let place = (key % 0x1_0000_0000) as usize;
        r.push(moves[place]);
        k = k + 1;
    }
    assert(r@ =~= ordered(*board, moves@));
    assert forall|j: int| 0 <= j < r@.len() implies moves@.contains(#[trigger] r@[j]) by {
        let place = (sorted@[len - 1 - j] % 0x1_0000_0000) as int;
        assert(moves@[place] == r@[j]);
    }
    r
}

/// Ascending is a total order of numbers.
pub proof fn lemma_ascending()
    ensures
        total_ordering(ascending()),
{
    assert(vstd::relations::reflexive(ascending()));
    assert(vstd::relations::antisymmetric(ascending()));
    assert(vstd::relations::transitive(ascending()));
    assert(vstd::relations::strongly_connected(ascending()));
}

/// The moves that the colour may make, before asking whether they leave
/// its king in check, in the order in which the search tries them.
pub open spec fn potential_moves(board: Board, color: Color) -> Seq<Move> {
    ordered(board, pseudo_legal_moves(board, color))
}

/// List the potential movements and attacks by all pieces by the given color in the given board.
pub fn list_potential_moves(board: &Board, color: Color) -> (moves: Vec<Move>)
    ensures
        moves@ == potential_moves(*board, color),
        forall|n: int| 0 <= n < moves@.len() ==> is_move(*board, color, #[trigger] moves@[n]),
{
    let generated = generate_moves(board, color);
    proof {
        assert forall|n: int| 0 <= n < generated@.len() implies (#[trigger] generated@[n]).wf() by {
            lemma_move_wf(*board, color, generated@[n]);
        }
    }
    let moves = order_moves(board, generated);
    proof {
        assert forall|n: int| 0 <= n < moves@.len() implies is_move(
            *board,
            color,
            #[trigger] moves@[n],
        ) by {
            assert(generated@.contains(moves@[n]));
        }
    }
    moves
}

/// A listed move stays on the board.
pub proof fn lemma_move_wf(board: Board, color: Color, m: Move)
    requires
        is_move(board, color, m),
    ensures
        m.wf(),
{
    if crate::game::moves::is_step(board, color, m) {
        let kind = choose|kind: crate::game::pieces::Kind| #[trigger]
            crate::game::moves::is_step_of(board, color, kind, m);
    } else {
        let kingside = choose|kingside: bool| #[trigger]
            crate::game::moves::can_castle(board, color, kingside) && m
                == crate::game::moves::castling_move(color, kingside);
    }
}

/// Whether the move leaves the mover's king out of check.
pub open spec fn is_legal(board: Board, color: Color, m: Move) -> bool {
    !in_check(board.after(m), color)
}

/// The moves that the colour may make: the potential moves that leave its
/// king out of check, in the order in which the search tries them.
#[verifier::opaque]
pub open spec fn legal_moves(board: Board, color: Color) -> Seq<Move> {
    potential_moves(board, color).filter(|m: Move| is_legal(board, color, m))
}

/// Lists the moves that the colour may make: the resulting board does not
/// leave its king on a square that the other side attacks.
pub fn list_legal_moves(board: &Board, color: Color) -> (moves: Vec<Move>)
    requires
        board.wf(),
        sound(*board),
    ensures
        moves@ == legal_moves(*board, color),
        forall|n: int|
            0 <= n < moves@.len() ==> is_move(*board, color, #[trigger] moves@[n]) && is_legal(
                *board,
                color,
                moves@[n],
            ),
{
    let candidates = list_potential_moves(board, color);
    let ghost keep = |m: Move| is_legal(*board, color, m);
    proof {
        reveal(legal_moves);
    }
    let mut moves: Vec<Move> = Vec::new();
    let mut n: usize = 0;
    while n < candidates.len()
        invariant
            n <= candidates@.len(),
            board.wf(),
            sound(*board),
            keep == |m: Move| is_legal(*board, color, m),
            forall|k: int|
                0 <= k < candidates@.len() ==> is_move(*board, color, #[trigger] candidates@[k]),
            moves@ == candidates@.subrange(0, n as int).filter(keep),
            forall|k: int|
                0 <= k < moves@.len() ==> is_move(*board, color, #[trigger] moves@[k]) && is_legal(
                    *board,
                    color,
                    moves@[k],
                ),
        decreases candidates@.len() - n,
    {
        let m = candidates[n];
        proof {
            lemma_move_applicable(*board, color, m);
            assert(candidates@.subrange(0, n as int + 1) =~= candidates@.subrange(
                0,
                n as int,
            ).push(m));
            candidates@.subrange(0, n as int).lemma_filter_push(m, keep);
        }
        let mut outcome = *board;
        outcome.apply_move(m);
        if !is_in_check(&outcome, color) {
            moves.push(m);
        }
        n = n + 1;
    }
    proof {
        assert(candidates@.subrange(0, n as int) =~= candidates@);
    }
    moves
}

/// What the search returns for a position that it does not look beyond: a
/// position without moves is lost for the side to move, so it is the worst
/// for the root side if that side is to move and the best if the other is;
/// any other position is worth its material to the root side.
pub open spec fn leaf(board: Board, color: Color, root: Color) -> Evaluation {
    if legal_moves(board, color).len() == 0 {
        if color == root {
            Evaluation::Worst
        } else {
            Evaluation::Best
        }
    } else {
        Evaluation::Score(score(board, root) as i32)
    }
}

/// The best value after a move of value `v` was tried: the first move's
/// value, and after it the value of every move that is better than the best
/// so far.
pub open spec fn best_value(value: Evaluation, best: Option<Move>, v: Evaluation) -> Evaluation {
    if best is None || value.lt(v) {
        v
    } else {
        value
    }
}

/// The best move after the move `m` of value `v` was tried.
pub open spec fn best_move(value: Evaluation, best: Option<Move>, v: Evaluation, m: Move) -> Option<
    Move,
> {
    if best is None || value.lt(v) {
        Some(m)
    } else {
        best
    }
}

/// The value of a position and the best move in it, as negamax with
/// alpha-beta pruning finds them when it looks `depth` moves ahead.
///
/// At depth 0, and where the side to move has no move, the position is a
/// leaf. Elsewhere the moves are tried in their order: each one's value is
/// the negated value of the position that it leads to, searched one move
/// less deep for the other side within the negated window. The first move,
/// and after it every move that is better than the best so far, becomes
/// the best move. Once the best value reaches `beta` the rest is cut off.
pub open spec fn negamax_value(
    board: Board,
    depth: nat,
    alpha: Evaluation,
    beta: Evaluation,
    color: Color,
    root: Color,
) -> (Evaluation, Option<Move>)
    decreases depth, 1nat, 0nat,
{
    if depth == 0 || legal_moves(board, color).len() == 0 {
        (leaf(board, color, root), None)
    } else {
        search_from(board, depth, alpha, beta, color, root, 0, Evaluation::Worst, None)
    }
}

/// The value of a move: the negated value of the position that it leads
/// to, searched one move less deep for the other side within the negated
/// window.
pub open spec fn move_value(
    board: Board,
    depth: nat,
    alpha: Evaluation,
    beta: Evaluation,
    color: Color,
    root: Color,
    m: Move,
) -> Evaluation {
    negamax_value(
        board.after(m),
        (depth - 1) as nat,
        beta.negated(),
        alpha.negated(),
        color.opposite(),
        root,
    ).0.negated()
}

/// How the search goes on from the move with number `k` of a position,
/// given the window that is left and the best value and move so far.
pub open spec fn search_from(
    board: Board,
    depth: nat,
    alpha: Evaluation,
    beta: Evaluation,
    color: Color,
    root: Color,
    k: nat,
    value: Evaluation,
    best: Option<Move>,
) -> (Evaluation, Option<Move>)
    decreases depth, 0nat, legal_moves(board, color).len() - k,
{
    let moves = legal_moves(board, color);
    if depth == 0 || k >= moves.len() {
        (value, best)
    } else {
        let m = moves[k as int];
        let v = negamax_value(
            board.after(m),
            (depth - 1) as nat,
            beta.negated(),
            alpha.negated(),
            color.opposite(),
            root,
        ).0.negated();
        let next_value = best_value(value, best, v);
        let next_best = best_move(value, best, v, m);
        let next_alpha = alpha.max(next_value);
        if beta.le(next_alpha) {
            (next_value, next_best)
        } else {
            search_from(board, depth, next_alpha, beta, color, root, k + 1, next_value, next_best)
        }
    }
}

/// What the search of a position is made of.
pub proof fn lemma_negamax_unfold(
    board: Board,
    depth: nat,
    alpha: Evaluation,
    beta: Evaluation,
    color: Color,
    root: Color,
)
    ensures
        negamax_value(board, depth, alpha, beta, color, root) == if depth == 0 || legal_moves(
            board,
            color,
        ).len() == 0 {
            (leaf(board, color, root), None::<Move>)
        } else {
            search_from(board, depth, alpha, beta, color, root, 0, Evaluation::Worst, None)
        },
{
}

/// What one step of the search is made of.
pub proof fn lemma_search_unfold(
    board: Board,
    depth: nat,
    alpha: Evaluation,
    beta: Evaluation,
    color: Color,
    root: Color,
    k: nat,
    value: Evaluation,
    best: Option<Move>,
)
    ensures
        search_from(board, depth, alpha, beta, color, root, k, value, best) == if depth == 0 || k
            >= legal_moves(board, color).len() {
            (value, best)
        } else {
            let m = legal_moves(board, color)[k as int];
            let v = move_value(board, depth, alpha, beta, color, root, m);
            let next_value = best_value(value, best, v);
            let next_best = best_move(value, best, v, m);
            let next_alpha = alpha.max(next_value);
            if beta.le(next_alpha) {
                (next_value, next_best)
            } else {
                search_from(
                    board,
                    depth,
                    next_alpha,
                    beta,
                    color,
                    root,
                    k + 1,
                    next_value,
                    next_best,
                )
            }
        },
{
}

/// Every value that the search returns can be negated.
pub proof fn lemma_negamax_valid(
    board: Board,
    depth: nat,
    alpha: Evaluation,
    beta: Evaluation,
    color: Color,
    root: Color,
)
    ensures
        negamax_value(board, depth, alpha, beta, color, root).0.valid(),
    decreases depth, 1nat, 0nat,
{
    lemma_negamax_unfold(board, depth, alpha, beta, color, root);
    lemma_score_bound(board, root);
    if !(depth == 0 || legal_moves(board, color).len() == 0) {
        lemma_search_valid(board, depth, alpha, beta, color, root, 0, Evaluation::Worst, None);
    }
}

/// Every value that the search returns can be negated.
pub proof fn lemma_search_valid(
    board: Board,
    depth: nat,
    alpha: Evaluation,
    beta: Evaluation,
    color: Color,
    root: Color,
    k: nat,
    value: Evaluation,
    best: Option<Move>,
)
    requires
        value.valid(),
    ensures
        search_from(board, depth, alpha, beta, color, root, k, value, best).0.valid(),
    decreases depth, 0nat, legal_moves(board, color).len() - k,
{
    let moves = legal_moves(board, color);
    lemma_search_unfold(board, depth, alpha, beta, color, root, k, value, best);
    if !(depth == 0 || k >= moves.len()) {
        let m = moves[k as int];
        lemma_negamax_valid(
            board.after(m),
            (depth - 1) as nat,
            beta.negated(),
            alpha.negated(),
            color.opposite(),
            root,
        );
        let v = move_value(board, depth, alpha, beta, color, root, m);
        let next_value = best_value(value, best, v);
        let next_best = best_move(value, best, v, m);
        let next_alpha = alpha.max(next_value);
        if !beta.le(next_alpha) {
            lemma_search_valid(
                board,
                depth,
                next_alpha,
                beta,
                color,
                root,
                k + 1,
                next_value,
                next_best,
            );
        }
    }
}

/// The search finds a move wherever it looks at least one move ahead and
/// the side to move has a move, and the move that it finds is one of that
/// side's moves.
pub proof fn lemma_search_finds_move(
    board: Board,
    depth: nat,
    alpha: Evaluation,
    beta: Evaluation,
    color: Color,
    root: Color,
    k: nat,
    value: Evaluation,
    best: Option<Move>,
)
    requires
        depth > 0,
        k < legal_moves(board, color).len() || best is Some,
        best matches Some(m) ==> legal_moves(board, color).contains(m),
    ensures
        search_from(board, depth, alpha, beta, color, root, k, value, best).1 is Some,
        legal_moves(board, color).contains(
            search_from(board, depth, alpha, beta, color, root, k, value, best).1->0,
        ),
    decreases legal_moves(board, color).len() - k,
{
    let moves = legal_moves(board, color);
    lemma_search_unfold(board, depth, alpha, beta, color, root, k, value, best);
    if k < moves.len() {
        let m = moves[k as int];
        assert(moves.contains(m));
        let v = move_value(board, depth, alpha, beta, color, root, m);
        let next_value = best_value(value, best, v);
        let next_best = best_move(value, best, v, m);
        let next_alpha = alpha.max(next_value);
        if !beta.le(next_alpha) {
            lemma_search_finds_move(
                board,
                depth,
                next_alpha,
                beta,
                color,
                root,
                k + 1,
                next_value,
                next_best,
            );
        }
    }
}

/// The recursive MiniMax function, with alpha-beta pruning.
pub fn negamax(
    board: &Board,
    depth: usize,
    alpha: Evaluation,
    beta: Evaluation,
    color: Color,
    root: Color,
) -> (r: (Evaluation, Option<Move>))
    requires
        board.wf(),
        sound(*board),
        alpha.valid(),
        beta.valid(),
    ensures
        r == negamax_value(*board, depth as nat, alpha, beta, color, root),
        r.0.valid(),
        depth > 0 && legal_moves(*board, color).len() > 0 ==> r.1 is Some,
        r.1 matches Some(m) ==> legal_moves(*board, color).contains(m),
    decreases depth,
{
    let moves = list_legal_moves(board, color);
    proof {
        lemma_negamax_unfold(*board, depth as nat, alpha, beta, color, root);
    }
    if depth == 0 || moves.len() == 0 {
        let eval = if moves.len() == 0 && color == root {
            Evaluation::Worst
        } else if moves.len() == 0 && color != root {
            Evaluation::Best
        } else {
            evaluate(root, board)
        };
        return (eval, None);
    }
    proof {
        lemma_negamax_valid(*board, depth as nat, alpha, beta, color, root);
        lemma_search_finds_move(
            *board,
            depth as nat,
            alpha,
            beta,
            color,
            root,
            0,
            Evaluation::Worst,
            None,
        );
    }
    let ghost wanted = negamax_value(*board, depth as nat, alpha, beta, color, root);
    let mut lower = alpha;
    let mut value = Evaluation::Worst;
    let mut best: Option<Move> = None;
    let mut k: usize = 0;
    while k < moves.len()
        invariant
            k <= moves@.len(),
            depth > 0,
            board.wf(),
            sound(*board),
            lower.valid(),
            wanted == negamax_value(*board, depth as nat, alpha, beta, color, root),
            beta.valid(),
            value.valid(),
            moves@ == legal_moves(*board, color),
            forall|n: int| 0 <= n < moves@.len() ==> is_move(*board, color, #[trigger] moves@[n]),
            best matches Some(found) ==> moves@.contains(found),
            search_from(*board, depth as nat, lower, beta, color, root, k as nat, value, best)
                == wanted,
        decreases moves@.len() - k,
    {
        let m = moves[k];
        let ghost old_alpha = lower;
        let ghost old_value = value;
        let ghost old_best = best;
        proof {
            lemma_move_applicable(*board, color, m);
            lemma_search_unfold(
                *board,
                depth as nat,
                lower,
                beta,
                color,
                root,
                k as nat,
                value,
                best,
            );
        }
        let mut outcome = *board;
        outcome.apply_move(m);
        let child = negamax(
            &outcome,
            depth - 1,
            beta.negated(),
            lower.negated(),
            color.opposite(),
            root,
        );
        let v = child.0.negated();
        if best.is_none() || v.better_than(value) {
            value = v;
            best = Some(m);
        }
        lower = lower.max(value);
        proof {
            assert(moves@.contains(m));
            assert(v == move_value(*board, depth as nat, old_alpha, beta, color, root, m));
            assert(value == best_value(old_value, old_best, v));
            assert(best == best_move(old_value, old_best, v, m));
            assert(lower == old_alpha.max(value));
        }
        if beta.at_most(lower) {
            // beta cutoff
            return (value, best);
        }
        k = k + 1;
    }
    proof {
        lemma_search_unfold(
            *board,
            depth as nat,
            lower,
            beta,
            color,
            root,
            k as nat,
            value,
            best,
        );
    }
    (value, best)
}

#[derive(Debug, Clone, Copy)]
pub struct Brain {
    /// This brain's color.
    pub color: Color,
    /// The current board state.
    pub board: Board,
    /// The last move by the brain.
    pub last_move: Option<Move>,
    /// The last move by the opponent.
    pub opponent_last_move: Option<Move>,
}

/// How many moves ahead the brain looks.
pub const SEARCH_DEPTH: usize = 4;

impl Brain {
    /// Create a new brain with the given board and color.
    pub fn new(board: Board, color: Color) -> (brain: Brain)
        ensures
            brain.board == board,
            brain.color == color,
            brain.last_move is None,
            brain.opponent_last_move is None,
    {
        Self { board, color, last_move: None, opponent_last_move: None }
    }

    /// Whether the brain can take the move: it moves a piece that is there
    /// and takes none of its own side.
    pub fn accepts(&self, m: Move) -> (b: bool)
        ensures
            b == (m.wf() && self.board.can_apply(m)),
    {
        m.0.file_x < 8 && m.0.rank_y < 8 && m.1.file_x < 8 && m.1.rank_y < 8
            && self.board.can_apply_move(m)
    }

    /// Whether the brain can search its position: the board is sound.
    pub fn is_ready(&self) -> (b: bool)
        requires
            self.board.wf(),
        ensures
            b == sound(self.board),
    {
        crate::game::moves::is_sound(&self.board)
    }

    /// Select a move for the brain: the best move that a search of
    /// `SEARCH_DEPTH` moves ahead finds for its colour, or none if it has no
    /// move.
    pub fn choose_move(&self) -> (m: Option<Move>)
        requires
            self.board.wf(),
            sound(self.board),
        ensures
            m == negamax_value(
                self.board,
                SEARCH_DEPTH as nat,
                Evaluation::Worst,
                Evaluation::Best,
                self.color,
                self.color,
            ).1,
            m is Some == (legal_moves(self.board, self.color).len() > 0),
            m matches Some(found) ==> legal_moves(self.board, self.color).contains(found),
    {
        let best = negamax(
            &self.board,
            SEARCH_DEPTH,
            Evaluation::Worst,
            Evaluation::Best,
            self.color,
            self.color,
        );
        best.1
    }

    /// Apply a move from the opponent.
    pub fn opponent_move(&mut self, m: Move)
        requires
            old(self).board.wf(),
            old(self).board.can_apply(m),
        ensures
            final(self).board == old(self).board.after(m),
            final(self).board.wf(),
            final(self).opponent_last_move == Some(m),
            final(self).last_move == old(self).last_move,
            final(self).color == old(self).color,
    {
        self.board.apply_move(m);
        self.opponent_last_move = Some(m);
    }

    /// Apply a move by the brain.
    pub fn own_move(&mut self, m: Move)
        requires
            old(self).board.wf(),
            old(self).board.can_apply(m),
        ensures
            final(self).board == old(self).board.after(m),
            final(self).board.wf(),
            final(self).last_move == Some(m),
            final(self).opponent_last_move == old(self).opponent_last_move,
            final(self).color == old(self).color,
    {
        self.board.apply_move(m);
        self.last_move = Some(m);
    }
}

/// Ordering moves neither drops a move nor adds one.
pub proof fn lemma_ordered(board: Board, moves: Seq<Move>, m: Move)
    requires
        moves.len() < 0x1_0000_0000,
    ensures
        ordered(board, moves).len() == moves.len(),
        ordered(board, moves).contains(m) <==> moves.contains(m),
{
    let keys = order_keys(board, moves);
    let sorted = keys.sort_by(ascending());
    let all = ordered(board, moves);
    let len = moves.len() as int;
    lemma_ascending();
    keys.lemma_sort_by_ensures(ascending());
    vstd::seq_lib::to_multiset_len(sorted);
    vstd::seq_lib::to_multiset_len(keys);
    assert forall|j: int| 0 <= j < len implies 0 <= (#[trigger] sorted[j]) % 0x1_0000_0000 < len
        && keys.contains(sorted[j]) by {
        vstd::seq_lib::to_multiset_contains(sorted, sorted[j]);
        vstd::seq_lib::to_multiset_contains(keys, sorted[j]);
        assert(sorted.contains(sorted[j]));
        let i = choose|i: int| 0 <= i < keys.len() && keys[i] == sorted[j];
        assert(keys[i] == order_key(board, moves[i], i));
    }
    if all.contains(m) {
        let k = choose|k: int| 0 <= k < all.len() && all[k] == m;
        let place = (sorted[len - 1 - k] % 0x1_0000_0000) as int;
        assert(moves[place] == m);
    }
    if moves.contains(m) {
        let i = choose|i: int| 0 <= i < len && moves[i] == m;
        let key = keys[i];
        assert(key == order_key(board, moves[i], i));
        assert(keys.contains(key));
        vstd::seq_lib::to_multiset_contains(sorted, key);
        vstd::seq_lib::to_multiset_contains(keys, key);
        let j = choose|j: int| 0 <= j < sorted.len() && sorted[j] == key;
        assert(key % 0x1_0000_0000 == i);
        assert(all[len - 1 - j] == m);
    }
}

/// The list of legal moves holds exactly the moves that the colour may make
/// and that leave its king out of check.
pub proof fn lemma_legal_moves(board: Board, color: Color, m: Move)
    ensures
        legal_moves(board, color).contains(m) <==> is_move(board, color, m) && is_legal(
            board,
            color,
            m,
        ),
{
    reveal(legal_moves);
    let generated = pseudo_legal_moves(board, color);
    let candidates = potential_moves(board, color);
    let keep = |x: Move| is_legal(board, color, x);
    crate::game::lists::lemma_pseudo_legal_moves(board, color, m);
    lemma_ordered(board, generated, m);
    #[allow(deprecated)]
    candidates.filter_lemma(keep);
    if candidates.filter(keep).contains(m) {
        let n = choose|n: int|
            0 <= n < candidates.filter(keep).len() && candidates.filter(keep)[n] == m;
        assert(keep(candidates.filter(keep)[n]));
        candidates.lemma_filter_contains_rev(keep, m);
    }
    if candidates.contains(m) && is_legal(board, color, m) {
        let n = choose|n: int| 0 <= n < candidates.len() && candidates[n] == m;
        assert(keep(candidates[n]));
    }
}

} // verus!
