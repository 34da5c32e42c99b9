//! Rooks, bishops and queens: the squares that a slider reaches along a
//! line.
use crate::bitboard::{flip_rank, lemma_ray, mirror_file, BitBoard};
use crate::game::pieces::{anti_diagonal_mask, diagonal_mask, file_mask, file_of, rank_mask, rank_of, Color};
use crate::game::position::Position;
use crate::game::{Board, Move, Promotion};
use vstd::prelude::*;

verus! {

/// The four lines through a square.
#[derive(Debug, Clone, Copy, PartialEq, Eq, Structural)]
pub enum Line {
    /// The squares of the same file.
    File,
    /// The squares of the same rank.
    Rank,
    /// The squares of the same diagonal parallel to a1-h8.
    Diagonal,
    /// The squares of the same diagonal parallel to a8-h1.
    AntiDiagonal,
}

/// Whether the squares `s` and `j` share the line.
#[verifier::opaque]
pub open spec fn on_line(line: Line, s: int, j: int) -> bool {
    match line {
        Line::File => j % 8 == s % 8,
        Line::Rank => j / 8 == s / 8,
        Line::Diagonal => j / 8 - j % 8 == s / 8 - s % 8,
        Line::AntiDiagonal => j / 8 + j % 8 == s / 8 + s % 8,
    }
}

/// Whether a slider on the square `s` reaches the square `t` along the
/// line: walking from `s` towards `t`, every square before `t` is empty.
/// The square `t` itself may be occupied: it is the first blocker then.
pub open spec fn sees(occupancy: BitBoard, line: Line, s: int, t: int) -> bool {
    &&& 0 <= t < 64
    &&& t != s
    &&& on_line(line, s, t)
    &&& forall|j: int|
        (s < j < t || t < j < s) && on_line(line, s, j) ==> !(#[trigger] occupancy.has(j))
}

/// Whether a rook on `s` reaches `t`.
pub open spec fn rook_sees(occupancy: BitBoard, s: int, t: int) -> bool {
    sees(occupancy, Line::File, s, t) || sees(occupancy, Line::Rank, s, t)
}

/// Whether a bishop on `s` reaches `t`.
pub open spec fn bishop_sees(occupancy: BitBoard, s: int, t: int) -> bool {
    sees(occupancy, Line::Diagonal, s, t) || sees(occupancy, Line::AntiDiagonal, s, t)
}

/// Whether a queen on `s` reaches `t`.
pub open spec fn queen_sees(occupancy: BitBoard, s: int, t: int) -> bool {
    rook_sees(occupancy, s, t) || bishop_sees(occupancy, s, t)
}

/// The line that the mirror image of a line lies on, when the board is
/// mirrored top to bottom.
pub open spec fn flipped_line(line: Line) -> Line {
    match line {
        Line::File => Line::File,
        Line::Rank => Line::Rank,
        Line::Diagonal => Line::AntiDiagonal,
        Line::AntiDiagonal => Line::Diagonal,
    }
}

/// What the ray towards higher indices holds: the squares that the slider
/// reaches on that side of the line.
pub proof fn lemma_ray_up(occupancy: BitBoard, mask: BitBoard, line: Line, s: int)
    requires
        0 <= s < 64,
        forall|j: int| 0 <= j < 64 ==> #[trigger] mask.has(j) == on_line(line, s, j),
    ensures
        forall|t: int| #[trigger]
            occupancy.ray(mask, s).has(t) == (t > s && sees(occupancy, line, s, t)),
{
    assert forall|t: int| #[trigger]
        occupancy.ray(mask, s).has(t) == (t > s && sees(occupancy, line, s, t)) by {
        lemma_ray(occupancy, mask, s, t);
        if s < t < 64 && mask.has(t) {
            if forall|j: int| s < j < t ==> !(#[trigger] occupancy.has(j) && mask.has(j)) {
                assert forall|j: int|
                    (s < j < t || t < j < s) && on_line(line, s, j) implies !(
                #[trigger] occupancy.has(j)) by {
                    assert(mask.has(j));
                }
            }
            if sees(occupancy, line, s, t) {
                assert forall|j: int| s < j < t implies !(#[trigger] occupancy.has(j) && mask.has(
                    j,
                )) by {
                    if mask.has(j) {
                        assert(on_line(line, s, j));
                    }
                }
            }
        }
    }
}

/// Mirroring the board top to bottom keeps files, exchanges the two kinds
/// of diagonals, and reverses the order of the squares along each of them.
pub proof fn lemma_flipped_line(line: Line, s: int, j: int)
    requires
        0 <= s < 64,
        0 <= j < 64,
        line != Line::Rank,
    ensures
        0 <= flip_rank(j) < 64,
        flip_rank(flip_rank(j)) == j,
        on_line(flipped_line(line), flip_rank(s), flip_rank(j)) == on_line(line, s, j),
        on_line(line, s, j) ==> (flip_rank(j) > flip_rank(s)) == (j < s),
        on_line(line, s, j) ==> (flip_rank(j) < flip_rank(s)) == (j > s),
{
    reveal(on_line);
    reveal(flip_rank);
    let fs = s % 8;
    let rs = s / 8;
    let fj = j % 8;
    let rj = j / 8;
    assert(s == 8 * rs + fs && j == 8 * rj + fj);
    assert(flip_rank(s) == 8 * (7 - rs) + fs);
    assert(flip_rank(j) == 8 * (7 - rj) + fj);
    assert(flip_rank(s) % 8 == fs && flip_rank(s) / 8 == 7 - rs);
    assert(flip_rank(j) % 8 == fj && flip_rank(j) / 8 == 7 - rj);
}

/// Two squares on a line through a third lie on a line with each other.
pub proof fn lemma_same_line(line: Line, s: int, j: int, t: int)
    ensures
        on_line(line, s, j) && on_line(line, s, t) ==> on_line(line, t, j),
        on_line(line, s, j) == on_line(line, j, s),
{
    reveal(on_line);
}

/// A slider reaches the same squares on the board mirrored top to bottom,
/// mirrored.
pub proof fn lemma_sees_flipped(occupancy: BitBoard, line: Line, s: int, t: int)
    requires
        0 <= s < 64,
        0 <= t < 64,
        line != Line::Rank,
    ensures
        sees(occupancy.reverse_colors(), flipped_line(line), flip_rank(s), flip_rank(t)) == sees(
            occupancy,
            line,
            s,
            t,
        ),
{
    let flipped = occupancy.reverse_colors();
    let fline = flipped_line(line);
    let fs = flip_rank(s);
    let ft = flip_rank(t);
    lemma_flipped_line(line, s, t);
    if sees(flipped, fline, fs, ft) {
        assert forall|j: int|
            (s < j < t || t < j < s) && on_line(line, s, j) implies !(#[trigger] occupancy.has(
            j,
        )) by {
            lemma_flipped_line(line, s, j);
            lemma_same_line(line, s, j, t);
            lemma_flipped_line(line, t, j);
            crate::bitboard::lemma_mirrored_square(occupancy, j);
            assert(!flipped.has(flip_rank(j)));
        }
    }
    if sees(occupancy, line, s, t) {
        assert forall|fj: int|
            (fs < fj < ft || ft < fj < fs) && on_line(fline, fs, fj) implies !(
        #[trigger] flipped.has(fj)) by {
            if 0 <= fj < 64 {
                let j = flip_rank(fj);
                crate::bitboard::lemma_mirrored_square(occupancy, fj);
                lemma_flipped_line(line, s, fj);
                lemma_flipped_line(line, s, j);
                lemma_same_line(line, s, j, t);
                lemma_flipped_line(line, t, j);
                assert(!occupancy.has(j));
            }
        }
    }
}

/// What the ray towards lower indices holds, found on the board mirrored
/// top to bottom and mirrored back: the squares that the slider reaches on
/// that side of a file or of a diagonal.
pub proof fn lemma_ray_down(occupancy: BitBoard, mask: BitBoard, line: Line, s: int)
    requires
        0 <= s < 64,
        line != Line::Rank,
        forall|j: int|
            0 <= j < 64 ==> #[trigger] mask.has(j) == on_line(flipped_line(line), flip_rank(s), j),
    ensures
        forall|t: int| #[trigger]
            occupancy.reverse_colors().ray(mask, flip_rank(s)).reverse_colors().has(t) == (t < s
                && sees(occupancy, line, s, t)),
{
    let flipped = occupancy.reverse_colors();
    let fs = flip_rank(s);
    let fline = flipped_line(line);
    let up = flipped.ray(mask, fs);
    lemma_flipped_line(line, s, s);
    lemma_ray_up(flipped, mask, fline, fs);
    assert forall|t: int| #[trigger]
        up.reverse_colors().has(t) == (t < s && sees(occupancy, line, s, t)) by {
        if 0 <= t < 64 {
            let ft = flip_rank(t);
            crate::bitboard::lemma_mirrored_square(up, t);
            lemma_flipped_line(line, s, t);
            lemma_sees_flipped(occupancy, line, s, t);
            assert(up.has(ft) == (ft > fs && sees(flipped, fline, fs, ft)));
        }
    }
}

/// Mirroring the board left to right keeps ranks and reverses the order of
/// the squares along each.
pub proof fn lemma_mirrored_rank(s: int, j: int)
    requires
        0 <= s < 64,
        0 <= j < 64,
    ensures
        0 <= mirror_file(j) < 64,
        mirror_file(mirror_file(j)) == j,
        on_line(Line::Rank, mirror_file(s), mirror_file(j)) == on_line(Line::Rank, s, j),
        on_line(Line::Rank, mirror_file(s), j) == on_line(Line::Rank, s, j),
        on_line(Line::Rank, s, j) ==> (mirror_file(j) > mirror_file(s)) == (j < s),
        on_line(Line::Rank, s, j) ==> (mirror_file(j) < mirror_file(s)) == (j > s),
{
    reveal(on_line);
    reveal(mirror_file);
    let fs = s % 8;
    let rs = s / 8;
    let fj = j % 8;
    let rj = j / 8;
    assert(s == 8 * rs + fs && j == 8 * rj + fj);
    assert(mirror_file(s) == 8 * rs + (7 - fs));
    assert(mirror_file(j) == 8 * rj + (7 - fj));
    assert(mirror_file(s) / 8 == rs && mirror_file(s) % 8 == 7 - fs);
    assert(mirror_file(j) / 8 == rj && mirror_file(j) % 8 == 7 - fj);
}

/// A rook reaches the same squares of its rank on the board mirrored left
/// to right, mirrored.
pub proof fn lemma_sees_mirrored(occupancy: BitBoard, s: int, t: int)
    requires
        0 <= s < 64,
        0 <= t < 64,
    ensures
        sees(occupancy.mirror_horizontally(), Line::Rank, mirror_file(s), mirror_file(t)) == sees(
            occupancy,
            Line::Rank,
            s,
            t,
        ),
{
    let mirrored = occupancy.mirror_horizontally();
    let ms = mirror_file(s);
    let mt = mirror_file(t);
    lemma_mirrored_rank(s, t);
    if sees(mirrored, Line::Rank, ms, mt) {
        assert forall|j: int|
            (s < j < t || t < j < s) && on_line(Line::Rank, s, j) implies !(
        #[trigger] occupancy.has(j)) by {
            lemma_mirrored_rank(s, j);
            lemma_same_line(Line::Rank, s, j, t);
            lemma_mirrored_rank(t, j);
            crate::bitboard::lemma_mirrored_square(occupancy, j);
            assert(!mirrored.has(mirror_file(j)));
        }
    }
    if sees(occupancy, Line::Rank, s, t) {
        assert forall|mj: int|
            (ms < mj < mt || mt < mj < ms) && on_line(Line::Rank, ms, mj) implies !(
        #[trigger] mirrored.has(mj)) by {
            if 0 <= mj < 64 {
                let j = mirror_file(mj);
                crate::bitboard::lemma_mirrored_square(occupancy, mj);
                lemma_mirrored_rank(s, mj);
                lemma_mirrored_rank(s, j);
                lemma_same_line(Line::Rank, s, j, t);
                lemma_mirrored_rank(t, j);
                assert(!occupancy.has(j));
            }
        }
    }
}

/// What the ray towards lower indices of a rank holds, found on the board
/// mirrored left to right and mirrored back.
pub proof fn lemma_ray_west(occupancy: BitBoard, mask: BitBoard, s: int)
    requires
        0 <= s < 64,
        forall|j: int| 0 <= j < 64 ==> #[trigger] mask.has(j) == on_line(Line::Rank, s, j),
    ensures
        forall|t: int| #[trigger]
            occupancy.mirror_horizontally().ray(mask, mirror_file(s)).mirror_horizontally().has(t)
                == (t < s && sees(occupancy, Line::Rank, s, t)),
{
    let mirrored = occupancy.mirror_horizontally();
    let ms = mirror_file(s);
    let up = mirrored.ray(mask, ms);
    lemma_mirrored_rank(s, s);
    assert forall|j: int| 0 <= j < 64 implies #[trigger] mask.has(j) == on_line(
        Line::Rank,
        ms,
        j,
    ) by {
        lemma_mirrored_rank(s, j);
    }
    lemma_ray_up(mirrored, mask, Line::Rank, ms);
    assert forall|t: int| #[trigger]
        up.mirror_horizontally().has(t) == (t < s && sees(occupancy, Line::Rank, s, t)) by {
        if 0 <= t < 64 {
            let mt = mirror_file(t);
            crate::bitboard::lemma_mirrored_square(up, t);
            lemma_mirrored_rank(s, t);
            lemma_sees_mirrored(occupancy, s, t);
            assert(up.has(mt) == (mt > ms && sees(mirrored, Line::Rank, ms, mt)));
        }
    }
}

/// The masks of the lines through a square hold the squares on those lines,
/// and the mirrored square has the mirrored index.
pub proof fn lemma_line_masks(origin: Position, line: Line, mask: BitBoard)
    requires
        origin.wf(),
        forall|j: int| #[trigger]
            mask.has(j) == (0 <= j < 64 && match line {
                Line::File => file_of(j) == origin.file_x,
                Line::Rank => rank_of(j) == origin.rank_y,
                Line::Diagonal => rank_of(j) - file_of(j) == origin.rank_y - origin.file_x,
                Line::AntiDiagonal => rank_of(j) + file_of(j) == origin.rank_y + origin.file_x,
            }),
    ensures
        forall|j: int| 0 <= j < 64 ==> #[trigger] mask.has(j) == on_line(line, origin.index(), j),
        origin.flipped().index() == flip_rank(origin.index()),
        (Position { file_x: (7 - origin.file_x) as u8, rank_y: origin.rank_y }).index()
            == mirror_file(origin.index()),
{
    reveal(on_line);
    reveal(flip_rank);
    reveal(mirror_file);
    let s = origin.index();
    assert(s % 8 == origin.file_x && s / 8 == origin.rank_y);
}

/// The mirrored square has the mirrored index.
pub proof fn lemma_mirrored_index(origin: Position)
    requires
        origin.wf(),
    ensures
        origin.flipped().index() == flip_rank(origin.index()),
        (Position { file_x: (7 - origin.file_x) as u8, rank_y: origin.rank_y }).index()
            == mirror_file(origin.index()),
{
    reveal(flip_rank);
    reveal(mirror_file);
}

/// The squares that a slider on `origin` reaches along its file.
pub fn file_rays(occupancy: BitBoard, origin: Position) -> (r: BitBoard)
    requires
        origin.wf(),
    ensures
        forall|t: int| #[trigger] r.has(t) == sees(occupancy, Line::File, origin.index(), t),
{
    let line = file_mask(origin.file_x);
    // Start with North (positive vertical): subtract the piece from the
    // blockers on the same file. The formula is o^(o-2r), and only applies
    // to "positive rays", on bitboards with 1 square.
    let north = occupancy.positive_ray(line, origin);

    // For South (negative vertical), the same formula after swapping the
    // board direction. This is a swap, not a rotation: the file is preserved.
    let flipped = origin.flip();
    let south = occupancy.reverse_colors().positive_ray(line, flipped).reverse_colors();
    let r = north | south;
    proof {
        let s = origin.index();
        lemma_line_masks(origin, Line::File, line);
        lemma_line_masks(flipped, Line::File, line);
        lemma_ray_up(occupancy, line, Line::File, s);
        lemma_ray_down(occupancy, line, Line::File, s);
        assert forall|t: int| #[trigger] r.has(t) == sees(occupancy, Line::File, s, t) by {
            assert(r@.contains(t) == (north@.contains(t) || south@.contains(t)));
        }
    }
    r
}

/// The squares that a slider on `origin` reaches along its rank.
pub fn rank_rays(occupancy: BitBoard, origin: Position) -> (r: BitBoard)
    requires
        origin.wf(),
    ensures
        forall|t: int| #[trigger] r.has(t) == sees(occupancy, Line::Rank, origin.index(), t),
{
    let line = rank_mask(origin.rank_y);
    // For East (positive horizontal), the North formula with the rank mask
    let east = occupancy.positive_ray(line, origin);

    // For West (negative horizontal), the East formula on the board mirrored
    // horizontally. This is a mirror, not a rotation: the rank is preserved.
    let mirrored = Position { file_x: 7 - origin.file_x, rank_y: origin.rank_y };
    let west = occupancy.mirror_horizontally().positive_ray(
        line,
        mirrored,
    ).mirror_horizontally();
    let r = east | west;
    proof {
        let s = origin.index();
        lemma_line_masks(origin, Line::Rank, line);
        lemma_ray_up(occupancy, line, Line::Rank, s);
        lemma_ray_west(occupancy, line, s);
        assert forall|t: int| #[trigger] r.has(t) == sees(occupancy, Line::Rank, s, t) by {
            assert(r@.contains(t) == (east@.contains(t) || west@.contains(t)));
        }
    }
    r
}

/// The squares up the diagonal parallel to a1-h8 from a square, as the
/// subtraction finds them.
pub open spec fn north_east(occupancy: BitBoard, origin: Position) -> BitBoard {
    occupancy.ray(
        BitBoard(crate::bits::diagonal_word((7 + origin.rank_y - origin.file_x) as u64)),
        origin.index(),
    )
}

/// The squares down the diagonal parallel to a1-h8 from a square, as the
/// subtraction finds them on the board mirrored top to bottom.
pub open spec fn south_west(occupancy: BitBoard, origin: Position) -> BitBoard {
    occupancy.reverse_colors().ray(
        BitBoard(
            crate::bits::anti_diagonal_word((origin.flipped().rank_y + origin.file_x) as u64),
        ),
        origin.flipped().index(),
    ).reverse_colors()
}

/// The squares that a slider on `origin` reaches up its diagonal parallel
/// to a1-h8.
pub fn north_east_ray(occupancy: BitBoard, origin: Position) -> (r: BitBoard)
    requires
        origin.wf(),
    ensures
        r == north_east(occupancy, origin),
        forall|t: int| #[trigger]
            r.has(t) == (t > origin.index() && sees(occupancy, Line::Diagonal, origin.index(), t)),
{
    // North-East, along the diagonal
    let line = diagonal_mask(7 + origin.rank_y - origin.file_x);
    let north_east = occupancy.positive_ray(line, origin);
    proof {
        lemma_line_masks(origin, Line::Diagonal, line);
        lemma_ray_up(occupancy, line, Line::Diagonal, origin.index());
    }
    north_east
}

/// The squares that a slider on `origin` reaches down its diagonal parallel
/// to a1-h8.
pub fn south_west_ray(occupancy: BitBoard, origin: Position) -> (r: BitBoard)
    requires
        origin.wf(),
    ensures
        r == south_west(occupancy, origin),
        forall|t: int| #[trigger]
            r.has(t) == (t < origin.index() && sees(occupancy, Line::Diagonal, origin.index(), t)),
{
    // South-West: on the board swapped top to bottom the diagonal is an
    // anti-diagonal, and the ray points up.
    let flipped = origin.flip();
    let flipped_mask = anti_diagonal_mask(flipped.rank_y + flipped.file_x);
    let south_west = occupancy.reverse_colors().positive_ray(
        flipped_mask,
        flipped,
    ).reverse_colors();
    proof {
        lemma_mirrored_index(origin);
        lemma_line_masks(flipped, Line::AntiDiagonal, flipped_mask);
        lemma_ray_down(occupancy, flipped_mask, Line::Diagonal, origin.index());
    }
    south_west
}

/// The squares that a slider on `origin` reaches along its diagonal
/// parallel to a1-h8.
pub fn diagonal_rays(occupancy: BitBoard, origin: Position) -> (r: BitBoard)
    requires
        origin.wf(),
    ensures
        forall|t: int| #[trigger] r.has(t) == sees(occupancy, Line::Diagonal, origin.index(), t),
{
    let north_east = north_east_ray(occupancy, origin);
    let south_west = south_west_ray(occupancy, origin);
    let r = north_east | south_west;
    proof {
        let s = origin.index();
        assert forall|t: int| #[trigger] r.has(t) == sees(occupancy, Line::Diagonal, s, t) by {
            assert(r@.contains(t) == (north_east@.contains(t) || south_west@.contains(t)));
        }
    }
    r
}

/// The squares that a slider on `origin` reaches along its diagonal
/// parallel to a8-h1.
pub fn anti_diagonal_rays(occupancy: BitBoard, origin: Position) -> (r: BitBoard)
    requires
        origin.wf(),
    ensures
        forall|t: int| #[trigger]
            r.has(t) == sees(occupancy, Line::AntiDiagonal, origin.index(), t),
{
    // North-West, along the anti-diagonal
    let anti_mask = anti_diagonal_mask(origin.rank_y + origin.file_x);
    let north_west = occupancy.positive_ray(anti_mask, origin);

    // South-East: the anti-diagonal is a diagonal on the swapped board.
    let flipped = origin.flip();
    let flipped_mask = diagonal_mask(7 + flipped.rank_y - flipped.file_x);
    let south_east = occupancy.reverse_colors().positive_ray(
        flipped_mask,
        flipped,
    ).reverse_colors();
    let r = north_west | south_east;
    proof {
        let s = origin.index();
        lemma_line_masks(origin, Line::AntiDiagonal, anti_mask);
        lemma_line_masks(flipped, Line::Diagonal, flipped_mask);
        lemma_ray_up(occupancy, anti_mask, Line::AntiDiagonal, s);
        lemma_ray_down(occupancy, flipped_mask, Line::AntiDiagonal, s);
        assert forall|t: int| #[trigger] r.has(t) == sees(occupancy, Line::AntiDiagonal, s, t) by {
            assert(r@.contains(t) == (north_west@.contains(t) || south_east@.contains(t)));
        }
    }
    r
}

/// The squares that one rook on `origin` reaches on a board with the given
/// occupancy, whatever stands on them.
pub fn rook_rays(occupancy: BitBoard, origin: Position) -> (r: BitBoard)
    requires
        origin.wf(),
    ensures
        forall|t: int| #[trigger] r.has(t) == rook_sees(occupancy, origin.index(), t),
{
    let vertical = file_rays(occupancy, origin);
    let horizontal = rank_rays(occupancy, origin);
    let r = vertical | horizontal;
    proof {
        assert forall|t: int| #[trigger] r.has(t) == rook_sees(occupancy, origin.index(), t) by {
            assert(r@.contains(t) == (vertical@.contains(t) || horizontal@.contains(t)));
        }
    }
    r
}

/// The squares that one bishop on `origin` reaches on a board with the
/// given occupancy, whatever stands on them.
pub fn bishop_rays(occupancy: BitBoard, origin: Position) -> (r: BitBoard)
    requires
        origin.wf(),
    ensures
        forall|t: int| #[trigger] r.has(t) == bishop_sees(occupancy, origin.index(), t),
{
    let main = diagonal_rays(occupancy, origin);
    let anti = anti_diagonal_rays(occupancy, origin);
    let r = main | anti;
    proof {
        assert forall|t: int| #[trigger] r.has(t) == bishop_sees(occupancy, origin.index(), t) by {
            assert(r@.contains(t) == (main@.contains(t) || anti@.contains(t)));
        }
    }
    r
}

/// The squares that rooks on any of the given squares reach, whatever
/// stands on them.
pub fn straight_rays(occupancy: BitBoard, origins: BitBoard) -> (r: BitBoard)
    ensures
        forall|t: int| #[trigger]
            r.has(t) == exists|s: int| #[trigger] origins.has(s) && rook_sees(occupancy, s, t),
{
    let mut result = BitBoard::empty();
    let mut rest = origins;
    // The formula only works on bitboards with 1 square, so we must do 1
    // piece at a time
    while rest.0 != 0
        invariant
            forall|s: int| #[trigger] rest.has(s) ==> origins.has(s),
            forall|t: int| #[trigger]
                result.has(t) == exists|s: int| #[trigger]
                    origins.has(s) && !rest.has(s) && rook_sees(occupancy, s, t),
        decreases rest@.len(),
    {
        let ghost before = rest;
        let ghost found = result;
        proof {
            crate::bitboard::lemma_clear_lowest_square(rest);
        }
        let origin = rest.next().unwrap();
        let seen = rook_rays(occupancy, origin);
        result = result | seen;
        proof {
            let o = origin.index();
            assert forall|s: int| #[trigger] rest.has(s) implies origins.has(s) by {
                assert(rest@.contains(s) ==> before@.contains(s));
                assert(before.has(s));
            }
            assert forall|t: int| #[trigger]
                result.has(t) == exists|s: int| #[trigger]
                    origins.has(s) && !rest.has(s) && rook_sees(occupancy, s, t) by {
                assert(result@.contains(t) == (found@.contains(t) || seen@.contains(t)));
                if result.has(t) {
                    if found.has(t) {
                        let s = choose|s: int| #[trigger]
                            origins.has(s) && !before.has(s) && rook_sees(occupancy, s, t);
                        assert(rest@.contains(s) ==> before@.contains(s));
                        assert(origins.has(s) && !rest.has(s));
                    } else {
                        assert(before.has(o));
                        assert(!rest@.contains(o));
                        assert(origins.has(o) && !rest.has(o));
                    }
                }
                if exists|s: int| #[trigger]
                    origins.has(s) && !rest.has(s) && rook_sees(occupancy, s, t) {
                    let s = choose|s: int| #[trigger]
                        origins.has(s) && !rest.has(s) && rook_sees(occupancy, s, t);
                    assert(rest@.contains(s) == (before@.contains(s) && s != o));
                    if s != o {
                        assert(origins.has(s) && !before.has(s));
                        assert(found.has(t));
                    }
                }
            }
        }
    }
    proof {
        crate::bitboard::lemma_empty();
        assert forall|t: int| #[trigger]
            result.has(t) == exists|s: int| #[trigger] origins.has(s) && rook_sees(occupancy, s, t) by {
            if exists|s: int| #[trigger] origins.has(s) && rook_sees(occupancy, s, t) {
                let s = choose|s: int| #[trigger] origins.has(s) && rook_sees(occupancy, s, t);
                assert(origins.has(s) && !rest.has(s));
            }
        }
    }
    result
}

/// Generates a bitboard with the moves that can be performed by the sliding pieces in the given bitboard, horizontally and vertically.
///
/// Note that multiple pieces can be passed in the bitboard; to get the moves for individual pieces,
/// iterate over the pieces and call this function with the singular bitboard for each piece.
pub fn get_sliding_straight_moves(board: &Board, color: Color, origins: &BitBoard) -> (r: BitBoard)
    ensures
        forall|t: int| #[trigger]
            r.has(t) == (!board.side(color).pieces.has(t) && exists|s: int| #[trigger]
                origins.has(s) && rook_sees(board.occupancy(), s, t)),
{
    let all_pieces = board.white.pieces | board.black.pieces;
    let own_pieces = board.get_side(color).pieces;
    // we don't want to count the blocker if it's our own piece (it's a
    // capture otherwise)
    let free = own_pieces.inverse();
    let seen = straight_rays(all_pieces, *origins);
    let r = seen & free;
    proof {
        assert forall|t: int| #[trigger]
            r.has(t) == (!board.side(color).pieces.has(t) && exists|s: int| #[trigger]
                origins.has(s) && rook_sees(board.occupancy(), s, t)) by {
            assert(r@.contains(t) == (seen@.contains(t) && free@.contains(t)));
        }
    }
    r
}

/// The squares that bishops on any of the given squares reach, whatever
/// stands on them.
pub fn diagonal_rays_from(occupancy: BitBoard, origins: BitBoard) -> (r: BitBoard)
    ensures
        forall|t: int| #[trigger]
            r.has(t) == exists|s: int| #[trigger] origins.has(s) && bishop_sees(occupancy, s, t),
{
    let mut result = BitBoard::empty();
    let mut rest = origins;
    // The formula only works on bitboards with 1 square, so we must do 1
    // piece at a time
    while rest.0 != 0
        invariant
            forall|s: int| #[trigger] rest.has(s) ==> origins.has(s),
            forall|t: int| #[trigger]
                result.has(t) == exists|s: int| #[trigger]
                    origins.has(s) && !rest.has(s) && bishop_sees(occupancy, s, t),
        decreases rest@.len(),
    {
        let ghost before = rest;
        let ghost found = result;
        proof {
            crate::bitboard::lemma_clear_lowest_square(rest);
        }
        let origin = rest.next().unwrap();
        let seen = bishop_rays(occupancy, origin);
        result = result | seen;
        proof {
            let o = origin.index();
            assert forall|s: int| #[trigger] rest.has(s) implies origins.has(s) by {
                assert(rest@.contains(s) ==> before@.contains(s));
                assert(before.has(s));
            }
            assert forall|t: int| #[trigger]
                result.has(t) == exists|s: int| #[trigger]
                    origins.has(s) && !rest.has(s) && bishop_sees(occupancy, s, t) by {
                assert(result@.contains(t) == (found@.contains(t) || seen@.contains(t)));
                if result.has(t) {
                    if found.has(t) {
                        let s = choose|s: int| #[trigger]
                            origins.has(s) && !before.has(s) && bishop_sees(occupancy, s, t);
                        assert(rest@.contains(s) ==> before@.contains(s));
                        assert(origins.has(s) && !rest.has(s));
                    } else {
                        assert(before.has(o));
                        assert(!rest@.contains(o));
                        assert(origins.has(o) && !rest.has(o));
                    }
                }
                if exists|s: int| #[trigger]
                    origins.has(s) && !rest.has(s) && bishop_sees(occupancy, s, t) {
                    let s = choose|s: int| #[trigger]
                        origins.has(s) && !rest.has(s) && bishop_sees(occupancy, s, t);
                    assert(rest@.contains(s) == (before@.contains(s) && s != o));
                    if s != o {
                        assert(origins.has(s) && !before.has(s));
                        assert(found.has(t));
                    }
                }
            }
        }
    }
    proof {
        crate::bitboard::lemma_empty();
        assert forall|t: int| #[trigger]
            result.has(t) == exists|s: int| #[trigger] origins.has(s) && bishop_sees(occupancy, s, t) by {
            if exists|s: int| #[trigger] origins.has(s) && bishop_sees(occupancy, s, t) {
                let s = choose|s: int| #[trigger] origins.has(s) && bishop_sees(occupancy, s, t);
                assert(origins.has(s) && !rest.has(s));
            }
        }
    }
    result
}

/// Generates a bitboard with the moves that can be performed by the sliding pieces in the given bitboard, along both diagonals.
///
/// Note that multiple pieces can be passed in the bitboard; to get the moves for individual pieces,
/// iterate over the pieces and call this function with the singular bitboard for each piece.
pub fn get_sliding_diagonal_moves(board: &Board, color: Color, origins: &BitBoard) -> (r: BitBoard)
    ensures
        forall|t: int| #[trigger]
            r.has(t) == (!board.side(color).pieces.has(t) && exists|s: int| #[trigger]
                origins.has(s) && bishop_sees(board.occupancy(), s, t)),
{
    let all_pieces = board.white.pieces | board.black.pieces;
    let own_pieces = board.get_side(color).pieces;
    // we don't want to count the blocker if it's our own piece (it's a
    // capture otherwise)
    let free = own_pieces.inverse();
    let seen = diagonal_rays_from(all_pieces, *origins);
    let r = seen & free;
    proof {
        assert forall|t: int| #[trigger]
            r.has(t) == (!board.side(color).pieces.has(t) && exists|s: int| #[trigger]
                origins.has(s) && bishop_sees(board.occupancy(), s, t)) by {
            assert(r@.contains(t) == (seen@.contains(t) && free@.contains(t)));
        }
    }
    r
}

/// The value of what stands on the square with index `t`; 0 for an empty
/// square.
pub open spec fn value_at(board: Board, t: int) -> int {
    match board.piece_at(Position::at(t)) {
        Some(piece) => piece.value(),
        None => 0,
    }
}

/// The moves from `origin` to each of the given squares in turn, each with
/// the value of what it takes.
pub open spec fn valued_moves(board: Board, origin: Position, squares: Seq<int>) -> Seq<(Move, u8)> {
    Seq::new(
        squares.len(),
        |n: int|
            (
                Move(origin, Position::at(squares[n]), Promotion::NoPromotion),
                value_at(board, squares[n]) as u8,
            ),
    )
}

/// The squares that a piece of the colour reaches from `origin` up its
/// diagonal parallel to a1-h8: what a slider reaches there, less the
/// squares of its own side.
pub open spec fn main_diagonal_up(board: Board, color: Color, origin: Position) -> BitBoard {
    north_east(board.occupancy(), origin).intersection(board.side(color).pieces.complement())
}

/// The squares that a piece of the colour reaches from `origin` down its
/// diagonal parallel to a1-h8.
pub open spec fn main_diagonal_down(board: Board, color: Color, origin: Position) -> BitBoard {
    south_west(board.occupancy(), origin).intersection(board.side(color).pieces.complement())
}

/// Generates moves that slide towards parallel to (or on) the main diagonal.
/// Also returns the worth of the piece being taken, if any.
///
/// The moves up the diagonal come first, then those down it, each walking
/// away from the origin.
pub fn get_sliding_main_diagonal_moves(board: Board, color: Color, origin: Position) -> (moves:
    Vec<(Move, u8)>)
    requires
        origin.wf(),
    ensures
        moves@ == valued_moves(board, origin, main_diagonal_up(board, color, origin).squares())
            + valued_moves(
            board,
            origin,
            main_diagonal_down(board, color, origin).squares().reverse(),
        ),
        forall|t: int| #[trigger]
            main_diagonal_up(board, color, origin).has(t) == (t > origin.index() && sees(
                board.occupancy(),
                Line::Diagonal,
                origin.index(),
                t,
            ) && !board.side(color).pieces.has(t)),
        forall|t: int| #[trigger]
            main_diagonal_down(board, color, origin).has(t) == (t < origin.index() && sees(
                board.occupancy(),
                Line::Diagonal,
                origin.index(),
                t,
            ) && !board.side(color).pieces.has(t)),
{
    let all_pieces = board.black.pieces | board.white.pieces;
    proof {
        crate::bitboard::lemma_set_algebra(board.black.pieces, board.white.pieces);
        crate::bitboard::lemma_set_algebra(board.white.pieces, board.black.pieces);
        crate::bitboard::lemma_same_squares(all_pieces, board.occupancy());
    }
    let free = board.get_side(color).pieces.inverse();
    let up = north_east_ray(all_pieces, origin) & free;
    let down = south_west_ray(all_pieces, origin) & free;
    let ups = up.to_positions();
    let downs = down.to_positions();
    let ghost first = valued_moves(board, origin, up.squares());
    let ghost second = valued_moves(board, origin, down.squares().reverse());
    proof {
        crate::bitboard::lemma_set_algebra(
            north_east(all_pieces, origin),
            board.side(color).pieces.complement(),
        );
        crate::bitboard::lemma_set_algebra(
            south_west(all_pieces, origin),
            board.side(color).pieces.complement(),
        );
        crate::bitboard::lemma_set_algebra(board.side(color).pieces, board.side(color).pieces);
    }

    let mut moves: Vec<(Move, u8)> = Vec::new();
    let mut n: usize = 0;
    while n < ups.len()
        invariant
            n <= ups@.len(),
            origin.wf(),
            ups@ == up.positions(),
            first == valued_moves(board, origin, up.squares()),
            forall|k: int| 0 <= k < ups@.len() ==> (#[trigger] ups@[k]).wf(),
            moves@ == first.subrange(0, n as int),
        decreases ups@.len() - n,
    {
        let attack = ups[n];
        let val = board.get_piece_value(attack);
        moves.push((Move(origin, attack, Promotion::NoPromotion), val));
        proof {
            assert(moves@ =~= first.subrange(0, n as int + 1));
        }
        n = n + 1;
    }
    proof {
        assert(moves@ =~= first);
    }
    let mut n: usize = downs.len();
    while n > 0
        invariant
            n <= downs@.len(),
            origin.wf(),
            downs@ == down.positions(),
            second == valued_moves(board, origin, down.squares().reverse()),
            forall|k: int| 0 <= k < downs@.len() ==> (#[trigger] downs@[k]).wf(),
            moves@ == first + second.subrange(0, downs@.len() - n),
        decreases n,
    {
        n = n - 1;
        let attack = downs[n];
        let val = board.get_piece_value(attack);
        moves.push((Move(origin, attack, Promotion::NoPromotion), val));
        proof {
            assert(moves@ =~= first + second.subrange(0, downs@.len() - n));
        }
    }
    proof {
        assert(moves@ =~= first + second);
    }
    moves
}

} // verus!
