//! A 64-bit board read as a set of squares.
//!
//! Bit `i` of the word stands for the square with index `i`: 0 is a1, 7 is
//! h1, 63 is h8. The view of a board is the set of its squares' indices, and
//! every operation says what it does to that set.
use crate::bits::{
    bit, flip_anti_diagonal, flip_diagonal, flip_vertical, lemma_bit_const, lemma_bit_ops,
    lemma_bit_shift, lemma_bits_equal, lemma_clear_lowest, lemma_flip_bits, lemma_flip_twice,
    lemma_lowest_bit, lemma_positive_ray_bits, mirror_horizontal, positive_ray, single,
};
use crate::game::position::Position;
use vstd::prelude::*;
use vstd::string::*;
use vstd::set_lib::{lemma_int_range, lemma_len_subset, set_int_range};
use vstd::std_specs::bits::u64_trailing_zeros;
use vstd::wrapping::u64_specs::{wrapping_mul, wrapping_sub};

verus! {

#[derive(PartialEq, Eq, PartialOrd, Clone, Copy, Debug, Hash, Structural)]
pub struct BitBoard(pub u64);

impl View for BitBoard {
    type V = Set<int>;

    /// The squares of the board, by index.
    open spec fn view(&self) -> Set<int> {
        Set::new(|i: int| self.has(i))
    }
}

/// The index of the square in the same file on the mirrored rank.
#[verifier::opaque]
pub open spec fn flip_rank(i: int) -> int {
    8 * (7 - i / 8) + i % 8
}

/// The index of the square in the same rank on the mirrored file.
#[verifier::opaque]
pub open spec fn mirror_file(i: int) -> int {
    8 * (i / 8) + (7 - i % 8)
}

/// The index of the square with file and rank exchanged.
pub open spec fn transpose(i: int) -> int {
    8 * (i % 8) + i / 8
}

/// The index of the square mirrored about the a8-h1 line.
pub open spec fn anti_transpose(i: int) -> int {
    8 * (7 - i % 8) + (7 - i / 8)
}

/// The squares of `s` moved up by `n` indices, as far as they stay on the
/// board.
pub open spec fn shift_set(s: Set<int>, n: int) -> Set<int> {
    Set::new(|i: int| 0 <= i < 64 && s.contains(i - n))
}

impl BitBoard {
    /// Whether the square with index `i` is on the board.
    pub open spec fn has(self, i: int) -> bool {
        0 <= i < 64 && bit(self.0, i as u64)
    }

    /// The smallest index on the board.
    pub open spec fn lowest(self) -> int {
        u64_trailing_zeros(self.0) as int
    }

    /// The board without its lowest square.
    pub open spec fn without_lowest(self) -> BitBoard {
        BitBoard(self.0 & ((self.0 - 1) as u64))
    }

    /// The board with the squares of both.
    pub open spec fn union(self, other: BitBoard) -> BitBoard {
        BitBoard(self.0 | other.0)
    }

    /// The board with the squares that both hold.
    pub open spec fn intersection(self, other: BitBoard) -> BitBoard {
        BitBoard(self.0 & other.0)
    }

    /// The board with the squares that exactly one of the two holds.
    pub open spec fn difference(self, other: BitBoard) -> BitBoard {
        BitBoard(self.0 ^ other.0)
    }

    /// The board with the squares that this one lacks.
    pub open spec fn complement(self) -> BitBoard {
        BitBoard(!self.0)
    }

    /// The board with the one square `i`.
    pub open spec fn square(i: int) -> BitBoard {
        BitBoard(single(i as u64))
    }

    /// The squares of the board in ascending order of index, from index `k` on.
    pub open spec fn squares_from(self, k: int) -> Seq<int>
        decreases 64 - k,
    {
        if k >= 64 || k < 0 {
            Seq::empty()
        } else if self.has(k) {
            seq![k] + self.squares_from(k + 1)
        } else {
            self.squares_from(k + 1)
        }
    }

    /// The squares of the board in ascending order of index.
    pub open spec fn squares(self) -> Seq<int> {
        self.squares_from(0)
    }

    /// The squares of the board in ascending order of index, as positions.
    pub open spec fn positions(self) -> Seq<Position> {
        Seq::new(self.squares().len(), |n: int| Position::at(self.squares()[n]))
    }

    /// The board without squares.
    pub fn empty() -> (b: BitBoard)
        ensures
            b == BitBoard(0),
            b@ == Set::<int>::empty(),
            forall|i: int| !b.has(i),
    {
        let b = BitBoard(0);
        proof {
            lemma_empty();
        }
        b
    }

    /// Construct a new bitboard from a u64
    pub fn new(b: u64) -> (r: BitBoard)
        ensures
            r == BitBoard(b),
    {
        BitBoard(b)
    }

    /// Construct a new `BitBoard` with a particular `Position` set
    pub fn from_position(position: Position) -> (b: BitBoard)
        requires
            position.wf(),
        ensures
            b == BitBoard::square(position.index()),
            b@ == set![position.index()],
    {
        let b = BitBoard(1u64 << position.to_int());
        proof {
            lemma_square(position.index());
        }
        b
    }

    /// Convert to Position: the lowest square of the board, and a1 for the
    /// board without squares.
    pub fn to_position(&self) -> (p: Position)
        ensures
            p.wf(),
            self.0 != 0 ==> p.index() == self.lowest() && self.has(p.index()) && forall|j: int|
                0 <= j < p.index() ==> !self.has(j),
            self.0 == 0 ==> p == (Position { file_x: 0, rank_y: 0 }),
    {
        let trailing = self.0.trailing_zeros();
        proof {
            if self.0 != 0 {
                lemma_lowest(*self);
            }
        }
        let file = (trailing % 8) as u8;
        let rank = ((trailing / 8) % 8) as u8;
        Position { file_x: file, rank_y: rank }
    }

    /// Count the number of `Positions` set in this `BitBoard`
    pub fn popcnt(&self) -> (n: u32)
        ensures
            n == self@.len(),
            n <= 64,
    {
        let mut x: u64 = self.0;
        let mut n: u32 = 0;
        proof {
            lemma_finite(*self);
        }
        while x != 0
            invariant
                BitBoard(x)@.finite(),
                n + BitBoard(x)@.len() == self@.len(),
                self@.len() <= 64,
            decreases BitBoard(x)@.len(),
        {
            proof {
                lemma_clear_lowest_square(BitBoard(x));
            }
            x = x & (x - 1);
            n = n + 1;
        }
        proof {
            lemma_empty();
        }
        n
    }

    /// Reverse this `BitBoard`.  Look at it from the opponents perspective.
    /// Ranks 1 and 8, 2 and 7, 3 and 6, 4 and 5 change places.
    #[verifier::when_used_as_spec(spec_reverse_colors)]
    pub fn reverse_colors(&self) -> (r: BitBoard)
        ensures
            r == self.spec_reverse_colors(),
            forall|i: int| 0 <= i < 64 ==> #[trigger] r.has(i) == self.has(flip_rank(i)),
    {
        let x = self.0;
        let a = ((x >> 8) & 0x00FF_00FF_00FF_00FFu64) | ((x & 0x00FF_00FF_00FF_00FFu64) << 8);
        let b = ((a >> 16) & 0x0000_FFFF_0000_FFFFu64) | ((a & 0x0000_FFFF_0000_FFFFu64) << 16);
        let r = BitBoard((b >> 32) | (b << 32));
        proof {
            lemma_flips(*self);
            assert(r == self.spec_reverse_colors());
        }
        r
    }

    pub open spec fn spec_reverse_colors(&self) -> BitBoard {
        BitBoard(flip_vertical(self.0))
    }

    /// Mirror this `Bitboard` horizontally (left becomes right).
    #[verifier::when_used_as_spec(spec_mirror_horizontally)]
    pub fn mirror_horizontally(&self) -> (r: BitBoard)
        ensures
            r == self.spec_mirror_horizontally(),
            forall|i: int| 0 <= i < 64 ==> #[trigger] r.has(i) == self.has(mirror_file(i)),
    {
        let mut x = self.0;
        let k1: u64 = 0x5555555555555555;
        let k2: u64 = 0x3333333333333333;
        let k4: u64 = 0x0f0f0f0f0f0f0f0f;
        x = ((x >> 1) & k1) | ((x & k1) << 1);
        x = ((x >> 2) & k2) | ((x & k2) << 2);
        x = ((x >> 4) & k4) | ((x & k4) << 4);
        proof {
            lemma_flips(*self);
            assert(BitBoard(x) == self.spec_mirror_horizontally());
        }
        BitBoard(x)
    }

    pub open spec fn spec_mirror_horizontally(&self) -> BitBoard {
        BitBoard(mirror_horizontal(self.0))
    }

    /// Mirror this `Bitboard` horizontally (left becomes right) and flip the colors.
    #[verifier::when_used_as_spec(spec_rotate)]
    pub fn rotate(&self) -> (r: BitBoard)
        ensures
            r == self.spec_rotate(),
            forall|i: int| 0 <= i < 64 ==> #[trigger] r.has(i) == self.has(63 - i),
    {
        let r = self.reverse_colors().mirror_horizontally();
        proof {
            assert forall|i: int| 0 <= i < 64 implies #[trigger] r.has(i) == self.has(63 - i) by {
                reveal(flip_rank);
                reveal(mirror_file);
                assert(0 <= mirror_file(i) < 64);
                assert(flip_rank(mirror_file(i)) == 63 - i);
            }
        }
        r
    }

    pub open spec fn spec_rotate(&self) -> BitBoard {
        self.spec_reverse_colors().spec_mirror_horizontally()
    }

    /// Flip this `Bitboard` about the diagonal.
    #[verifier::when_used_as_spec(spec_flip_diagonally)]
    pub fn flip_diagonally(&self) -> (r: BitBoard)
        ensures
            r == self.spec_flip_diagonally(),
            forall|i: int| 0 <= i < 64 ==> #[trigger] r.has(i) == self.has(transpose(i)),
    {
        let mut x = self.0;
        let k1: u64 = 0x5500550055005500;
        let k2: u64 = 0x3333000033330000;
        let k4: u64 = 0x0f0f0f0f00000000;
        let t4 = k4 & (x ^ (x << 28));
        x = x ^ (t4 ^ (t4 >> 28));
        let t2 = k2 & (x ^ (x << 14));
        x = x ^ (t2 ^ (t2 >> 14));
        let t1 = k1 & (x ^ (x << 7));
        x = x ^ (t1 ^ (t1 >> 7));
        proof {
            lemma_flips(*self);
            assert(BitBoard(x) == self.spec_flip_diagonally());
        }
        BitBoard(x)
    }

    pub open spec fn spec_flip_diagonally(&self) -> BitBoard {
        BitBoard(flip_diagonal(self.0))
    }

    /// Flip this `Bitboard` about the anti-diagonal.
    #[verifier::when_used_as_spec(spec_flip_anti_diagonally)]
    pub fn flip_anti_diagonally(&self) -> (r: BitBoard)
        ensures
            r == self.spec_flip_anti_diagonally(),
            forall|i: int| 0 <= i < 64 ==> #[trigger] r.has(i) == self.has(anti_transpose(i)),
    {
        let mut x = self.0;
        let k1: u64 = 0xaa00aa00aa00aa00;
        let k2: u64 = 0xcccc0000cccc0000;
        let k4: u64 = 0xf0f0f0f00f0f0f0f;
        let t4 = x ^ (x << 36);
        x = x ^ (k4 & (t4 ^ (x >> 36)));
        let t2 = k2 & (x ^ (x << 18));
        x = x ^ (t2 ^ (t2 >> 18));
        let t1 = k1 & (x ^ (x << 9));
        x = x ^ (t1 ^ (t1 >> 9));
        proof {
            lemma_flips(*self);
            assert(BitBoard(x) == self.spec_flip_anti_diagonally());
        }
        BitBoard(x)
    }

    pub open spec fn spec_flip_anti_diagonally(&self) -> BitBoard {
        BitBoard(flip_anti_diagonal(self.0))
    }

    /// The board's word less `other`'s, wrapping around at zero.
    pub fn wrapping_sub(self, other: BitBoard) -> (r: BitBoard)
        ensures
            r == BitBoard(wrapping_sub(self.0, other.0)),
    {
        BitBoard(self.0.wrapping_sub(other.0))
    }

    /// The board's word times `other`'s, keeping the low 64 bits.
    pub fn wrapping_mul(self, other: BitBoard) -> (r: BitBoard)
        ensures
            r == BitBoard(wrapping_mul(self.0, other.0)),
    {
        BitBoard(self.0.wrapping_mul(other.0))
    }

    /// The board with exactly the squares that this one lacks.
    pub fn inverse(self) -> (r: BitBoard)
        ensures
            r == self.complement(),
            r@ == set_int_range(0, 64).difference(self@),
            forall|i: int| 0 <= i < 64 ==> #[trigger] r.has(i) == !self.has(i),
    {
        proof {
            lemma_set_algebra(self, self);
        }
        BitBoard(!self.0)
    }

    /// Whether the board has no square.
    pub fn is_empty(&self) -> (b: bool)
        ensures
            b == (self.0 == 0),
            b == (self@ == Set::<int>::empty()),
    {
        proof {
            lemma_empty();
            if self.0 != 0 {
                lemma_lowest(*self);
                assert(self@.contains(self.lowest()));
            }
        }
        self.0 == 0
    }

    /// Whether the board holds the square.
    pub fn contains(&self, position: Position) -> (b: bool)
        requires
            position.wf(),
        ensures
            b == self.has(position.index()),
    {
        let i = position.to_int();
        (self.0 >> i) & 1 == 1
    }

    /// Convert this `BitBoard` to a `usize` (for table lookups)
    pub fn to_size(&self, rightshift: u8) -> (r: usize)
        requires
            rightshift < 64,
            (self.0 >> rightshift) <= usize::MAX,
        ensures
            r == self.0 >> rightshift,
    {
        (self.0 >> rightshift) as usize
    }

    /// Takes the lowest square off the board and returns it; `None` once the
    /// board is empty.
    pub fn next(&mut self) -> (r: Option<Position>)
        ensures
            old(self).0 == 0 ==> r is None && *final(self) == *old(self),
            old(self).0 != 0 ==> r is Some && r->0.wf() && r->0.index() == old(self).lowest()
                && old(self).has(r->0.index()) && final(self)@ == old(self)@.remove(
                r->0.index(),
            ) && *final(self) == old(self).without_lowest() && final(self).0 != old(self).0,
    {
        if self.0 == 0 {
            None
        } else {
            let result = self.to_position();
            proof {
                lemma_clear_lowest_square(*self);
            }
            self.0 = self.0 & (self.0 - 1);
            Some(result)
        }
    }

    /// The squares of the board, lowest index first.
    pub fn to_positions(&self) -> (v: Vec<Position>)
        ensures
            v@ == self.positions(),
            v@.len() == self@.len(),
            forall|n: int| 0 <= n < v@.len() ==> (#[trigger] v@[n]).wf() && self.has(v@[n].index()),
    {
        let mut rest = *self;
        let mut v: Vec<Position> = Vec::new();
        proof {
            lemma_finite(*self);
            lemma_finite(rest);
            lemma_squares_len(*self, 0);
            assert(self@.filter(|i: int| i >= 0) =~= self@);
        }
        while rest.0 != 0
            invariant
                rest@.finite(),
                self@.finite(),
                v@.len() + rest@.len() == self@.len(),
                v@.len() + rest.squares().len() == self.squares().len(),
                self.squares().len() == self@.len(),
                forall|n: int|
                    0 <= n < v@.len() ==> (#[trigger] v@[n]).wf() && v@[n] == Position::at(
                        self.squares()[n],
                    ) && self.has(v@[n].index()),
                forall|n: int|
                    0 <= n < rest.squares().len() ==> #[trigger] rest.squares()[n]
                        == self.squares()[v@.len() + n],
            decreases rest@.len(),
        {
            let ghost before = rest;
            let ghost done = v@.len() as int;
            proof {
                lemma_squares_lowest(before);
                lemma_clear_lowest_square(before);
                lemma_squares_member(*self, done);
            }
            match rest.next() {
                Some(p) => {
                    v.push(p);
                    proof {
                        assert(before.squares()[0] == p.index());
                        assert(p == Position::at(self.squares()[done])) by {
                            crate::game::position::lemma_index_round_trip(p, 0);
                        }
                        assert forall|n: int| 0 <= n < rest.squares().len() implies #[trigger] rest.squares()[n]
                            == self.squares()[v@.len() + n] by {
                            assert(rest.squares()[n] == before.squares()[n + 1]);
                        }
                    }
                },
                None => {},
            }
        }
        proof {
            lemma_empty();
            lemma_squares_skip(rest, 0, 64);
            assert(v@ =~= self.positions());
        }
        v
    }

    /// Split the current bitboard into one board for each of its squares,
    /// lowest index first.
    pub fn split(self) -> (v: Vec<BitBoard>)
        ensures
            v@.len() == self@.len(),
            v@.len() == self.squares().len(),
            forall|n: int|
                0 <= n < v@.len() ==> #[trigger] v@[n] == BitBoard::square(self.squares()[n]),
    {
        let positions = self.to_positions();
        let mut v: Vec<BitBoard> = Vec::new();
        let mut n: usize = 0;
        while n < positions.len()
            invariant
                n <= positions@.len(),
                v@.len() == n,
                positions@ == self.positions(),
                positions@.len() == self@.len(),
                forall|k: int|
                    0 <= k < positions@.len() ==> (#[trigger] positions@[k]).wf() && self.has(
                        positions@[k].index(),
                    ),
                forall|k: int| 0 <= k < n ==> #[trigger] v@[k] == BitBoard::square(self.squares()[k]),
            decreases positions@.len() - n,
        {
            let p = positions[n];
            proof {
                lemma_squares_member(self, n as int);
                crate::game::position::lemma_index_round_trip(p, self.squares()[n as int]);
            }
            v.push(BitBoard::from_position(p));
            n = n + 1;
        }
        v
    }

    /// The board with the given squares.
    pub fn from_positions(positions: &Vec<Position>) -> (b: BitBoard)
        requires
            forall|n: int| 0 <= n < positions@.len() ==> (#[trigger] positions@[n]).wf(),
        ensures
            forall|i: int|
                b.has(i) <==> exists|n: int|
                    0 <= n < positions@.len() && (#[trigger] positions@[n]).index() == i,
    {
        let mut board = BitBoard::empty();
        let mut k: usize = 0;
        while k < positions.len()
            invariant
                k <= positions@.len(),
                forall|n: int| 0 <= n < positions@.len() ==> (#[trigger] positions@[n]).wf(),
                forall|i: int|
                    board.has(i) <==> exists|n: int|
                        0 <= n < k && (#[trigger] positions@[n]).index() == i,
            decreases positions@.len() - k,
        {
            let ghost before = board;
            let p = positions[k];
            board = board | BitBoard::from_position(p);
            proof {
                assert forall|i: int|
                    board.has(i) <==> exists|n: int|
                        0 <= n < k + 1 && (#[trigger] positions@[n]).index() == i by {
                    assert(board@.contains(i) == (before@.contains(i) || i == p.index()));
                    if board.has(i) {
                        if before.has(i) {
                            let n = choose|n: int|
                                0 <= n < k && (#[trigger] positions@[n]).index() == i;
                            assert(0 <= n < k + 1 && positions@[n].index() == i);
                        } else {
                            assert(positions@[k as int].index() == i);
                        }
                    }
                    if exists|n: int| 0 <= n < k + 1 && (#[trigger] positions@[n]).index() == i {
                        let n = choose|n: int|
                            0 <= n < k + 1 && (#[trigger] positions@[n]).index() == i;
                        if n < k {
                            assert(before.has(i));
                        }
                    }
                }
            }
            k = k + 1;
        }
        board
    }
}

impl core::ops::BitAnd for BitBoard {
    type Output = BitBoard;

    fn bitand(self, other: BitBoard) -> (r: BitBoard)
        ensures
            r == self.intersection(other),
            r@ == self@.intersect(other@),
    {
        proof {
            lemma_set_algebra(self, other);
        }
        BitBoard(self.0 & other.0)
    }
}

impl vstd::std_specs::ops::BitAndSpecImpl for BitBoard {
    open spec fn obeys_bitand_spec() -> bool {
        true
    }

    open spec fn bitand_req(self, other: BitBoard) -> bool {
        true
    }

    open spec fn bitand_spec(self, other: BitBoard) -> BitBoard {
        self.intersection(other)
    }
}

impl core::ops::BitOr for BitBoard {
    type Output = BitBoard;

    fn bitor(self, other: BitBoard) -> (r: BitBoard)
        ensures
            r == self.union(other),
            r@ == self@.union(other@),
    {
        proof {
            lemma_set_algebra(self, other);
        }
        BitBoard(self.0 | other.0)
    }
}

impl vstd::std_specs::ops::BitOrSpecImpl for BitBoard {
    open spec fn obeys_bitor_spec() -> bool {
        true
    }

    open spec fn bitor_req(self, other: BitBoard) -> bool {
        true
    }

    open spec fn bitor_spec(self, other: BitBoard) -> BitBoard {
        self.union(other)
    }
}

impl core::ops::BitXor for BitBoard {
    type Output = BitBoard;

    fn bitxor(self, other: BitBoard) -> (r: BitBoard)
        ensures
            r == self.difference(other),
            r@ == self@.difference(other@).union(other@.difference(self@)),
    {
        proof {
            lemma_set_algebra(self, other);
        }
        BitBoard(self.0 ^ other.0)
    }
}

impl vstd::std_specs::ops::BitXorSpecImpl for BitBoard {
    open spec fn obeys_bitxor_spec() -> bool {
        true
    }

    open spec fn bitxor_req(self, other: BitBoard) -> bool {
        true
    }

    open spec fn bitxor_spec(self, other: BitBoard) -> BitBoard {
        self.difference(other)
    }
}

impl core::ops::Not for BitBoard {
    type Output = BitBoard;

    fn not(self) -> (r: BitBoard)
        ensures
            r == self.complement(),
            r@ == set_int_range(0, 64).difference(self@),
    {
        self.inverse()
    }
}

impl vstd::std_specs::ops::NotSpecImpl for BitBoard {
    open spec fn obeys_not_spec() -> bool {
        true
    }

    open spec fn not_req(self) -> bool {
        true
    }

    open spec fn not_spec(self) -> BitBoard {
        self.complement()
    }
}

impl core::ops::Mul for BitBoard {
    type Output = BitBoard;

    /// The product of the two words, keeping the low 64 bits.
    fn mul(self, other: BitBoard) -> (r: BitBoard)
        ensures
            r == BitBoard(wrapping_mul(self.0, other.0)),
    {
        self.wrapping_mul(other)
    }
}

impl vstd::std_specs::ops::MulSpecImpl for BitBoard {
    open spec fn obeys_mul_spec() -> bool {
        true
    }

    open spec fn mul_req(self, other: BitBoard) -> bool {
        true
    }

    open spec fn mul_spec(self, other: BitBoard) -> BitBoard {
        BitBoard(wrapping_mul(self.0, other.0))
    }
}

impl core::ops::Sub for BitBoard {
    type Output = BitBoard;

    /// The difference of the two words, wrapping around at zero.
    fn sub(self, other: BitBoard) -> (r: BitBoard)
        ensures
            r == BitBoard(wrapping_sub(self.0, other.0)),
    {
        self.wrapping_sub(other)
    }
}

impl vstd::std_specs::ops::SubSpecImpl for BitBoard {
    open spec fn obeys_sub_spec() -> bool {
        true
    }

    open spec fn sub_req(self, other: BitBoard) -> bool {
        true
    }

    open spec fn sub_spec(self, other: BitBoard) -> BitBoard {
        BitBoard(wrapping_sub(self.0, other.0))
    }
}

impl Default for BitBoard {
    /// The board without squares.
    fn default() -> (b: BitBoard)
        ensures
            b == BitBoard(0),
    {
        BitBoard(0)
    }
}

impl From<Position> for BitBoard {
    /// The board with the one square, or without squares for a position
    /// that is not on the board.
    fn from(position: Position) -> (b: BitBoard)
        ensures
            b == if position.wf() {
                BitBoard::square(position.index())
            } else {
                BitBoard(0)
            },
    {
        if position.file_x < 8 && position.rank_y < 8 {
            BitBoard::from_position(position)
        } else {
            BitBoard(0)
        }
    }
}

impl vstd::std_specs::convert::FromSpecImpl<Position> for BitBoard {
    open spec fn obeys_from_spec() -> bool {
        true
    }

    open spec fn from_spec(position: Position) -> BitBoard {
        if position.wf() {
            BitBoard::square(position.index())
        } else {
            BitBoard(0)
        }
    }
}

impl core::ops::Shl<u8> for BitBoard {
    type Output = BitBoard;

    fn shl(self, rhs: u8) -> (r: BitBoard)
        ensures
            r == BitBoard(self.0 << rhs),
            r@ == shift_set(self@, rhs as int),
    {
        proof {
            lemma_shift(self, rhs);
        }
        BitBoard(self.0 << rhs)
    }
}

impl vstd::std_specs::ops::ShlSpecImpl<u8> for BitBoard {
    open spec fn obeys_shl_spec() -> bool {
        true
    }

    open spec fn shl_req(self, rhs: u8) -> bool {
        rhs < 64
    }

    open spec fn shl_spec(self, rhs: u8) -> BitBoard {
        BitBoard(self.0 << rhs)
    }
}

impl core::ops::Shr<u8> for BitBoard {
    type Output = BitBoard;

    fn shr(self, rhs: u8) -> (r: BitBoard)
        ensures
            r == BitBoard(self.0 >> rhs),
            r@ == shift_set(self@, -(rhs as int)),
    {
        proof {
            lemma_shift(self, rhs);
        }
        BitBoard(self.0 >> rhs)
    }
}

impl vstd::std_specs::ops::ShrSpecImpl<u8> for BitBoard {
    open spec fn obeys_shr_spec() -> bool {
        true
    }

    open spec fn shr_req(self, rhs: u8) -> bool {
        rhs < 64
    }

    open spec fn shr_spec(self, rhs: u8) -> BitBoard {
        BitBoard(self.0 >> rhs)
    }
}

/// The board without squares has the empty view.
pub proof fn lemma_empty()
    ensures
        BitBoard(0)@ == Set::<int>::empty(),
        forall|i: int| !(#[trigger] BitBoard(0).has(i)),
{
    assert forall|i: int| !(#[trigger] BitBoard(0).has(i)) by {
        if 0 <= i < 64 {
            lemma_bit_const(0, i as u64);
        }
    }
    assert(BitBoard(0)@ =~= Set::<int>::empty());
}

/// The board of one square holds that square and no other.
pub proof fn lemma_square(s: int)
    requires
        0 <= s < 64,
    ensures
        BitBoard::square(s)@ == set![s],
        forall|i: int| #[trigger] BitBoard::square(s).has(i) == (i == s),
        BitBoard::square(s).0 != 0,
{
    assert forall|i: int| #[trigger] BitBoard::square(s).has(i) == (i == s) by {
        if 0 <= i < 64 {
            lemma_bit_const(s as u64, i as u64);
        }
    }
    lemma_bit_const(s as u64, 0);
    assert(BitBoard::square(s)@ =~= set![s]);
}

/// Union, intersection, difference and complement of boards are those of
/// their sets of squares.
pub proof fn lemma_set_algebra(a: BitBoard, b: BitBoard)
    ensures
        a.intersection(b)@ == a@.intersect(b@),
        a.union(b)@ == a@.union(b@),
        a.difference(b)@ == a@.difference(b@).union(b@.difference(a@)),
        a.complement()@ == set_int_range(0, 64).difference(a@),
        forall|i: int| #[trigger] a.intersection(b).has(i) == (a.has(i) && b.has(i)),
        forall|i: int| #[trigger] a.union(b).has(i) == (a.has(i) || b.has(i)),
        forall|i: int| #[trigger] a.difference(b).has(i) == (a.has(i) != b.has(i)),
        forall|i: int| 0 <= i < 64 ==> #[trigger] a.complement().has(i) == !a.has(i),
{
    assert forall|i: int| #[trigger] a.intersection(b).has(i) == (a.has(i) && b.has(i)) by {
        if 0 <= i < 64 {
            lemma_bit_ops(a.0, b.0, i as u64);
        }
    }
    assert forall|i: int| #[trigger] a.union(b).has(i) == (a.has(i) || b.has(i)) by {
        if 0 <= i < 64 {
            lemma_bit_ops(a.0, b.0, i as u64);
        }
    }
    assert forall|i: int| #[trigger] a.difference(b).has(i) == (a.has(i) != b.has(i)) by {
        if 0 <= i < 64 {
            lemma_bit_ops(a.0, b.0, i as u64);
        }
    }
    assert forall|i: int| 0 <= i < 64 implies #[trigger] a.complement().has(i) == !a.has(i) by {
        lemma_bit_ops(a.0, b.0, i as u64);
    }
    assert(a.intersection(b)@ =~= a@.intersect(b@));
    assert(a.union(b)@ =~= a@.union(b@));
    assert(a.difference(b)@ =~= a@.difference(b@).union(b@.difference(a@)));
    assert(a.complement()@ =~= set_int_range(0, 64).difference(a@));
}

/// A shift moves every square by the shift count.
pub proof fn lemma_shift(a: BitBoard, n: u8)
    requires
        n < 64,
    ensures
        BitBoard(a.0 << n)@ == shift_set(a@, n as int),
        BitBoard(a.0 >> n)@ == shift_set(a@, -(n as int)),
        forall|i: int| #[trigger] BitBoard(a.0 << n).has(i) == (0 <= i < 64 && a.has(i - n)),
        forall|i: int| #[trigger] BitBoard(a.0 >> n).has(i) == (0 <= i < 64 && a.has(i + n)),
{
    assert forall|i: int| #[trigger]
        BitBoard(a.0 << n).has(i) == (0 <= i < 64 && a.has(i - n)) by {
        if 0 <= i < 64 {
            lemma_bit_shift(a.0, n as u64, i as u64);
        }
    }
    assert forall|i: int| #[trigger]
        BitBoard(a.0 >> n).has(i) == (0 <= i < 64 && a.has(i + n)) by {
        if 0 <= i < 64 {
            lemma_bit_shift(a.0, n as u64, i as u64);
        }
    }
    assert(BitBoard(a.0 << n)@ =~= shift_set(a@, n as int));
    assert(BitBoard(a.0 >> n)@ =~= shift_set(a@, -(n as int)));
}

/// Where each mirror image of a board takes its squares from.
pub proof fn lemma_flips(a: BitBoard)
    ensures
        forall|i: int|
            0 <= i < 64 ==> #[trigger] a.spec_reverse_colors().has(i) == a.has(flip_rank(i)),
        forall|i: int|
            0 <= i < 64 ==> #[trigger] a.spec_mirror_horizontally().has(i) == a.has(mirror_file(i)),
        forall|i: int|
            0 <= i < 64 ==> #[trigger] a.spec_flip_diagonally().has(i) == a.has(transpose(i)),
        forall|i: int|
            0 <= i < 64 ==> #[trigger] a.spec_flip_anti_diagonally().has(i) == a.has(
                anti_transpose(i),
            ),
{
    reveal(flip_rank);
    reveal(mirror_file);
    assert forall|i: int| 0 <= i < 64 implies #[trigger] a.spec_reverse_colors().has(i) == a.has(
        flip_rank(i),
    ) by {
        lemma_flip_bits(a.0, i as u64);
    }
    assert forall|i: int| 0 <= i < 64 implies #[trigger] a.spec_mirror_horizontally().has(i)
        == a.has(mirror_file(i)) by {
        lemma_flip_bits(a.0, i as u64);
    }
    assert forall|i: int| 0 <= i < 64 implies #[trigger] a.spec_flip_diagonally().has(i) == a.has(
        transpose(i),
    ) by {
        lemma_flip_bits(a.0, i as u64);
    }
    assert forall|i: int| 0 <= i < 64 implies #[trigger] a.spec_flip_anti_diagonally().has(i)
        == a.has(anti_transpose(i)) by {
        lemma_flip_bits(a.0, i as u64);
    }
}

/// Where the board mirrored top to bottom, and the one mirrored left to
/// right, take one square from.
pub proof fn lemma_mirrored_square(a: BitBoard, i: int)
    requires
        0 <= i < 64,
    ensures
        a.spec_reverse_colors().has(i) == a.has(flip_rank(i)),
        a.spec_mirror_horizontally().has(i) == a.has(mirror_file(i)),
        a.spec_reverse_colors().has(flip_rank(i)) == a.has(i),
        a.spec_mirror_horizontally().has(mirror_file(i)) == a.has(i),
        0 <= flip_rank(i) < 64,
        0 <= mirror_file(i) < 64,
{
    reveal(flip_rank);
    reveal(mirror_file);
    lemma_flip_bits(a.0, i as u64);
    lemma_flip_bits(a.0, flip_rank(i) as u64);
    lemma_flip_bits(a.0, mirror_file(i) as u64);
    assert(flip_rank(flip_rank(i)) == i);
    assert(mirror_file(mirror_file(i)) == i);
}

/// Two boards with the same squares are the same board.
pub proof fn lemma_same_squares(a: BitBoard, b: BitBoard)
    requires
        forall|i: int| 0 <= i < 64 ==> #[trigger] a.has(i) == b.has(i),
    ensures
        a == b,
{
    assert forall|i: u64| i < 64 implies bit(a.0, i) == bit(b.0, i) by {
        assert(a.has(i as int) == b.has(i as int));
    }
    lemma_bits_equal(a.0, b.0);
}

/// A board has at most 64 squares.
pub proof fn lemma_finite(a: BitBoard)
    ensures
        a@.finite(),
        a@.len() <= 64,
{
    lemma_int_range(0, 64);
    assert(a@.subset_of(set_int_range(0, 64)));
    lemma_len_subset(a@, set_int_range(0, 64));
}

/// The lowest square of a board that has one.
pub proof fn lemma_lowest(a: BitBoard)
    requires
        a.0 != 0,
    ensures
        0 <= a.lowest() < 64,
        a.has(a.lowest()),
        forall|j: int| 0 <= j < a.lowest() ==> !a.has(j),
{
    lemma_lowest_bit(a.0);
    assert forall|j: int| 0 <= j < a.lowest() implies !a.has(j) by {
        assert(!bit(a.0, j as u64));
    }
}

/// `x & (x - 1)` takes the lowest square off a board.
pub proof fn lemma_clear_lowest_square(a: BitBoard)
    requires
        a.0 != 0,
    ensures
        a.0 >= 1,
        a.without_lowest()@ == a@.remove(a.lowest()),
        a@.finite(),
        a.without_lowest()@.finite(),
        a.without_lowest()@.len() == a@.len() - 1,
        a.without_lowest().0 != a.0,
{
    lemma_lowest(a);
    let j = a.lowest();
    let b = a.without_lowest();
    vstd::std_specs::bits::axiom_u64_trailing_zeros(a.0);
    assert forall|i: int| b.has(i) == (a.has(i) && i != j) by {
        if 0 <= i < 64 {
            lemma_clear_lowest(a.0, j as u64, i as u64);
        }
    }
    assert(b@ =~= a@.remove(j));
    lemma_finite(a);
    lemma_finite(b);
    assert(a@.contains(j));
    assert(!b.has(j));
}

/// The ascending squares from `k` on are as many as the board has from `k` on.
pub proof fn lemma_squares_len(a: BitBoard, k: int)
    requires
        0 <= k <= 64,
    ensures
        a.squares_from(k).len() == a@.filter(|i: int| i >= k).len(),
        forall|n: int|
            0 <= n < a.squares_from(k).len() ==> k <= #[trigger] a.squares_from(k)[n] < 64 && a.has(
                a.squares_from(k)[n],
            ),
    decreases 64 - k,
{
    let above = a@.filter(|i: int| i >= k);
    lemma_finite(a);
    if k >= 64 {
        assert(above =~= Set::<int>::empty());
    } else {
        lemma_squares_len(a, k + 1);
        let rest = a@.filter(|i: int| i >= k + 1);
        lemma_len_subset(rest, a@);
        if a.has(k) {
            assert(above =~= rest.insert(k));
        } else {
            assert(above =~= rest);
        }
    }
}

/// Every entry of the ascending squares is a square of the board.
pub proof fn lemma_squares_member(a: BitBoard, n: int)
    requires
        0 <= n < a.squares().len(),
    ensures
        0 <= a.squares()[n] < 64,
        a.has(a.squares()[n]),
{
    lemma_squares_len(a, 0);
}

/// Below the lowest square there is nothing to list.
proof fn lemma_squares_skip(a: BitBoard, k: int, j: int)
    requires
        0 <= k <= j <= 64,
        forall|i: int| k <= i < j ==> !a.has(i),
    ensures
        a.squares_from(k) == a.squares_from(j),
    decreases j - k,
{
    if k < j {
        lemma_squares_skip(a, k + 1, j);
    }
}

/// Two boards that agree from `k` on list the same squares from `k` on.
proof fn lemma_squares_agree(a: BitBoard, b: BitBoard, k: int)
    requires
        0 <= k <= 64,
        forall|i: int| k <= i < 64 ==> a.has(i) == b.has(i),
    ensures
        a.squares_from(k) == b.squares_from(k),
    decreases 64 - k,
{
    if k < 64 {
        lemma_squares_agree(a, b, k + 1);
    }
}

/// The ascending squares start with the lowest one; the rest are those of
/// the board without it.
pub proof fn lemma_squares_lowest(a: BitBoard)
    requires
        a.0 != 0,
    ensures
        a.squares().len() > 0,
        a.squares()[0] == a.lowest(),
        a.without_lowest().squares() == a.squares().subrange(
            1,
            a.squares().len() as int,
        ),
{
    lemma_lowest(a);
    lemma_clear_lowest_square(a);
    let j = a.lowest();
    let b = a.without_lowest();
    lemma_squares_skip(a, 0, j);
    assert forall|i: int| 0 <= i < j + 1 implies !b.has(i) by {
        assert(b@.contains(i) == (a@.contains(i) && i != j));
    }
    lemma_squares_skip(b, 0, j + 1);
    assert forall|i: int| j + 1 <= i < 64 implies a.has(i) == b.has(i) by {
        assert(b@.contains(i) == (a@.contains(i) && i != j));
    }
    lemma_squares_agree(a, b, j + 1);
    assert(a.squares_from(j) == seq![j] + a.squares_from(j + 1));
    assert(b.squares() =~= a.squares().subrange(1, a.squares().len() as int));
}

/// Mirroring a board twice about the same axis gives the board back, and a
/// half turn is both axis mirrors, in either order.
pub proof fn lemma_mirror_involution(b: BitBoard)
    ensures
        b.reverse_colors().reverse_colors() == b,
        b.mirror_horizontally().mirror_horizontally() == b,
        b.flip_diagonally().flip_diagonally() == b,
        b.flip_anti_diagonally().flip_anti_diagonally() == b,
        b.rotate() == b.reverse_colors().mirror_horizontally(),
        b.rotate() == b.mirror_horizontally().reverse_colors(),
        b.rotate().rotate() == b,
{
    lemma_flip_twice(b.0);
    lemma_flip_twice(flip_vertical(b.0));
    lemma_flip_twice(mirror_horizontal(flip_vertical(b.0)));
}

/// The board of one square has one square, and it is its lowest.
pub proof fn lemma_single_square(p: Position)
    requires
        p.wf(),
    ensures
        BitBoard::square(p.index())@.len() == 1,
        BitBoard::square(p.index()).lowest() == p.index(),
{
    let s = p.index();
    lemma_square(s);
    let b = BitBoard::square(s);
    lemma_lowest(b);
}

impl BitBoard {
    /// The squares that a slider on the square `s` reaches towards higher
    /// indices along the line `mask`, on a board with the squares `self`
    /// occupied: those up to and including the first occupied one.
    pub open spec fn ray(self, mask: BitBoard, s: int) -> BitBoard {
        BitBoard(positive_ray(self.0, mask.0, s as u64))
    }

    /// Finds the squares above a slider along a line by subtracting twice
    /// the slider's bit from the blockers on the line: `self` is the
    /// occupancy, `mask` the line and `origin` the slider's square.
    pub fn positive_ray(self, mask: BitBoard, origin: Position) -> (r: BitBoard)
        requires
            origin.wf(),
        ensures
            r == self.ray(mask, origin.index()),
    {
        let square = BitBoard::from_position(origin);
        let blockers = self & mask;
        let difference = blockers.wrapping_sub(square.wrapping_mul(BitBoard(2)));
        (self ^ difference) & mask
    }
}

/// The squares of a ray: `t` lies on the line above `s`, and no square of
/// the line strictly between the two is occupied.
pub proof fn lemma_ray(occ: BitBoard, mask: BitBoard, s: int, t: int)
    requires
        0 <= s < 64,
    ensures
        occ.ray(mask, s).has(t) == (s < t < 64 && mask.has(t) && forall|j: int|
            s < j < t ==> !(#[trigger] occ.has(j) && mask.has(j))),
{
    if 0 <= t < 64 {
        lemma_positive_ray_bits(occ.0, mask.0, s as u64, t as u64);
        if forall|j: u64|
            (s as u64) < j < (t as u64) ==> !(#[trigger] bit(occ.0, j) && bit(mask.0, j)) {
            assert forall|j: int| s < j < t implies !(#[trigger] occ.has(j) && mask.has(j)) by {
                assert(!(bit(occ.0, j as u64) && bit(mask.0, j as u64)));
            }
        }
        if forall|j: int| s < j < t ==> !(#[trigger] occ.has(j) && mask.has(j)) {
            assert forall|j: u64| (s as u64) < j < (t as u64) implies !(#[trigger] bit(occ.0, j)
                && bit(mask.0, j)) by {
                assert(!(occ.has(j as int) && mask.has(j as int)));
            }
        }
    }
}

impl BitBoard {
    /// The picture of the first `files` squares of a rank: `X` for a square
    /// of the board and `.` for any other, each followed by a space.
    pub open spec fn row_text(self, rank: int, files: int) -> Seq<char>
        decreases files,
    {
        if files <= 0 {
            Seq::empty()
        } else {
            self.row_text(rank, files - 1) + if self.has(8 * rank + files - 1) {
                seq!['X', ' ']
            } else {
                seq!['.', ' ']
            }
        }
    }

    /// The picture of the top `rows` ranks, the eighth first, one line each.
    pub open spec fn rows_text(self, rows: int) -> Seq<char>
        decreases rows,
    {
        if rows <= 0 {
            Seq::empty()
        } else if rows == 1 {
            self.row_text(7, 8)
        } else {
            self.rows_text(rows - 1) + seq!['\n'] + self.row_text(8 - rows, 8)
        }
    }

    /// The picture of the board: a8 at the top left, h1 at the bottom right.
    pub open spec fn text(self) -> Seq<char> {
        self.rows_text(8)
    }

    /// Draws the board as 8 lines of text, with a8 at the top left and h1 at
    /// the bottom right.
    pub fn to_text(&self) -> (text: String)
        ensures
            text@ == self.text(),
    {
        let mut text = String::new();
        let mut row: u8 = 0;
        while row < 8
            invariant
                row <= 8,
                text@ == self.rows_text(row as int),
            decreases 8 - row,
        {
            let rank = 7 - row;
            let ghost done = text@;
            if row > 0 {
                text.append("\n");
            }
            let ghost start = text@;
            let mut file: u8 = 0;
            while file < 8
                invariant
                    file <= 8,
                    rank < 8,
                    text@ == start + self.row_text(rank as int, file as int),
                decreases 8 - file,
            {
                if (self.0 >> (rank * 8 + file)) & 1 == 1 {
                    text.append("X ");
                } else {
                    text.append(". ");
                }
                proof {
                    reveal_strlit("X ");
                    reveal_strlit(". ");
                    assert("X "@ =~= seq!['X', ' ']);
                    assert(". "@ =~= seq!['.', ' ']);
                    assert(text@ =~= start + self.row_text(rank as int, file as int + 1));
                }
                file = file + 1;
            }
            proof {
                reveal_strlit("\n");
                assert("\n"@ =~= seq!['\n']);
                assert(text@ =~= self.rows_text(row as int + 1));
            }
            row = row + 1;
        }
        text
    }
}

/// Every square of a board from `k` on is among its ascending squares from
/// `k` on.
pub proof fn lemma_squares_from_contains(a: BitBoard, k: int, i: int)
    requires
        0 <= k <= i < 64,
        a.has(i),
    ensures
        a.squares_from(k).contains(i),
    decreases 64 - k,
{
    if k == i {
        assert(a.squares_from(k)[0] == i);
    } else {
        lemma_squares_from_contains(a, k + 1, i);
        let rest = a.squares_from(k + 1);
        let n = choose|n: int| 0 <= n < rest.len() && rest[n] == i;
        if a.has(k) {
            assert(a.squares_from(k)[n + 1] == i);
        }
    }
}

/// The ascending squares of a board are its squares, and there are at most
/// 64 of them.
pub proof fn lemma_squares_contains(a: BitBoard, i: int)
    ensures
        a.squares().contains(i) == a.has(i),
        a.squares().len() <= 64,
{
    lemma_squares_len(a, 0);
    lemma_finite(a);
    assert(a@.filter(|j: int| j >= 0) =~= a@);
    if a.has(i) {
        lemma_squares_from_contains(a, 0, i);
    }
    if a.squares().contains(i) {
        let n = choose|n: int| 0 <= n < a.squares().len() && a.squares()[n] == i;
        lemma_squares_member(a, n);
    }
}

/// The board that holds, of the first `k` squares, those of which `p`
/// holds.
pub open spec fn board_upto(p: spec_fn(int) -> bool, k: int) -> BitBoard
    decreases k,
{
    if k <= 0 {
        BitBoard(0)
    } else if p(k - 1) {
        board_upto(p, k - 1).union(BitBoard::square(k - 1))
    } else {
        board_upto(p, k - 1)
    }
}

/// Whatever is said of squares, there is a board that holds the squares of
/// which it holds.
pub proof fn lemma_board_upto(p: spec_fn(int) -> bool, k: int)
    requires
        0 <= k <= 64,
    ensures
        forall|i: int| #[trigger] board_upto(p, k).has(i) == (0 <= i < k && p(i)),
    decreases k,
{
    if k <= 0 {
        lemma_empty();
    } else {
        lemma_board_upto(p, k - 1);
        lemma_square(k - 1);
        lemma_set_algebra(board_upto(p, k - 1), BitBoard::square(k - 1));
    }
}

} // verus!
