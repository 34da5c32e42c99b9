//! Bit-level facts about 64-bit words.
//!
//! A word is read as a set of bit positions `0..64`. The bit-vector solver
//! proves the facts below once; the rest of the crate reasons about squares
//! with ordinary arithmetic and never opens a shift again.
use vstd::prelude::*;
use vstd::std_specs::bits::{axiom_u64_trailing_zeros, u64_trailing_zeros};
use vstd::wrapping::u64_specs::{wrapping_mul, wrapping_sub};

verus! {

/// Whether bit `i` of the word `x` is set.
pub open spec fn bit(x: u64, i: u64) -> bool {
    (x >> i) & 1 == 1
}

/// The word with the single bit `i` set.
pub open spec fn single(i: u64) -> u64 {
    1u64 << i
}

/// Bitwise operators act on each bit separately.
pub proof fn lemma_bit_ops(a: u64, b: u64, i: u64)
    by (bit_vector)
    requires
        i < 64,
    ensures
        bit(a & b, i) == (bit(a, i) && bit(b, i)),
        bit(a | b, i) == (bit(a, i) || bit(b, i)),
        bit(a ^ b, i) == (bit(a, i) != bit(b, i)),
        bit(!a, i) == !bit(a, i),
{
}

/// The bits of the constant words that the crate builds on.
pub proof fn lemma_bit_const(s: u64, i: u64)
    by (bit_vector)
    requires
        s < 64,
        i < 64,
    ensures
        bit(single(s), i) == (i == s),
        !bit(0u64, i),
        single(s) != 0,
        wrapping_mul(single(s), 2) == (if s < 63 { single((s + 1) as u64) } else { 0u64 }),
{
}

/// A shift moves every bit by the shift count and drops what leaves the word.
pub proof fn lemma_bit_shift(a: u64, n: u64, i: u64)
    by (bit_vector)
    requires
        n < 64,
        i < 64,
    ensures
        bit(a << n, i) == (i >= n && bit(a, (i - n) as u64)),
        bit(a >> n, i) == (i + n < 64 && bit(a, (i + n) as u64)),
{
}

/// Two words with the same bits are the same word.
pub proof fn lemma_bits_equal(a: u64, b: u64)
    requires
        forall|i: u64| i < 64 ==> bit(a, i) == bit(b, i),
    ensures
        a == b,
{
    if a != b {
        let d = a ^ b;
        assert(d != 0) by (bit_vector)
            requires
                a != b,
                d == a ^ b,
        ;
        axiom_u64_trailing_zeros(d);
        let j = u64_trailing_zeros(d) as u64;
        assert(bit(d, j));
        lemma_bit_ops(a, b, j);
    }
}

/// The lowest set bit of a nonzero word, as `trailing_zeros` finds it.
pub proof fn lemma_lowest_bit(x: u64)
    requires
        x != 0,
    ensures
        u64_trailing_zeros(x) < 64,
        bit(x, u64_trailing_zeros(x) as u64),
        forall|j: u64| j < u64_trailing_zeros(x) ==> !bit(x, j),
{
    axiom_u64_trailing_zeros(x);
    assert forall|j: u64| j < u64_trailing_zeros(x) implies !bit(x, j) by {
        assert((x >> j) & 1u64 == 0u64);
    }
}

/// `x & (x - 1)` clears the lowest set bit of `x` and nothing else.
pub proof fn lemma_clear_lowest(x: u64, j: u64, i: u64)
    by (bit_vector)
    requires
        j < 64,
        i < 64,
        bit(x, j),
        x << ((64 - j) as u64) == 0 || j == 0,
    ensures
        x != 0,
        bit(x & ((x - 1) as u64), i) == (bit(x, i) && i != j),
{
}

/// The bits strictly between `s` and `t`.
pub open spec fn between(s: u64, t: u64) -> u64 {
    wrapping_sub(1u64 << t, 1) & !((1u64 << s) | wrapping_sub(1u64 << s, 1))
}

pub proof fn lemma_between(a: u64, s: u64, t: u64, j: u64)
    by (bit_vector)
    requires
        s < 64,
        t < 64,
        j < 64,
    ensures
        bit(a & between(s, t), j) == (s < j && j < t && bit(a, j)),
        bit(a & between(s, t), j) ==> (a & between(s, t)) != 0,
{
}

/// What subtracting twice the slider's bit from the blockers on a line
/// leaves, read against the occupancy: `(occ ^ ((occ & m) - 2 * 2^s)) & m`,
/// with wrapping arithmetic.
pub open spec fn positive_ray(occ: u64, m: u64, s: u64) -> u64 {
    (occ ^ wrapping_sub(occ & m, wrapping_mul(single(s), 2))) & m
}

/// The subtraction borrows through every empty square above the slider and
/// stops at the first blocker on the line, so the bits that change are the
/// squares of the line above `s` up to and including that blocker.
pub proof fn lemma_positive_ray(occ: u64, m: u64, s: u64, t: u64)
    by (bit_vector)
    requires
        s < 64,
        t < 64,
    ensures
        bit(positive_ray(occ, m, s), t) == (t > s && bit(m, t) && (occ & m & between(s, t)) == 0),
{
}

/// The squares of `positive_ray`, said bit by bit: `t` lies on the line above
/// `s`, and no square of the line strictly between them is occupied.
pub proof fn lemma_positive_ray_bits(occ: u64, m: u64, s: u64, t: u64)
    requires
        s < 64,
        t < 64,
    ensures
        bit(positive_ray(occ, m, s), t) == (t > s && bit(m, t) && forall|j: u64|
            s < j < t ==> !(#[trigger] bit(occ, j) && bit(m, j))),
{
    lemma_positive_ray(occ, m, s, t);
    let w = occ & m & between(s, t);
    if w == 0 {
        assert forall|j: u64| s < j < t implies !(#[trigger] bit(occ, j) && bit(m, j)) by {
            lemma_between(occ & m, s, t, j);
            lemma_bit_ops(occ, m, j);
        }
    } else {
        lemma_lowest_bit(w);
        let j = u64_trailing_zeros(w) as u64;
        lemma_between(occ & m, s, t, j);
        lemma_bit_ops(occ, m, j);
        assert(s < j < t && bit(occ, j) && bit(m, j));
    }
}

/// The word mirrored top to bottom: its eight bytes in reverse order.
pub open spec fn flip_vertical(x: u64) -> u64 {
    let a = ((x >> 8) & 0x00FF_00FF_00FF_00FFu64) | ((x & 0x00FF_00FF_00FF_00FFu64) << 8);
    let b = ((a >> 16) & 0x0000_FFFF_0000_FFFFu64) | ((a & 0x0000_FFFF_0000_FFFFu64) << 16);
    (b >> 32) | (b << 32)
}

/// The word mirrored left to right: the bits of each byte in reverse order.
pub open spec fn mirror_horizontal(x: u64) -> u64 {
    let a = ((x >> 1) & 0x5555_5555_5555_5555u64) | ((x & 0x5555_5555_5555_5555u64) << 1);
    let b = ((a >> 2) & 0x3333_3333_3333_3333u64) | ((a & 0x3333_3333_3333_3333u64) << 2);
    ((b >> 4) & 0x0F0F_0F0F_0F0F_0F0Fu64) | ((b & 0x0F0F_0F0F_0F0F_0F0Fu64) << 4)
}

/// The word mirrored about the line from bit 0 to bit 63.
pub open spec fn flip_diagonal(x: u64) -> u64 {
    let t4 = 0x0F0F_0F0F_0000_0000u64 & (x ^ (x << 28));
    let a = x ^ (t4 ^ (t4 >> 28));
    let t2 = 0x3333_0000_3333_0000u64 & (a ^ (a << 14));
    let b = a ^ (t2 ^ (t2 >> 14));
    let t1 = 0x5500_5500_5500_5500u64 & (b ^ (b << 7));
    b ^ (t1 ^ (t1 >> 7))
}

/// The word mirrored about the line from bit 7 to bit 56.
pub open spec fn flip_anti_diagonal(x: u64) -> u64 {
    let t4 = x ^ (x << 36);
    let a = x ^ (0xF0F0_F0F0_0F0F_0F0Fu64 & (t4 ^ (x >> 36)));
    let t2 = 0xCCCC_0000_CCCC_0000u64 & (a ^ (a << 18));
    let b = a ^ (t2 ^ (t2 >> 18));
    let t1 = 0xAA00_AA00_AA00_AA00u64 & (b ^ (b << 9));
    b ^ (t1 ^ (t1 >> 9))
}

/// Where each mirror image takes its bits from, with rank `i / 8` and file
/// `i % 8`.
pub proof fn lemma_flip_bits(x: u64, i: u64)
    by (bit_vector)
    requires
        i < 64,
    ensures
        bit(flip_vertical(x), i) == bit(x, (8 * (7 - i / 8) + i % 8) as u64),
        bit(mirror_horizontal(x), i) == bit(x, (8 * (i / 8) + (7 - i % 8)) as u64),
        bit(flip_diagonal(x), i) == bit(x, (8 * (i % 8) + i / 8) as u64),
        bit(flip_anti_diagonal(x), i) == bit(x, (8 * (7 - i % 8) + (7 - i / 8)) as u64),
{
}

/// The two axis mirrors undo themselves, and so do the diagonal ones.
pub proof fn lemma_flip_twice(x: u64)
    by (bit_vector)
    ensures
        flip_vertical(flip_vertical(x)) == x,
        mirror_horizontal(mirror_horizontal(x)) == x,
        flip_diagonal(flip_diagonal(x)) == x,
        flip_anti_diagonal(flip_anti_diagonal(x)) == x,
        mirror_horizontal(flip_vertical(x)) == flip_vertical(mirror_horizontal(x)),
{
}

/// The a-file: bit 0 of every byte.
pub const FILE_A_WORD: u64 = 0x0101_0101_0101_0101;

/// The first rank: the lowest byte.
pub const RANK_1_WORD: u64 = 0xFF;

/// The long diagonal from bit 0 to bit 63.
pub const MAIN_DIAGONAL_WORD: u64 = 0x8040_2010_0804_0201;

/// The long diagonal from bit 7 to bit 56.
pub const ANTI_DIAGONAL_WORD: u64 = 0x0102_0408_1020_4080;

/// The file `f`, counted from 0.
pub open spec fn file_word(f: u64) -> u64 {
    FILE_A_WORD << f
}

/// The rank `r`, counted from 0.
pub open spec fn rank_word(r: u64) -> u64 {
    RANK_1_WORD << ((8 * r) as u64)
}

/// The diagonal on which rank minus file is `d - 7`, for `d` in `0..15`.
pub open spec fn diagonal_word(d: u64) -> u64 {
    if d >= 7 {
        MAIN_DIAGONAL_WORD << ((8 * (d - 7)) as u64)
    } else {
        MAIN_DIAGONAL_WORD >> ((8 * (7 - d)) as u64)
    }
}

/// The anti-diagonal on which rank plus file is `d`, for `d` in `0..15`.
pub open spec fn anti_diagonal_word(d: u64) -> u64 {
    if d >= 7 {
        ANTI_DIAGONAL_WORD << ((8 * (d - 7)) as u64)
    } else {
        ANTI_DIAGONAL_WORD >> ((8 * (7 - d)) as u64)
    }
}

/// Which squares each line holds.
pub proof fn lemma_line_bits(n: u64, i: u64)
    by (bit_vector)
    requires
        i < 64,
    ensures
        n < 8 ==> bit(file_word(n), i) == (i % 8 == n),
        n < 8 ==> bit(rank_word(n), i) == (i / 8 == n),
        n < 15 ==> bit(diagonal_word(n), i) == (7 + i / 8 - i % 8 == n),
        n < 15 ==> bit(anti_diagonal_word(n), i) == (i / 8 + i % 8 == n),
{
}

} // verus!
