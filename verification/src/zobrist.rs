//! The 64-bit position fingerprint: a fixed pseudo-random constant per
//! (point, stone color), XOR-folded over the grid, on top of a per-size
//! base value. The constants are derived deterministically from fixed
//! seeds on use, so equal positions always yield equal fingerprints.

use vstd::prelude::*;

use crate::color::Color;

verus! {

/// Multiplier spreading the board side into the empty-board fingerprint.
/// Small enough that `side * ZOBRIST_SPREAD` never wraps for sides up to
/// 32, which makes empty boards of different sizes provably distinct.
pub const ZOBRIST_SPREAD: u64 = 0x0392A74EB1C5D319;

/// Fixed seed mixed into the input of each per-point stone constant.
pub const ZOBRIST_SALT: u64 = 0x13579BDF;

/// A 64-bit finalizer (the splitmix64 mixer), used to derive the
/// per-point stone constants from their index.
pub open spec fn spec_mix64(x: u64) -> u64 {
    let a = vstd::wrapping::u64_specs::wrapping_add(x, 0x9E3779B97F4A7C15);
    let b = vstd::wrapping::u64_specs::wrapping_mul(a ^ (a >> 30), 0xBF58476D1CE4E5B9);
    let c = vstd::wrapping::u64_specs::wrapping_mul(b ^ (b >> 27), 0x94D049BB133111EB);
    c ^ (c >> 31)
}

/// Executable form of the finalizer.
pub fn mix64(x: u64) -> (r: u64)
    ensures
        r == spec_mix64(x),
{
    let a = x.wrapping_add(0x9E3779B97F4A7C15);
    let b = (a ^ (a >> 30)).wrapping_mul(0xBF58476D1CE4E5B9);
    let c = (b ^ (b >> 27)).wrapping_mul(0x94D049BB133111EB);
    c ^ (c >> 31)
}

/// The fingerprint constant of a black or white stone at grid offset `o`.
pub open spec fn spec_stone_const(o: int, c: Color) -> u64
    recommends
        0 <= o < 1024,
        c == Color::Black || c == Color::White,
{
    spec_mix64((2 * o + (if c == Color::Black {
        0int
    } else {
        1int
    }) + ZOBRIST_SALT) as u64)
}

/// Executable form of the per-point stone constant.
pub fn stone_const(o: usize, c: Color) -> (r: u64)
    requires
        o < 1024,
        c == Color::Black || c == Color::White,
    ensures
        r == spec_stone_const(o as int, c),
{
    let bit: u64 = if let Color::Black = c {
        0
    } else {
        1
    };
    mix64(2 * (o as u64) + bit + ZOBRIST_SALT)
}

/// What a point contributes to the fingerprint: its stone constant for a
/// black or white stone, nothing for any other content.
pub open spec fn spec_stone_mask(c: Color, o: int) -> u64 {
    if c == Color::Black || c == Color::White {
        spec_stone_const(o, c)
    } else {
        0
    }
}

/// XOR-fold of the contributions of the first `n` points of the grid.
pub open spec fn spec_zob_acc(grid: Seq<Color>, n: int) -> u64
    decreases n,
{
    if n <= 0 {
        0
    } else {
        spec_zob_acc(grid, n - 1) ^ spec_stone_mask(grid[n - 1], n - 1)
    }
}

/// The base fingerprint of an empty board of the given side.
pub open spec fn spec_board_base(size: u8) -> u64
    recommends
        size <= 32,
{
    (size as u64 * ZOBRIST_SPREAD) as u64
}

/// Executable form of the per-size base value.
pub fn board_base(size: u8) -> (r: u64)
    requires
        size <= 32,
    ensures
        r == spec_board_base(size),
{
    (size as u64) * ZOBRIST_SPREAD
}

/// The fingerprint of a whole grid: the per-size base XORed with every
/// point's contribution.
pub open spec fn spec_fingerprint(size: u8, grid: Seq<Color>) -> u64 {
    spec_board_base(size) ^ spec_zob_acc(grid, grid.len() as int)
}

/// The fold over a prefix depends only on that prefix.
pub proof fn lemma_zob_acc_agree(g1: Seq<Color>, g2: Seq<Color>, n: int)
    requires
        forall|j: int| 0 <= j < n ==> g1[j] == g2[j],
    ensures
        spec_zob_acc(g1, n) == spec_zob_acc(g2, n),
    decreases n,
{
    if n > 0 {
        lemma_zob_acc_agree(g1, g2, n - 1);
    }
}

/// Changing one point of the grid XORs its old contribution out and its
/// new contribution in.
pub proof fn lemma_zob_acc_update(grid: Seq<Color>, i: int, c: Color, n: int)
    requires
        0 <= i < n <= grid.len(),
    ensures
        spec_zob_acc(grid.update(i, c), n) == spec_zob_acc(grid, n) ^ spec_stone_mask(grid[i], i)
            ^ spec_stone_mask(c, i),
    decreases n,
{
    let upd = grid.update(i, c);
    let mo = spec_stone_mask(grid[i], i);
    let mc = spec_stone_mask(c, i);
    if n == i + 1 {
        lemma_zob_acc_agree(upd, grid, i);
        assert(upd[n - 1] == c);
        let x = spec_zob_acc(grid, i);
        assert(x ^ mc == ((x ^ mo) ^ mo) ^ mc) by (bit_vector);
    } else {
        lemma_zob_acc_update(grid, i, c, n - 1);
        assert(upd[n - 1] == grid[n - 1]);
        let x = spec_zob_acc(grid, n - 1);
        let y = spec_stone_mask(grid[n - 1], n - 1);
        assert(((x ^ mo) ^ mc) ^ y == ((x ^ y) ^ mo) ^ mc) by (bit_vector);
    }
}

/// A fully empty prefix contributes nothing.
pub proof fn lemma_zob_acc_empty(grid: Seq<Color>, n: int)
    requires
        forall|j: int| 0 <= j < n ==> grid[j] == Color::Empty,
    ensures
        spec_zob_acc(grid, n) == 0,
    decreases n,
{
    if n > 0 {
        lemma_zob_acc_empty(grid, n - 1);
        assert(0u64 ^ 0u64 == 0u64) by (bit_vector);
    }
}

/// Empty boards of distinct sides have distinct fingerprints: the base
/// values never collide for sides up to 32.
pub proof fn lemma_board_base_injective(s1: u8, s2: u8)
    requires
        s1 <= 32,
        s2 <= 32,
        s1 != s2,
    ensures
        spec_board_base(s1) != spec_board_base(s2),
{
}

/// The base value of a playable board is never zero.
pub proof fn lemma_board_base_nonzero(s: u8)
    requires
        5 <= s <= 32,
    ensures
        spec_board_base(s) != 0,
{
}

} // verus!
