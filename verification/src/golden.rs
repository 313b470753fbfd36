//! Golden-ratio hashing of lattice positions.
//!
//! A lattice cell `(qx, qy)` is mixed into a single 64-bit hash with the
//! golden-ratio multipliers. The hash selects a letter of the Fibonacci word
//! (the tile bit: thick or thin). The cell's coordinates give it one of three
//! colours, a proper colouring of the square lattice used for sharding.
//!
//! The Fibonacci word is the Beatty difference sequence of the inverse golden
//! ratio, taken here with the decimal constant `0.618033988749895`:
//! letter `n` is thick exactly when `⌊(n+1)·c⌋ ≠ ⌊n·c⌋`.

use vstd::prelude::*;
use vstd::wrapping::i64_specs;
use vstd::arithmetic::div_mod::{lemma_fundamental_div_mod, lemma_mod_bound};

verus! {

/// First golden mixing multiplier, `0x9E3779B97F4A7C15` read as an `i64`.
pub const GOLDEN_MIX_A: i64 = -7046029254386353131;

/// Second golden mixing multiplier, `0x517CC1B727220A95`.
pub const GOLDEN_MIX_B: i64 = 5871781006564002453;

/// Numerator of the inverse golden ratio `0.618033988749895`.
pub const INV_PHI_NUM: u64 = 618033988749895;

/// Denominator of the inverse golden ratio `0.618033988749895`.
pub const INV_PHI_DEN: u64 = 1000000000000000;

/// Number of letters of the Fibonacci word that the hash ranges over.
pub const WORD_LEN: u64 = 10000;

/// `qx * a + qy * b` in wrapping 64-bit arithmetic.
#[verifier::opaque]
pub open spec fn mix(qx: i64, qy: i64, a: i64, b: i64) -> i64 {
    i64_specs::wrapping_add(i64_specs::wrapping_mul(qx, a), i64_specs::wrapping_mul(qy, b))
}

/// The hash that selects the tile bit of a cell.
pub open spec fn bit_hash(qx: i64, qy: i64) -> i64 {
    mix(qx, qy, GOLDEN_MIX_A, GOLDEN_MIX_B)
}

/// `⌊n · c⌋` for the inverse golden ratio `c`.
pub open spec fn beatty(n: int) -> int {
    (n * INV_PHI_NUM) / (INV_PHI_DEN as int)
}

/// Letter `n` of the Fibonacci word: `true` (thick) when `⌊(n+1)c⌋ ≠ ⌊nc⌋`.
pub open spec fn fibonacci_letter(n: int) -> bool {
    beatty(n + 1) != beatty(n)
}

/// The tile bit of a cell: the letter of the Fibonacci word at
/// `|hash| mod 10000`. When the hash is `i64::MIN` its absolute value does not
/// exist; the index then lies far beyond the word, where both floor values
/// coincide, and the bit is thin.
pub open spec fn spec_tile_bit(qx: i64, qy: i64) -> bool {
    let h = bit_hash(qx, qy);
    h != i64::MIN && fibonacci_letter((if h < 0 { -h } else { h as int }) % (WORD_LEN as int))
}

/// The colour of a cell: `(qx + qy) mod 3`. Moving one step along either
/// axis changes the sum by one, so neighbouring cells never share a colour.
/// The colour is deliberately not taken from the golden hash of the cell:
/// that hash modulo 3 gives neighbours such as `(0, 0)` and `(1, 0)` the same
/// colour (the multiplier `0x517CC1B727220A95` is divisible by 3), and has
/// no colour at all where the hash is `i64::MIN`.
pub open spec fn spec_three_color(qx: i64, qy: i64) -> u8 {
    ((qx + qy) % 3) as u8
}

/// A cell whose four axis neighbours all exist as `i64` cells.
pub open spec fn interior_cell(qx: i64, qy: i64) -> bool {
    i64::MIN < qx < i64::MAX && i64::MIN < qy < i64::MAX
}

/// The matching rule: some one of the six neighbours
/// `(±1, 0)`, `(0, ±1)`, `(1, -1)`, `(-1, 1)` carries the other bit.
pub open spec fn spec_matching_rule(qx: i64, qy: i64) -> bool {
    let b = spec_tile_bit(qx, qy);
    ||| spec_tile_bit((qx + 1) as i64, qy) != b
    ||| spec_tile_bit((qx - 1) as i64, qy) != b
    ||| spec_tile_bit(qx, (qy + 1) as i64) != b
    ||| spec_tile_bit(qx, (qy - 1) as i64) != b
    ||| spec_tile_bit((qx + 1) as i64, (qy - 1) as i64) != b
    ||| spec_tile_bit((qx - 1) as i64, (qy + 1) as i64) != b
}

/// The path rule used while walking toward a memory: some one of the four
/// axis neighbours carries the other bit.
pub open spec fn spec_axis_rule(qx: i64, qy: i64) -> bool {
    let b = spec_tile_bit(qx, qy);
    ||| spec_tile_bit((qx + 1) as i64, qy) != b
    ||| spec_tile_bit((qx - 1) as i64, qy) != b
    ||| spec_tile_bit(qx, (qy + 1) as i64) != b
    ||| spec_tile_bit(qx, (qy - 1) as i64) != b
}

/// Wrapping golden mix of a cell.
fn mix_exec(qx: i64, qy: i64, a: i64, b: i64) -> (h: i64)
    ensures
        h == mix(qx, qy, a, b),
{
    reveal(mix);
    qx.wrapping_mul(a).wrapping_add(qy.wrapping_mul(b))
}

/// `|h|` as an unsigned number, for every `h` but `i64::MIN`.
fn abs_u64(h: i64) -> (r: u64)
    requires
        h != i64::MIN,
    ensures
        r == (if h < 0 { -h } else { h as int }),
{
    if h < 0 {
        (-h) as u64
    } else {
        h as u64
    }
}

/// `⌊n · c⌋` for a letter index of the word.
fn beatty_exec(n: u64) -> (r: u64)
    requires
        n <= WORD_LEN,
    ensures
        r == beatty(n as int),
{
    assert(n * INV_PHI_NUM <= WORD_LEN * INV_PHI_NUM) by (nonlinear_arith)
        requires
            n <= WORD_LEN,
    ;
    n * INV_PHI_NUM / INV_PHI_DEN
}

/// Letter `n` of the Fibonacci word.
pub fn word_letter(n: u64) -> (b: bool)
    requires
        n < WORD_LEN,
    ensures
        b == fibonacci_letter(n as int),
{
    beatty_exec(n + 1) != beatty_exec(n)
}

/// The tile bit (thick = `true`) of a lattice cell.
pub fn tile_bit(qx: i64, qy: i64) -> (b: bool)
    ensures
        b == spec_tile_bit(qx, qy),
{
    let h = mix_exec(qx, qy, GOLDEN_MIX_A, GOLDEN_MIX_B);
    if h == i64::MIN {
        false
    } else {
        let idx = abs_u64(h) % WORD_LEN;
        word_letter(idx)
    }
}

/// The colour of a lattice cell: one of 0, 1, 2.
pub fn three_color(qx: i64, qy: i64) -> (c: u8)
    ensures
        c == spec_three_color(qx, qy),
        c < 3,
{
    let sum: i128 = qx as i128 + qy as i128;
    // A multiple of 3 above 2^64 lifts every sum of two cells above zero.
    let lifted: u128 = (sum + 27670116110564327424i128) as u128;
    proof {
        lemma_mod_add_multiples_vanish_k(sum as int);
    }
    (lifted % 3) as u8
}

/// Whether the matching rule holds at a cell.
pub fn matching_rule(qx: i64, qy: i64) -> (r: bool)
    requires
        interior_cell(qx, qy),
    ensures
        r == spec_matching_rule(qx, qy),
{
    let b = tile_bit(qx, qy);
    tile_bit(qx + 1, qy) != b || tile_bit(qx - 1, qy) != b || tile_bit(qx, qy + 1) != b
        || tile_bit(qx, qy - 1) != b || tile_bit(qx + 1, qy - 1) != b || tile_bit(
        qx - 1,
        qy + 1,
    ) != b
}

/// Whether the path rule holds at a cell: some axis neighbour carries the
/// other bit.
pub fn axis_rule(qx: i64, qy: i64) -> (r: bool)
    requires
        interior_cell(qx, qy),
    ensures
        r == spec_axis_rule(qx, qy),
{
    let b = tile_bit(qx, qy);
    tile_bit(qx + 1, qy) != b || tile_bit(qx - 1, qy) != b || tile_bit(qx, qy + 1) != b
        || tile_bit(qx, qy - 1) != b
}

/// Number of thick letters among the first `n` letters of the word.
pub open spec fn thick_count(n: nat) -> nat
    decreases n,
{
    if n == 0 {
        0
    } else {
        thick_count((n - 1) as nat) + (if fibonacci_letter(n - 1) { 1nat } else { 0nat })
    }
}

/// `x = D·⌊x/D⌋ + (x mod D)` with `0 <= x mod D < D`, for `D` the denominator of `c`.
proof fn lemma_split(x: int)
    ensures
        x == (INV_PHI_DEN as int) * (x / (INV_PHI_DEN as int)) + x % (INV_PHI_DEN as int),
        0 <= x % (INV_PHI_DEN as int) < INV_PHI_DEN,
{
    lemma_fundamental_div_mod(x, INV_PHI_DEN as int);
    lemma_mod_bound(x, INV_PHI_DEN as int);
}

/// Consecutive floor values of `n·c` differ by zero or one: every letter is
/// either thick or thin, and the floor sequence never jumps.
pub proof fn law_beatty_step(n: int)
    ensures
        beatty(n) <= beatty(n + 1) <= beatty(n) + 1,
{
    lemma_split(n * INV_PHI_NUM);
    lemma_split((n + 1) * INV_PHI_NUM);
}

/// The Fibonacci word never holds two thin letters in a row.
pub proof fn law_no_two_thin_in_a_row(n: int)
    ensures
        fibonacci_letter(n) || fibonacci_letter(n + 1),
{
    lemma_split(n * INV_PHI_NUM);
    lemma_split((n + 1) * INV_PHI_NUM);
    lemma_split((n + 2) * INV_PHI_NUM);
}

/// The Fibonacci word never holds three thick letters in a row.
pub proof fn law_no_three_thick_in_a_row(n: int)
    ensures
        !(fibonacci_letter(n) && fibonacci_letter(n + 1) && fibonacci_letter(n + 2)),
{
    lemma_split(n * INV_PHI_NUM);
    lemma_split((n + 1) * INV_PHI_NUM);
    lemma_split((n + 2) * INV_PHI_NUM);
    lemma_split((n + 3) * INV_PHI_NUM);
}

/// Among the first `n` letters exactly `⌊n·c⌋` are thick, so the share of
/// thick letters differs from `c = 0.618033988749895` by less than `1/n`:
/// `0 <= n·c - thick < 1`, written over the denominator of `c`.
pub proof fn law_thick_share(n: nat)
    ensures
        thick_count(n) == beatty(n as int),
        0 <= n * INV_PHI_NUM - thick_count(n) * INV_PHI_DEN < INV_PHI_DEN,
    decreases n,
{
    if n == 0 {
        lemma_split(0);
    } else {
        law_thick_share((n - 1) as nat);
        law_beatty_step(n - 1);
    }
    lemma_split(n * INV_PHI_NUM);
}

/// `(s + 3·2^63) mod 3 == s mod 3`.
proof fn lemma_mod_add_multiples_vanish_k(s: int)
    ensures
        (s + 27670116110564327424) % 3 == s % 3,
{
    vstd::arithmetic::div_mod::lemma_mod_multiples_vanish(9223372036854775808, s, 3);
}

/// Every cell gets one of the three colours 0, 1, 2.
pub proof fn law_three_colors(qx: i64, qy: i64)
    ensures
        spec_three_color(qx, qy) < 3,
{
}

/// Neighbouring cells never share a colour: each of the four axis
/// neighbours of an interior cell has a colour other than the cell's.
pub proof fn law_neighbours_differ_in_colour(qx: i64, qy: i64)
    requires
        interior_cell(qx, qy),
    ensures
        spec_three_color((qx + 1) as i64, qy) != spec_three_color(qx, qy),
        spec_three_color((qx - 1) as i64, qy) != spec_three_color(qx, qy),
        spec_three_color(qx, (qy + 1) as i64) != spec_three_color(qx, qy),
        spec_three_color(qx, (qy - 1) as i64) != spec_three_color(qx, qy),
{
}

} // verus!
