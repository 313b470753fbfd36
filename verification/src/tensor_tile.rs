//! Tensor-valued tiles: the integer layout of a tile's tensor.
//!
//! Each tile carries a rank-2 tensor whose shape follows from the tile type
//! and whose entries are stored row-major. A deterministic hash of the entry
//! position seeds the texture mode of the tensor fill.

use vstd::prelude::*;
use vstd::wrapping::u32_specs;
use crate::cut_and_project::TileType;

verus! {

/// The tensor shape `(rows, cols)` of a tile type: thick tiles match the five
/// source dimensions with `5 × 5`; thin tiles get `3 × 8`, so that `8/3`
/// approaches φ; rejected points fall back to `1 × 1`.
pub open spec fn spec_tensor_shape(tile_type: TileType) -> (usize, usize) {
    match tile_type {
        TileType::Thick => (5, 5),
        TileType::Thin => (3, 8),
        TileType::Rejected => (1, 1),
    }
}

/// The tensor shape of a tile type.
pub fn tensor_shape(tile_type: TileType) -> (s: (usize, usize))
    ensures
        s == spec_tensor_shape(tile_type),
{
    match tile_type {
        TileType::Thick => (5, 5),
        TileType::Thin => (3, 8),
        TileType::Rejected => (1, 1),
    }
}

/// Number of entries of a tensor of the given shape.
pub fn tensor_len(shape: (usize, usize)) -> (n: usize)
    requires
        shape.0 * shape.1 <= usize::MAX,
    ensures
        n == shape.0 * shape.1,
{
    shape.0 * shape.1
}

/// Row-major position of entry `(row, col)` in a tensor of the given shape.
pub fn flat_index(shape: (usize, usize), row: usize, col: usize) -> (k: usize)
    requires
        row < shape.0,
        col < shape.1,
        shape.0 * shape.1 <= usize::MAX,
    ensures
        k == row * shape.1 + col,
        k < shape.0 * shape.1,
{
    proof {
        assert(row * shape.1 + col < shape.0 * shape.1) by (nonlinear_arith)
            requires
                row < shape.0,
                col < shape.1,
        ;
        assert(row * shape.1 <= shape.0 * shape.1) by (nonlinear_arith)
            requires
                row < shape.0,
        ;
    }
    row * shape.1 + col
}

/// FNV-1a offset basis.
pub const FNV_OFFSET: u32 = 2166136261;

/// FNV-1a prime.
pub const FNV_PRIME: u32 = 16777619;

/// The texture hash of entry `(i, j)` under `seed`, FNV-1a style mixing in
/// wrapping 32-bit arithmetic.
pub open spec fn spec_simple_hash(i: u32, j: u32, seed: u32) -> u32 {
    let h1 = FNV_OFFSET ^ u32_specs::wrapping_mul(i, u32_specs::wrapping_add(seed, 1));
    let h2 = u32_specs::wrapping_mul(h1, FNV_PRIME);
    let h3 = h2 ^ u32_specs::wrapping_mul(j, u32_specs::wrapping_add(seed, 7));
    let h4 = u32_specs::wrapping_mul(h3, FNV_PRIME);
    let h5 = h4 ^ seed;
    u32_specs::wrapping_mul(h5, FNV_PRIME)
}

/// Deterministic hash for pseudo-random texture generation.
pub fn simple_hash(i: u32, j: u32, seed: u32) -> (h: u32)
    ensures
        h == spec_simple_hash(i, j, seed),
{
    let mut h = FNV_OFFSET;
    h = h ^ i.wrapping_mul(seed.wrapping_add(1));
    h = h.wrapping_mul(FNV_PRIME);
    h = h ^ j.wrapping_mul(seed.wrapping_add(7));
    h = h.wrapping_mul(FNV_PRIME);
    h = h ^ seed;
    h = h.wrapping_mul(FNV_PRIME);
    h
}

} // verus!
