//! Fleet tiling: sizing the lattice for a fleet of agents.

use vstd::prelude::*;

verus! {

/// `k` is the ceiling of `√n`: the least natural number whose square
/// reaches `n`.
pub open spec fn is_ceil_sqrt(n: int, k: int) -> bool {
    &&& k >= 0
    &&& k * k >= n
    &&& (k == 0 || (k - 1) * (k - 1) < n)
}

/// The ceiling of `√n`.
pub open spec fn ceil_sqrt(n: int) -> int {
    choose|k: int| is_ceil_sqrt(n, k)
}

/// The lattice range used for a fleet of `n` agents: `⌈√n⌉`, capped at
/// `i32::MAX`, and at least 3.
pub open spec fn spec_fleet_lattice_range(n: int) -> int {
    let k = ceil_sqrt(n);
    let capped = if k > i32::MAX { i32::MAX as int } else { k };
    if capped < 3 { 3 } else { capped }
}

/// The ceiling of a square root is unique.
pub proof fn law_ceil_sqrt_unique(n: int, a: int, b: int)
    requires
        is_ceil_sqrt(n, a),
        is_ceil_sqrt(n, b),
    ensures
        a == b,
{
    if a < b {
        assert(a * a <= (b - 1) * (b - 1)) by (nonlinear_arith)
            requires
                0 <= a <= b - 1,
        ;
    } else if b < a {
        assert(b * b <= (a - 1) * (a - 1)) by (nonlinear_arith)
            requires
                0 <= b <= a - 1,
        ;
    }
}

/// `⌈√n⌉` by bisection.
fn ceil_sqrt_exec(n: usize) -> (k: u64)
    ensures
        is_ceil_sqrt(n as int, k as int),
        k as int == ceil_sqrt(n as int),
{
    let mut lo: u64 = 0;
    let mut hi: u64 = 4294967296;
    proof {
        assert(hi as int * hi as int >= n as int);
    }
    while lo < hi
        invariant
            lo <= hi <= 4294967296,
            hi as int * hi as int >= n as int,
            lo == 0 || (lo as int - 1) * (lo as int - 1) < n as int,
        decreases hi - lo,
    {
        let mid = lo + (hi - lo) / 2;
        proof {
            assert(mid as int * mid as int <= 4294967296 * 4294967296) by (nonlinear_arith)
                requires
                    mid <= 4294967296,
            ;
        }
        let sq: u128 = (mid as u128) * (mid as u128);
        if sq >= n as u128 {
            hi = mid;
        } else {
            lo = mid + 1;
        }
    }
    proof {
        law_ceil_sqrt_unique(n as int, lo as int, ceil_sqrt(n as int));
    }
    lo
}

/// The lattice range for a fleet of `n_agents` agents: enough lattice for
/// `⌈√n⌉` steps each way, and never less than 3.
pub fn fleet_lattice_range(n_agents: usize) -> (r: i32)
    ensures
        r as int == spec_fleet_lattice_range(n_agents as int),
{
    let k = ceil_sqrt_exec(n_agents);
    let capped: i32 = if k > i32::MAX as u64 {
        i32::MAX
    } else {
        k as i32
    };
    if capped < 3 {
        3
    } else {
        capped
    }
}

} // verus!
