//! Cut-and-project tilings: the lattice walk and tile classification.
//!
//! A cut-and-project compiler scans a cube of a high-dimensional integer
//! lattice, keeps the points whose perpendicular projection falls in an
//! acceptance window, and projects them to the plane. This module holds the
//! integer side of that construction: the order in which the cube is walked,
//! the thick/thin classification of a lattice point, the tile census, and
//! the periodicity test on a histogram of tile positions.

use vstd::prelude::*;
use vstd::arithmetic::div_mod::lemma_mul_mod_noop_left;
use vstd::arithmetic::power::pow;
use crate::golden::{INV_PHI_NUM, INV_PHI_DEN};

verus! {

/// Tile type classification.
#[derive(Debug, Clone, Copy, PartialEq, Eq, Structural)]
pub enum TileType {
    /// Thick (wide) rhomb — interior angle 72°.
    Thick,
    /// Thin (narrow) rhomb — interior angle 36°.
    Thin,
    /// Acceptance window rejected this point (does not appear in output).
    Rejected,
}

/// `|v|` of a lattice coordinate.
pub open spec fn coord_abs(v: i32) -> int {
    if v < 0 {
        -v
    } else {
        v as int
    }
}

/// Sum of the absolute values of the coordinates.
pub open spec fn abs_sum(coords: Seq<i32>) -> int
    decreases coords.len(),
{
    if coords.len() == 0 {
        0
    } else {
        abs_sum(coords.drop_last()) + coord_abs(coords.last())
    }
}

/// A lattice point is thick when the fractional part of `s · c` is below
/// `c`, where `s` is the sum of the absolute coordinates and `c` the inverse
/// golden ratio `0.618033988749895`; otherwise it is thin.
pub open spec fn spec_classify(coords: Seq<i32>) -> TileType {
    if (abs_sum(coords) * INV_PHI_NUM) % (INV_PHI_DEN as int) < INV_PHI_NUM {
        TileType::Thick
    } else {
        TileType::Thin
    }
}

/// Classify a lattice point as a thick or thin tile.
pub fn classify_tile(coords: &Vec<i32>) -> (t: TileType)
    ensures
        t == spec_classify(coords@),
        t != TileType::Rejected,
{
    let mut sum: u128 = 0;
    let mut i: usize = 0;
    while i < coords.len()
        invariant
            0 <= i <= coords@.len(),
            sum == abs_sum(coords@.take(i as int)),
            sum <= i * 2147483648,
        decreases coords@.len() - i,
    {
        proof {
            assert(coords@.take(i + 1).drop_last() == coords@.take(i as int));
            assert(i * 2147483648 + 2147483648 <= 18446744073709551615 * 2147483648 + 2147483648);
        }
        let v = coords[i];
        let a: u128 = if v < 0 {
            (-(v as i64)) as u128
        } else {
            v as u128
        };
        sum = sum + a;
        i = i + 1;
    }
    proof {
        assert(coords@.take(i as int) == coords@);
    }
    let r = sum % (INV_PHI_DEN as u128);
    proof {
        assert(r * INV_PHI_NUM <= 1000000000000000 * 618033988749895) by (nonlinear_arith)
            requires
                r < 1000000000000000,
        ;
        lemma_mul_mod_noop_left(sum as int, INV_PHI_NUM as int, INV_PHI_DEN as int);
    }
    if (r * (INV_PHI_NUM as u128)) % (INV_PHI_DEN as u128) < INV_PHI_NUM as u128 {
        TileType::Thick
    } else {
        TileType::Thin
    }
}

/// The points of the lattice cube `[-range, range]^rest` placed after the
/// fixed leading coordinates `prefix`, in the order of the walk: the leading
/// free coordinate varies slowest, each from `-range` up to `range`.
pub open spec fn cube_points(prefix: Seq<i32>, rest: nat, range: int) -> Seq<Seq<i32>>
    decreases rest, 1int, 0int,
{
    if rest == 0 {
        seq![prefix]
    } else {
        cube_points_from(prefix, rest, range, -range)
    }
}

/// The points of [`cube_points`] whose first free coordinate is at least `v`.
pub open spec fn cube_points_from(prefix: Seq<i32>, rest: nat, range: int, v: int) -> Seq<
    Seq<i32>,
>
    decreases rest, 0int, range - v + 1,
{
    if rest == 0 || v > range {
        Seq::empty()
    } else {
        cube_points(prefix.push(v as i32), (rest - 1) as nat, range) + cube_points_from(
            prefix,
            rest,
            range,
            v + 1,
        )
    }
}

/// Every point of the cube has the prefix's coordinates followed by `rest`
/// more, and a cube of side `2·range + 1` holds `(2·range + 1)^rest` points.
pub proof fn lemma_cube_points_shape(prefix: Seq<i32>, rest: nat, range: int)
    requires
        range >= 0,
    ensures
        cube_points(prefix, rest, range).len() == pow(2 * range + 1, rest),
        forall|i: int|
            0 <= i < cube_points(prefix, rest, range).len() ==> #[trigger] cube_points(
                prefix,
                rest,
                range,
            )[i].len() == prefix.len() + rest,
    decreases rest, 1int, 0int,
{
    if rest == 0 {
        assert(pow(2 * range + 1, 0) == 1) by {
            reveal(pow);
        }
    } else {
        lemma_cube_points_from_shape(prefix, rest, range, -range);
        assert(pow(2 * range + 1, rest) == (2 * range + 1) * pow(2 * range + 1, (rest - 1) as nat)) by {
            reveal(pow);
        }
    }
}

/// The points of the cube whose first free coordinate is at least `v`: one
/// sub-cube per remaining value of that coordinate.
pub proof fn lemma_cube_points_from_shape(prefix: Seq<i32>, rest: nat, range: int, v: int)
    requires
        range >= 0,
        rest >= 1,
        -range <= v <= range + 1,
    ensures
        cube_points_from(prefix, rest, range, v).len() == (range - v + 1) * pow(
            2 * range + 1,
            (rest - 1) as nat,
        ),
        forall|i: int|
            0 <= i < cube_points_from(prefix, rest, range, v).len() ==> #[trigger] cube_points_from(
                prefix,
                rest,
                range,
                v,
            )[i].len() == prefix.len() + rest,
    decreases rest, 0int, range - v + 1,
{
    let p = pow(2 * range + 1, (rest - 1) as nat);
    if v > range {
        assert((range - v + 1) * p == 0) by (nonlinear_arith)
            requires
                v == range + 1,
        ;
    } else {
        let sub = cube_points(prefix.push(v as i32), (rest - 1) as nat, range);
        let tail = cube_points_from(prefix, rest, range, v + 1);
        lemma_cube_points_shape(prefix.push(v as i32), (rest - 1) as nat, range);
        lemma_cube_points_from_shape(prefix, rest, range, v + 1);
        assert((range - v + 1) * p == p + (range - v) * p) by (nonlinear_arith);
        if v == -range {
            assert(pow(2 * range + 1, rest) == (2 * range + 1) * p) by {
                reveal(pow);
            }
        }
        assert forall|i: int| 0 <= i < (sub + tail).len() implies #[trigger] (sub + tail)[i].len()
            == prefix.len() + rest by {
            if i < sub.len() {
                assert((sub + tail)[i] == sub[i]);
            } else {
                assert((sub + tail)[i] == tail[i - sub.len()]);
            }
        }
    }
}

/// `p` lies in the cube below `prefix`: it extends `prefix` by `rest`
/// coordinates, each in `[-range, range]`.
pub open spec fn in_cube(p: Seq<i32>, prefix: Seq<i32>, rest: nat, range: int) -> bool {
    &&& p.len() == prefix.len() + rest
    &&& p.take(prefix.len() as int) == prefix
    &&& forall|k: int| prefix.len() <= k < p.len() ==> -range <= #[trigger] p[k] <= range
}

/// `a` comes before `b` in lexicographic order.
pub open spec fn lex_less(a: Seq<i32>, b: Seq<i32>) -> bool {
    exists|k: int|
        0 <= k < a.len() && k < b.len() && a.take(k) == b.take(k) && #[trigger] a[k] < #[trigger] b[k]
}

/// The points are in strictly increasing lexicographic order.
pub open spec fn lex_sorted(ps: Seq<Seq<i32>>) -> bool {
    forall|i: int, j: int| 0 <= i < j < ps.len() ==> lex_less(#[trigger] ps[i], #[trigger] ps[j])
}

proof fn lemma_concat_contains(a: Seq<Seq<i32>>, b: Seq<Seq<i32>>, x: Seq<i32>)
    ensures
        (a + b).contains(x) <==> a.contains(x) || b.contains(x),
{
    if (a + b).contains(x) {
        let i = choose|i: int| 0 <= i < (a + b).len() && (a + b)[i] == x;
        if i < a.len() {
            assert(a[i] == x);
        } else {
            assert(b[i - a.len()] == x);
        }
    }
    if a.contains(x) {
        let i = choose|i: int| 0 <= i < a.len() && a[i] == x;
        assert((a + b)[i] == x);
    }
    if b.contains(x) {
        let i = choose|i: int| 0 <= i < b.len() && b[i] == x;
        assert((a + b)[a.len() + i] == x);
    }
}

/// A point is in the cube exactly when it extends the prefix by `rest`
/// coordinates within the range.
pub proof fn lemma_cube_membership(prefix: Seq<i32>, rest: nat, range: int, p: Seq<i32>)
    requires
        0 <= range <= i32::MAX,
    ensures
        cube_points(prefix, rest, range).contains(p) <==> in_cube(p, prefix, rest, range),
    decreases rest, 1int, 0int,
{
    if rest == 0 {
        if in_cube(p, prefix, rest, range) {
            assert(p == p.take(prefix.len() as int));
            assert(cube_points(prefix, rest, range)[0] == p);
        }
        if cube_points(prefix, rest, range).contains(p) {
            assert(p == prefix);
            assert(p.take(prefix.len() as int) == p);
        }
    } else {
        lemma_cube_from_membership(prefix, rest, range, -range, p);
    }
}

/// A point is among the cube's points from `v` on exactly when it lies in
/// the cube and its first free coordinate is at least `v`.
pub proof fn lemma_cube_from_membership(prefix: Seq<i32>, rest: nat, range: int, v: int, p: Seq<i32>)
    requires
        0 <= range <= i32::MAX,
        rest >= 1,
        -range <= v <= range + 1,
    ensures
        cube_points_from(prefix, rest, range, v).contains(p) <==> (in_cube(p, prefix, rest, range)
            && p[prefix.len() as int] >= v),
    decreases rest, 0int, range - v + 1,
{
    let n = prefix.len() as int;
    if v > range {
        if in_cube(p, prefix, rest, range) {
            assert(-range <= p[n] <= range);
        }
    } else {
        let pv = prefix.push(v as i32);
        let sub = cube_points(pv, (rest - 1) as nat, range);
        let tail = cube_points_from(prefix, rest, range, v + 1);
        lemma_cube_membership(pv, (rest - 1) as nat, range, p);
        lemma_cube_from_membership(prefix, rest, range, v + 1, p);
        lemma_concat_contains(sub, tail, p);
        if p.len() == prefix.len() + rest {
            if p.take(n + 1) == pv {
                assert(p.take(n) == p.take(n + 1).take(n));
                assert(pv.take(n) == prefix);
                assert(p[n] == p.take(n + 1)[n]);
            }
            if p.take(n) == prefix && p[n] == v {
                assert(p.take(n + 1) =~= pv);
            }
        }
        if in_cube(p, pv, (rest - 1) as nat, range) {
            assert(p.take(n) == p.take(n + 1).take(n));
            assert(pv.take(n) == prefix);
            assert(p[n] == p.take(n + 1)[n]);
        }
        if in_cube(p, prefix, rest, range) && p[n] == v {
            assert(p.take(n + 1) =~= pv);
        }
    }
}

/// Two sequences that agree on their first `k` entries agree at each such entry.
proof fn lemma_take_agree(a: Seq<i32>, b: Seq<i32>, k: int, i: int)
    requires
        0 <= i < k <= a.len(),
        k <= b.len(),
        a.take(k) == b.take(k),
    ensures
        a[i] == b[i],
{
    assert(a[i] == a.take(k)[i]);
    assert(b[i] == b.take(k)[i]);
}

/// Lexicographic order is asymmetric (and so irreflexive).
pub proof fn lemma_lex_less_asymmetric(a: Seq<i32>, b: Seq<i32>)
    requires
        lex_less(a, b),
    ensures
        !lex_less(b, a),
        a != b,
{
    let k1 = choose|k: int|
        0 <= k < a.len() && k < b.len() && a.take(k) == b.take(k) && #[trigger] a[k] < #[trigger] b[k];
    if lex_less(b, a) {
        let k2 = choose|k: int|
            0 <= k < b.len() && k < a.len() && b.take(k) == a.take(k) && #[trigger] b[k] < #[trigger] a[k];
        if k1 < k2 {
            lemma_take_agree(a, b, k2, k1);
        } else if k2 < k1 {
            lemma_take_agree(a, b, k1, k2);
        }
    }
}

/// The walk visits the cube in strictly increasing lexicographic order.
pub proof fn lemma_cube_sorted(prefix: Seq<i32>, rest: nat, range: int)
    requires
        0 <= range <= i32::MAX,
    ensures
        lex_sorted(cube_points(prefix, rest, range)),
    decreases rest, 1int, 0int,
{
    if rest > 0 {
        lemma_cube_from_sorted(prefix, rest, range, -range);
    }
}

/// The points from `v` on are in strictly increasing lexicographic order.
pub proof fn lemma_cube_from_sorted(prefix: Seq<i32>, rest: nat, range: int, v: int)
    requires
        0 <= range <= i32::MAX,
        rest >= 1,
        -range <= v <= range + 1,
    ensures
        lex_sorted(cube_points_from(prefix, rest, range, v)),
    decreases rest, 0int, range - v + 1,
{
    if v <= range {
        let n = prefix.len() as int;
        let pv = prefix.push(v as i32);
        let sub = cube_points(pv, (rest - 1) as nat, range);
        let tail = cube_points_from(prefix, rest, range, v + 1);
        let all = sub + tail;
        lemma_cube_sorted(pv, (rest - 1) as nat, range);
        lemma_cube_from_sorted(prefix, rest, range, v + 1);
        assert forall|i: int, j: int| 0 <= i < j < all.len() implies lex_less(
            #[trigger] all[i],
            #[trigger] all[j],
        ) by {
            if j < sub.len() {
                assert(all[i] == sub[i] && all[j] == sub[j]);
                assert(lex_less(sub[i], sub[j]));
            } else if i >= sub.len() {
                assert(all[i] == tail[i - sub.len()] && all[j] == tail[j - sub.len()]);
                assert(lex_less(tail[i - sub.len()], tail[j - sub.len()]));
            } else {
                let x = sub[i];
                let y = tail[j - sub.len()];
                assert(all[i] == x && all[j] == y);
                assert(sub.contains(x));
                assert(tail.contains(y));
                lemma_cube_membership(pv, (rest - 1) as nat, range, x);
                lemma_cube_from_membership(prefix, rest, range, v + 1, y);
                assert(x.take(n) == x.take(n + 1).take(n));
                assert(pv.take(n) == prefix);
                assert(x[n] == x.take(n + 1)[n]);
                assert(x.take(n) == y.take(n));
                assert(x[n] < y[n]);
            }
        }
    }
}

/// `x` comes before `y` in the walk `ps`.
pub open spec fn occurs_before(ps: Seq<Seq<i32>>, x: Seq<i32>, y: Seq<i32>) -> bool {
    exists|a: int, b: int| 0 <= a < b < ps.len() && ps[a] == x && ps[b] == y
}

/// Growing the range only adds points: every point of the cube for a
/// smaller range is a point of the cube for a larger one, and the walk
/// meets them in the same order.
pub proof fn law_smaller_cube_inside_larger(dim: nat, r1: int, r2: int)
    requires
        0 <= r1 <= r2 <= i32::MAX,
    ensures
        ({
            let c1 = cube_points(Seq::<i32>::empty(), dim, r1);
            let c2 = cube_points(Seq::<i32>::empty(), dim, r2);
            &&& forall|i: int| 0 <= i < c1.len() ==> c2.contains(#[trigger] c1[i])
            &&& forall|i: int, j: int|
                0 <= i < j < c1.len() ==> occurs_before(c2, #[trigger] c1[i], #[trigger] c1[j])
        }),
{
    let e = Seq::<i32>::empty();
    let c1 = cube_points(e, dim, r1);
    let c2 = cube_points(e, dim, r2);
    assert forall|i: int| 0 <= i < c1.len() implies c2.contains(#[trigger] c1[i]) by {
        assert(c1.contains(c1[i]));
        lemma_cube_membership(e, dim, r1, c1[i]);
        lemma_cube_membership(e, dim, r2, c1[i]);
    }
    lemma_cube_sorted(e, dim, r1);
    lemma_cube_sorted(e, dim, r2);
    assert forall|i: int, j: int| 0 <= i < j < c1.len() implies occurs_before(
        c2,
        #[trigger] c1[i],
        #[trigger] c1[j],
    ) by {
        assert(c2.contains(c1[i]));
        assert(c2.contains(c1[j]));
        let a = choose|a: int| 0 <= a < c2.len() && c2[a] == c1[i];
        let b = choose|b: int| 0 <= b < c2.len() && c2[b] == c1[j];
        assert(lex_less(c1[i], c1[j]));
        lemma_lex_less_asymmetric(c1[i], c1[j]);
        if b < a {
            assert(lex_less(c2[b], c2[a]));
        }
        assert(a < b);
        assert(c2[a] == c1[i] && c2[b] == c1[j]);
    }
}

/// The view of a list of lattice points.
pub open spec fn points_view(ps: Seq<Vec<i32>>) -> Seq<Seq<i32>> {
    ps.map_values(|p: Vec<i32>| p@)
}

/// A copy of a lattice point.
fn copy_point(p: &Vec<i32>) -> (q: Vec<i32>)
    ensures
        q@ == p@,
{
    let mut q: Vec<i32> = Vec::new();
    let mut i: usize = 0;
    while i < p.len()
        invariant
            0 <= i <= p@.len(),
            q@ == p@.take(i as int),
        decreases p@.len() - i,
    {
        q.push(p[i]);
        proof {
            assert(q@ =~= p@.take(i + 1));
        }
        i = i + 1;
    }
    proof {
        assert(p@.take(i as int) == p@);
    }
    q
}

/// Walk the cube below the leading coordinates `coords`, appending its
/// points to `out` in walk order.
fn scan_lattice(out: &mut Vec<Vec<i32>>, range: i32, rest: usize, coords: &mut Vec<i32>)
    requires
        range > i32::MIN,
    ensures
        points_view(final(out)@) == points_view(old(out)@) + cube_points(
            old(coords)@,
            rest as nat,
            range as int,
        ),
        final(coords)@ == old(coords)@,
    decreases rest, 1int, 0int,
{
    if rest == 0 {
        let p = copy_point(coords);
        let ghost before = out@;
        out.push(p);
        proof {
            assert(points_view(out@) =~= points_view(before) + seq![coords@]);
        }
    } else {
        let mut v: i64 = -(range as i64);
        let ghost start = out@;
        let ghost prefix = coords@;
        while v <= range as i64
            invariant
                range > i32::MIN,
                rest > 0,
                -(range as int) <= v <= range as int + 1 || (range < 0 && v == -(range as int)),
                coords@ == prefix,
                points_view(start) + cube_points(prefix, rest as nat, range as int) == points_view(
                    out@,
                ) + cube_points_from(prefix, rest as nat, range as int, v as int),
            decreases range as int - v + 1,
        {
            let ghost mid = out@;
            coords.push(v as i32);
            proof {
                assert(coords@ == prefix.push(v as i32));
            }
            scan_lattice(out, range, rest - 1, coords);
            let ghost after = coords@;
            coords.pop();
            proof {
                assert(coords@ =~= prefix);
                assert(cube_points_from(prefix, rest as nat, range as int, v as int)
                    == cube_points(prefix.push(v as i32), (rest - 1) as nat, range as int)
                    + cube_points_from(prefix, rest as nat, range as int, v + 1));
                assert(points_view(out@) == points_view(mid) + cube_points(
                    prefix.push(v as i32),
                    (rest - 1) as nat,
                    range as int,
                ));
            }
            v = v + 1;
        }
        proof {
            assert(cube_points_from(prefix, rest as nat, range as int, v as int) =~= Seq::empty());
            assert(points_view(out@) + Seq::<Seq<i32>>::empty() == points_view(out@));
        }
    }
}

/// All points of the lattice cube `[-range, range]^dim`, in walk order:
/// coordinate 0 varies slowest.
pub fn lattice_points(dim: usize, range: i32) -> (ps: Vec<Vec<i32>>)
    requires
        range > i32::MIN,
    ensures
        points_view(ps@) == cube_points(Seq::empty(), dim as nat, range as int),
        range >= 0 ==> ps@.len() == pow(2 * range + 1, dim as nat),
        range >= 0 ==> forall|i: int| 0 <= i < ps@.len() ==> (#[trigger] ps@[i])@.len() == dim,
{
    let mut out: Vec<Vec<i32>> = Vec::new();
    let mut coords: Vec<i32> = Vec::new();
    proof {
        assert(points_view(out@) =~= Seq::<Seq<i32>>::empty());
    }
    scan_lattice(&mut out, range, dim, &mut coords);
    proof {
        if range >= 0 {
            lemma_cube_points_shape(Seq::empty(), dim as nat, range as int);
            assert forall|i: int| 0 <= i < out@.len() implies (#[trigger] out@[i])@.len() == dim by {
                assert(points_view(out@)[i] == out@[i]@);
            }
        }
        assert(Seq::<Seq<i32>>::empty() + cube_points(Seq::empty(), dim as nat, range as int)
            =~= cube_points(Seq::empty(), dim as nat, range as int));
    }
    out
}

/// Number of entries of the given tile type.
pub open spec fn count_type(types: Seq<TileType>, t: TileType) -> nat
    decreases types.len(),
{
    if types.len() == 0 {
        0
    } else {
        count_type(types.drop_last(), t) + (if types.last() == t {
            1nat
        } else {
            0nat
        })
    }
}

/// Every tile is thick, thin or rejected: the three counts add up to the
/// number of tiles, so a tiling without rejected points splits into thick
/// and thin tiles.
pub proof fn law_census_covers_all(types: Seq<TileType>)
    ensures
        count_type(types, TileType::Thick) + count_type(types, TileType::Thin) + count_type(
            types,
            TileType::Rejected,
        ) == types.len(),
    decreases types.len(),
{
    if types.len() > 0 {
        law_census_covers_all(types.drop_last());
    }
}

/// The census counts every entry, however long the list: the count of a
/// tile type is the number of entries of that type.
pub proof fn law_census_counts_every_entry(types: Seq<TileType>, t: TileType)
    ensures
        count_type(types, t) == types.filter(|x: TileType| x == t).len(),
    decreases types.len(),
{
    reveal(Seq::filter);
    if types.len() > 0 {
        law_census_counts_every_entry(types.drop_last(), t);
    }
}

/// Appending one entry adds one to the count of its type and leaves the
/// other counts as they were.
pub proof fn law_census_of_one_more(types: Seq<TileType>, x: TileType, t: TileType)
    ensures
        count_type(types.push(x), t) == count_type(types, t) + (if x == t {
            1nat
        } else {
            0nat
        }),
{
    assert(types.push(x).drop_last() == types);
}

/// The census of a tiling: how many tiles are thick and how many thin.
pub fn count_tile_types(types: &Vec<TileType>) -> (r: (usize, usize))
    ensures
        r.0 == count_type(types@, TileType::Thick),
        r.1 == count_type(types@, TileType::Thin),
{
    let mut thick: usize = 0;
    let mut thin: usize = 0;
    let mut i: usize = 0;
    while i < types.len()
        invariant
            0 <= i <= types@.len(),
            thick == count_type(types@.take(i as int), TileType::Thick),
            thin == count_type(types@.take(i as int), TileType::Thin),
            thick + thin <= i,
        decreases types@.len() - i,
    {
        proof {
            assert(types@.take(i + 1).drop_last() == types@.take(i as int));
        }
        match types[i] {
            TileType::Thick => {
                thick = thick + 1;
            },
            TileType::Thin => {
                thin = thin + 1;
            },
            TileType::Rejected => {},
        }
        i = i + 1;
    }
    proof {
        assert(types@.take(i as int) == types@);
    }
    (thick, thin)
}

/// Number of histogram entries that fall in bin `k`.
pub open spec fn bin_count(bins: Seq<usize>, k: int) -> nat
    decreases bins.len(),
{
    if bins.len() == 0 {
        0
    } else {
        bin_count(bins.drop_last(), k) + (if bins.last() == k {
            1nat
        } else {
            0nat
        })
    }
}

/// The histogram of bin indices over `n_bins` bins, an index past the last
/// bin counting in the last bin.
pub open spec fn spec_histogram(indices: Seq<usize>, n_bins: nat) -> Seq<nat> {
    Seq::new(
        n_bins,
        |k: int|
            bin_count(
                indices.map_values(|i: usize| if i < n_bins - 1 { i } else { (n_bins - 1) as usize }),
                k,
            ),
    )
}

/// Every index is counted, however many there are: a bin before the last
/// counts the indices equal to it, and the last bin counts those at or past it.
pub proof fn law_histogram_counts_every_index(indices: Seq<usize>, n_bins: nat, k: int)
    requires
        n_bins >= 1,
        0 <= k < n_bins,
    ensures
        k < n_bins - 1 ==> spec_histogram(indices, n_bins)[k] == indices.filter(
            |i: usize| i == k,
        ).len(),
        k == n_bins - 1 ==> spec_histogram(indices, n_bins)[k] == indices.filter(
            |i: usize| i >= k,
        ).len(),
    decreases indices.len(),
{
    reveal(Seq::filter);
    let clamp = |i: usize| if i < n_bins - 1 { i } else { (n_bins - 1) as usize };
    if indices.len() > 0 {
        law_histogram_counts_every_index(indices.drop_last(), n_bins, k);
        assert(indices.map_values(clamp).drop_last() =~= indices.drop_last().map_values(clamp));
        assert(spec_histogram(indices.drop_last(), n_bins)[k] == bin_count(
            indices.drop_last().map_values(clamp),
            k,
        ));
    }
}

/// Count the entries of each bin; indices past the last bin count in it.
pub fn histogram(indices: &Vec<usize>, n_bins: usize) -> (h: Vec<u32>)
    requires
        n_bins >= 1,
        indices@.len() <= u32::MAX,
    ensures
        h@.len() == n_bins,
        forall|k: int| 0 <= k < n_bins ==> #[trigger] h@[k] == spec_histogram(indices@, n_bins as nat)[k],
{
    let ghost clamp = |i: usize| if i < n_bins - 1 { i } else { (n_bins - 1) as usize };
    let mut h: Vec<u32> = Vec::new();
    let mut k: usize = 0;
    while k < n_bins
        invariant
            0 <= k <= n_bins,
            h@ == Seq::new(k as nat, |b: int| 0u32),
        decreases n_bins - k,
    {
        h.push(0);
        proof {
            assert(h@ =~= Seq::new((k + 1) as nat, |b: int| 0u32));
        }
        k = k + 1;
    }
    let mut i: usize = 0;
    while i < indices.len()
        invariant
            0 <= i <= indices@.len(),
            indices@.len() <= u32::MAX,
            n_bins >= 1,
            h@.len() == n_bins,
            clamp == (|i: usize| if i < n_bins - 1 { i } else { (n_bins - 1) as usize }),
            forall|b: int|
                0 <= b < n_bins ==> #[trigger] h@[b] == bin_count(
                    indices@.take(i as int).map_values(clamp),
                    b,
                ),
            forall|b: int| 0 <= b < n_bins ==> #[trigger] h@[b] <= i,
        decreases indices@.len() - i,
    {
        let idx = if indices[i] < n_bins - 1 {
            indices[i]
        } else {
            n_bins - 1
        };
        proof {
            assert(indices@.take(i + 1).map_values(clamp).drop_last() =~= indices@.take(
                i as int,
            ).map_values(clamp));
            assert(indices@.take(i + 1).map_values(clamp).last() == idx);
        }
        let old_count = h[idx];
        h.set(idx, old_count + 1);
        proof {
            let s1 = indices@.take(i + 1).map_values(clamp);
            assert forall|b: int| 0 <= b < n_bins implies #[trigger] h@[b] == bin_count(s1, b) by {
                assert(bin_count(s1, b) == bin_count(s1.drop_last(), b) + (if s1.last() == b {
                    1nat
                } else {
                    0nat
                }));
            }
        }
        i = i + 1;
    }
    proof {
        assert(indices@.take(i as int) == indices@);
    }
    h
}

/// Whether the histogram repeats with the given period: every bin from
/// `period` on equals the bin `period` places before it.
pub open spec fn has_period(bins: Seq<u32>, period: int) -> bool {
    forall|i: int| period <= i < bins.len() ==> #[trigger] bins[i] == bins[i - period]
}

/// A histogram is aperiodic when it repeats with none of the short periods
/// 1 through 9.
pub open spec fn spec_aperiodic(bins: Seq<u32>) -> bool {
    forall|p: int| 1 <= p < 10 ==> !has_period(bins, p)
}

/// Whether a histogram of tile positions is free of short periods.
pub fn bins_aperiodic(bins: &Vec<u32>) -> (r: bool)
    ensures
        r == spec_aperiodic(bins@),
{
    let n = bins.len();
    let mut period: usize = 1;
    while period < 10
        invariant
            1 <= period <= 10,
            n == bins@.len(),
            forall|p: int| 1 <= p < period ==> !has_period(bins@, p),
        decreases 10 - period,
    {
        let mut periodic = true;
        let mut i: usize = period;
        while i < n && periodic
            invariant
                1 <= period < 10,
                n == bins@.len(),
                period <= i,
                periodic ==> forall|j: int| period <= j < i ==> #[trigger] bins@[j] == bins@[j
                    - period],
                !periodic ==> !has_period(bins@, period as int),
                i <= n || i == period,
            decreases n + 10 - i + (if periodic { 1int } else { 0int }),
        {
            if bins[i] != bins[i - period] {
                periodic = false;
            } else {
                i = i + 1;
            }
        }
        if periodic {
            proof {
                assert(has_period(bins@, period as int));
                assert(!spec_aperiodic(bins@));
            }
            return false;
        }
        period = period + 1;
    }
    true
}

} // verus!
