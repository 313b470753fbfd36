//! Content conservation: consolidation folds the contents of each cluster
//! into its merged tile by XOR, so the XOR of all contents in the memory is
//! the same before and after a consolidation.

use vstd::prelude::*;
use crate::memory::{
    Tile, Centroid, xor_contents, kept_prefix, kept_tiles, merged_tiles,
};
use crate::consolidation::{PassView, pass_wf, increasing};

verus! {

/// XOR of the contents of all tiles, in storage order.
pub open spec fn xor_all(tiles: Seq<Tile>) -> u64
    decreases tiles.len(),
{
    if tiles.len() == 0 {
        0
    } else {
        xor_all(tiles.drop_last()) ^ tiles.last().content
    }
}

/// XOR of the contents of the tiles among the first `k` that the mask selects.
pub open spec fn xor_masked(tiles: Seq<Tile>, mask: Seq<bool>, k: int) -> u64
    decreases k,
{
    if k <= 0 {
        0
    } else {
        let r = xor_masked(tiles, mask, k - 1);
        if mask[k - 1] {
            r ^ tiles[k - 1].content
        } else {
            r
        }
    }
}

/// XOR of the merged contents of all clusters, in closing order.
pub open spec fn xor_clusters(tiles: Seq<Tile>, clusters: Seq<Seq<usize>>) -> u64
    decreases clusters.len(),
{
    if clusters.len() == 0 {
        0
    } else {
        xor_clusters(tiles, clusters.drop_last()) ^ xor_contents(tiles, clusters.last())
    }
}

/// The positions among `n` that belong to one of the clusters.
pub open spec fn cluster_mask(clusters: Seq<Seq<usize>>, n: nat) -> Seq<bool> {
    Seq::new(
        n,
        |k: int|
            exists|c: int, i: int|
                0 <= c < clusters.len() && 0 <= i < clusters[c].len() && #[trigger] clusters[c][i]
                    == k,
    )
}

/// The positions among `n` held by one cluster.
pub open spec fn member_mask(members: Seq<usize>, n: nat) -> Seq<bool> {
    Seq::new(n, |k: int| members.contains(k as usize))
}

proof fn lemma_xor_facts(a: u64, b: u64, c: u64)
    ensures
        (a ^ b) ^ c == a ^ (b ^ c),
        a ^ b == b ^ a,
        a ^ 0 == a,
        0 ^ a == a,
{
    assert((a ^ b) ^ c == a ^ (b ^ c)) by (bit_vector);
    assert(a ^ b == b ^ a) by (bit_vector);
    assert(a ^ 0 == a) by (bit_vector);
    assert(0 ^ a == a) by (bit_vector);
}

/// XOR over two disjoint masks is the XOR of the two parts.
proof fn lemma_xor_masked_split(tiles: Seq<Tile>, m: Seq<bool>, m1: Seq<bool>, m2: Seq<bool>, k: int)
    requires
        0 <= k <= tiles.len(),
        m.len() >= k,
        m1.len() >= k,
        m2.len() >= k,
        forall|j: int| 0 <= j < k ==> #[trigger] m[j] == (m1[j] || m2[j]),
        forall|j: int| 0 <= j < k ==> !(#[trigger] m1[j] && m2[j]),
    ensures
        xor_masked(tiles, m, k) == xor_masked(tiles, m1, k) ^ xor_masked(tiles, m2, k),
    decreases k,
{
    if k > 0 {
        lemma_xor_masked_split(tiles, m, m1, m2, k - 1);
        let a = xor_masked(tiles, m1, k - 1);
        let b = xor_masked(tiles, m2, k - 1);
        let c = tiles[k - 1].content;
        lemma_xor_facts(a, b, c);
        lemma_xor_facts(a, c, b);
        lemma_xor_facts(b, c, a);
        lemma_xor_facts(a ^ b, c, 0);
        assert(m[k - 1] == (m1[k - 1] || m2[k - 1]));
        assert(!(m1[k - 1] && m2[k - 1]));
    } else {
        lemma_xor_facts(0, 0, 0);
    }
}

/// XOR over a mask that selects only position `x`.
proof fn lemma_xor_masked_single(tiles: Seq<Tile>, m: Seq<bool>, x: int, k: int)
    requires
        0 <= k <= tiles.len(),
        m.len() >= k,
        forall|j: int| 0 <= j < k ==> #[trigger] m[j] == (j == x),
    ensures
        xor_masked(tiles, m, k) == (if 0 <= x < k {
            tiles[x].content
        } else {
            0u64
        }),
    decreases k,
{
    if k > 0 {
        lemma_xor_masked_single(tiles, m, x, k - 1);
        assert(m[k - 1] == (k - 1 == x));
        lemma_xor_facts(tiles[k - 1].content, 0, 0);
        let r = xor_masked(tiles, m, k - 1);
        if k - 1 == x {
            assert(r == 0);
        } else if 0 <= x < k - 1 {
            assert(r == tiles[x].content);
        } else {
            assert(r == 0);
        }
    }
}

/// XOR over the positions held by one cluster is the cluster's merged content.
proof fn lemma_xor_member_mask(tiles: Seq<Tile>, members: Seq<usize>)
    requires
        tiles.len() <= usize::MAX,
        increasing(members),
        forall|i: int| 0 <= i < members.len() ==> #[trigger] members[i] < tiles.len(),
    ensures
        xor_masked(tiles, member_mask(members, tiles.len()), tiles.len() as int) == xor_contents(
            tiles,
            members,
        ),
    decreases members.len(),
{
    let n = tiles.len();
    if members.len() == 0 {
        lemma_xor_masked_single(tiles, member_mask(members, n), -1, n as int);
    } else {
        let ms = members.drop_last();
        let x = members.last();
        assert(members[members.len() - 1] == x);
        assert forall|i: int, j: int| 0 <= i < j < ms.len() implies #[trigger] ms[i] < #[trigger] ms[j] by {
            assert(members[i] < members[j]);
        }
        assert forall|i: int| 0 <= i < ms.len() implies #[trigger] ms[i] < n by {
            assert(members[i] < n);
        }
        lemma_xor_member_mask(tiles, ms);
        let single = Seq::new(n, |k: int| k == x as int);
        lemma_xor_masked_single(tiles, single, x as int, n as int);
        let m = member_mask(members, n);
        let m1 = member_mask(ms, n);
        assert forall|j: int| 0 <= j < n implies #[trigger] m[j] == (m1[j] || single[j]) by {
            if members.contains(j as usize) && j != x as int {
                let i = choose|i: int| 0 <= i < members.len() && #[trigger] members[i] == j as usize;
                assert(i != members.len() - 1);
                assert(ms[i] == j as usize);
            }
            if ms.contains(j as usize) {
                let i = choose|i: int| 0 <= i < ms.len() && #[trigger] ms[i] == j as usize;
                assert(members[i] == j as usize);
            }
        }
        assert forall|j: int| 0 <= j < n implies !(#[trigger] m1[j] && single[j]) by {
            if ms.contains(j as usize) && j == x as int {
                let i = choose|i: int| 0 <= i < ms.len() && #[trigger] ms[i] == j as usize;
                assert(members[i] < members[members.len() - 1]);
            }
        }
        lemma_xor_masked_split(tiles, m, m1, single, n as int);
    }
}

/// XOR over the positions held by disjoint clusters is the XOR of their
/// merged contents.
proof fn lemma_xor_cluster_mask(tiles: Seq<Tile>, clusters: Seq<Seq<usize>>)
    requires
        tiles.len() <= usize::MAX,
        forall|c: int| 0 <= c < clusters.len() ==> increasing(#[trigger] clusters[c]),
        forall|c: int, i: int|
            0 <= c < clusters.len() && 0 <= i < clusters[c].len() ==> #[trigger] clusters[c][i]
                < tiles.len(),
        forall|c1: int, c2: int, i: int, j: int|
            0 <= c1 < c2 < clusters.len() && 0 <= i < clusters[c1].len() && 0 <= j
                < clusters[c2].len() ==> #[trigger] clusters[c1][i] != #[trigger] clusters[c2][j],
    ensures
        xor_masked(tiles, cluster_mask(clusters, tiles.len()), tiles.len() as int) == xor_clusters(
            tiles,
            clusters,
        ),
    decreases clusters.len(),
{
    let n = tiles.len();
    if clusters.len() == 0 {
        lemma_xor_masked_single(tiles, cluster_mask(clusters, n), -1, n as int);
    } else {
        let cs = clusters.drop_last();
        let last = clusters.last();
        let lc = clusters.len() - 1;
        assert(clusters[lc] == last);
        assert forall|c: int| 0 <= c < cs.len() implies increasing(#[trigger] cs[c]) by {
            assert(cs[c] == clusters[c]);
        }
        assert forall|c: int, i: int| 0 <= c < cs.len() && 0 <= i < cs[c].len() implies #[trigger] cs[c][i] < n by {
            assert(cs[c] == clusters[c]);
            assert(clusters[c][i] < n);
        }
        assert forall|c1: int, c2: int, i: int, j: int|
            0 <= c1 < c2 < cs.len() && 0 <= i < cs[c1].len() && 0 <= j
                < cs[c2].len() implies #[trigger] cs[c1][i] != #[trigger] cs[c2][j] by {
            assert(cs[c1] == clusters[c1]);
            assert(cs[c2] == clusters[c2]);
            assert(clusters[c1][i] != clusters[c2][j]);
        }
        lemma_xor_cluster_mask(tiles, cs);
        assert forall|i: int| 0 <= i < last.len() implies #[trigger] last[i] < n by {
            assert(clusters[lc][i] < n);
        }
        lemma_xor_member_mask(tiles, last);
        let m = cluster_mask(clusters, n);
        let m1 = cluster_mask(cs, n);
        let m2 = member_mask(last, n);
        assert forall|k: int| 0 <= k < n implies #[trigger] m[k] == (m1[k] || m2[k]) by {
            if m[k] {
                let (c, i) = choose|c: int, i: int|
                    0 <= c < clusters.len() && 0 <= i < clusters[c].len() && #[trigger] clusters[c][i]
                        == k;
                if c < lc {
                    assert(cs[c][i] == k);
                } else {
                    assert(last[i] == k as usize);
                }
            }
            if m1[k] {
                let (c, i) = choose|c: int, i: int|
                    0 <= c < cs.len() && 0 <= i < cs[c].len() && #[trigger] cs[c][i] == k;
                assert(clusters[c][i] == k);
            }
            if m2[k] {
                let i = choose|i: int| 0 <= i < last.len() && #[trigger] last[i] == k as usize;
                assert(clusters[lc][i] == k);
            }
        }
        assert forall|k: int| 0 <= k < n implies !(#[trigger] m1[k] && m2[k]) by {
            if m1[k] && m2[k] {
                let (c, i) = choose|c: int, i: int|
                    0 <= c < cs.len() && 0 <= i < cs[c].len() && #[trigger] cs[c][i] == k;
                let j = choose|j: int| 0 <= j < last.len() && #[trigger] last[j] == k as usize;
                assert(clusters[c][i] == k);
                assert(clusters[lc][j] == k);
                assert(clusters[c][i] != clusters[lc][j]);
            }
        }
        lemma_xor_masked_split(tiles, m, m1, m2, n as int);
    }
}

/// XOR of all tiles is the XOR over the full mask.
proof fn lemma_xor_all_masked(tiles: Seq<Tile>, m: Seq<bool>, k: int)
    requires
        0 <= k <= tiles.len(),
        m.len() >= k,
        forall|j: int| 0 <= j < k ==> #[trigger] m[j],
    ensures
        xor_masked(tiles, m, k) == xor_all(tiles.take(k)),
    decreases k,
{
    if k > 0 {
        lemma_xor_all_masked(tiles, m, k - 1);
        assert(tiles.take(k).drop_last() == tiles.take(k - 1));
        assert(m[k - 1]);
    }
}

/// XOR of the kept tiles is the XOR over the unmerged positions.
proof fn lemma_xor_kept(tiles: Seq<Tile>, merged: Seq<bool>, unmerged: Seq<bool>, k: int)
    requires
        0 <= k <= tiles.len(),
        merged.len() >= k,
        unmerged.len() >= k,
        forall|j: int| 0 <= j < k ==> #[trigger] unmerged[j] == !merged[j],
    ensures
        xor_all(kept_prefix(tiles, merged, k)) == xor_masked(tiles, unmerged, k),
    decreases k,
{
    if k > 0 {
        lemma_xor_kept(tiles, merged, unmerged, k - 1);
        assert(unmerged[k - 1] == !merged[k - 1]);
        if !merged[k - 1] {
            assert(kept_prefix(tiles, merged, k).drop_last() == kept_prefix(tiles, merged, k - 1));
        }
    }
}

/// XOR over a concatenation.
proof fn lemma_xor_all_concat(a: Seq<Tile>, b: Seq<Tile>)
    ensures
        xor_all(a + b) == xor_all(a) ^ xor_all(b),
    decreases b.len(),
{
    if b.len() == 0 {
        assert(a + b == a);
        lemma_xor_facts(xor_all(a), 0, 0);
    } else {
        lemma_xor_all_concat(a, b.drop_last());
        assert((a + b).drop_last() == a + b.drop_last());
        lemma_xor_facts(xor_all(a), xor_all(b.drop_last()), b.last().content);
    }
}

/// XOR over the merged tiles is the XOR of the clusters' merged contents.
proof fn lemma_xor_merged_tiles(
    tiles: Seq<Tile>,
    clusters: Seq<Seq<usize>>,
    centroids: Seq<Centroid>,
    next_id: nat,
)
    ensures
        xor_all(merged_tiles(tiles, clusters, centroids, next_id)) == xor_clusters(tiles, clusters),
    decreases clusters.len(),
{
    if clusters.len() > 0 {
        let cs = clusters.drop_last();
        lemma_xor_merged_tiles(tiles, cs, centroids, next_id);
        assert(merged_tiles(tiles, clusters, centroids, next_id).drop_last() =~= merged_tiles(
            tiles,
            cs,
            centroids,
            next_id,
        ));
    }
}

/// Consolidation conserves content: the XOR of all contents after the
/// clusters are replaced by their merged tiles equals the XOR of all
/// contents before.
pub proof fn law_consolidation_conserves_content(
    tiles: Seq<Tile>,
    pass: PassView,
    centroids: Seq<Centroid>,
    next_id: nat,
)
    requires
        pass_wf(pass),
        pass.eligible.len() == tiles.len(),
    ensures
        xor_all(
            kept_tiles(tiles, pass.merged) + merged_tiles(tiles, pass.clusters, centroids, next_id),
        ) == xor_all(tiles),
{
    let n = tiles.len();
    let merged = pass.merged;
    let cs = pass.clusters;
    let unmerged = Seq::new(n, |k: int| !merged[k]);
    let all = Seq::new(n, |k: int| true);
    let cm = cluster_mask(cs, n);
    assert forall|c: int, i: int| 0 <= c < cs.len() && 0 <= i < cs[c].len() implies #[trigger] cs[c][i] < n by {
    }
    lemma_xor_cluster_mask(tiles, cs);
    assert forall|k: int| 0 <= k < n implies #[trigger] cm[k] == merged[k] by {
        if cm[k] {
            let (c, i) = choose|c: int, i: int|
                0 <= c < cs.len() && 0 <= i < cs[c].len() && #[trigger] cs[c][i] == k;
            assert(merged[cs[c][i] as int]);
        }
    }
    assert(cm =~= merged);
    lemma_xor_kept(tiles, merged, unmerged, n as int);
    lemma_xor_merged_tiles(tiles, cs, centroids, next_id);
    lemma_xor_all_concat(kept_tiles(tiles, merged), merged_tiles(tiles, cs, centroids, next_id));
    assert forall|k: int| 0 <= k < n implies #[trigger] all[k] == (unmerged[k] || merged[k]) by {
    }
    lemma_xor_masked_split(tiles, all, unmerged, merged, n as int);
    lemma_xor_all_masked(tiles, all, n as int);
    assert(tiles.take(n as int) == tiles);
}

} // verus!
