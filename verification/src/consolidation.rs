//! Planning a consolidation pass over the golden hierarchy.
//!
//! Consolidation walks the level-0 tiles in storage order. Each tile that is
//! not yet merged heads a cluster; every later free tile is offered to the
//! cluster in turn, and joins it when it lies within the merge distance of the
//! cluster's running centroid. A cluster of two or more tiles is merged into
//! one level-1 tile.
//!
//! Whether a tile lies within the merge distance is a question about the
//! floor geometry, answered outside this module. The pass is a state machine:
//! it names the pending question (the cluster so far and the candidate tile),
//! takes the answer, and moves on exactly as the walk does.

use vstd::prelude::*;

verus! {

/// The state of a consolidation pass.
pub ghost struct PassView {
    /// Which tiles take part (the level-0 ones), by storage position.
    pub eligible: Seq<bool>,
    /// Which tiles already belong to a closed cluster.
    pub merged: Seq<bool>,
    /// The tile heading the open cluster.
    pub head: int,
    /// The tile being offered to the open cluster.
    pub cand: int,
    /// The members of the open cluster, in joining order.
    pub members: Seq<usize>,
    /// The closed clusters of two or more tiles, in closing order.
    pub clusters: Seq<Seq<usize>>,
    /// Whether the pass has run out of tiles.
    pub done: bool,
}

/// Whether tile `k` can still join or head a cluster.
pub open spec fn is_free(eligible: Seq<bool>, merged: Seq<bool>, k: int) -> bool {
    eligible[k] && !merged[k]
}

/// The first free tile at or after `from`, or the tile count when none is left.
pub open spec fn next_free(eligible: Seq<bool>, merged: Seq<bool>, from: int) -> int
    decreases eligible.len() - from,
{
    if from >= eligible.len() {
        eligible.len() as int
    } else if is_free(eligible, merged, from) {
        from
    } else {
        next_free(eligible, merged, from + 1)
    }
}

/// `merged` with every member of the cluster marked.
pub open spec fn mark_all(merged: Seq<bool>, members: Seq<usize>) -> Seq<bool> {
    Seq::new(merged.len(), |k: int| merged[k] || members.contains(k as usize))
}

/// Close the open cluster: a cluster of two or more tiles is recorded and
/// its members marked merged; a lone head is left as it is.
pub open spec fn close_cluster(v: PassView) -> PassView {
    if v.members.len() > 1 {
        PassView {
            merged: mark_all(v.merged, v.members),
            clusters: v.clusters.push(v.members),
            ..v
        }
    } else {
        v
    }
}

/// Number of `true` entries.
pub open spec fn count_true(s: Seq<bool>) -> nat
    decreases s.len(),
{
    if s.len() == 0 {
        0
    } else {
        count_true(s.drop_last()) + (if s.last() {
            1nat
        } else {
            0nat
        })
    }
}

/// Total number of members over all clusters.
pub open spec fn total_size(clusters: Seq<Seq<usize>>) -> nat
    decreases clusters.len(),
{
    if clusters.len() == 0 {
        0
    } else {
        total_size(clusters.drop_last()) + clusters.last().len()
    }
}

/// Setting one `false` entry to `true` adds one to the count.
pub proof fn lemma_count_true_set(s: Seq<bool>, x: int)
    requires
        0 <= x < s.len(),
        !s[x],
    ensures
        count_true(s.update(x, true)) == count_true(s) + 1,
    decreases s.len(),
{
    let t = s.update(x, true);
    if x == s.len() - 1 {
        assert(t.drop_last() == s.drop_last());
    } else {
        assert(t.drop_last() == s.drop_last().update(x, true));
        lemma_count_true_set(s.drop_last(), x);
    }
}

/// Nothing is counted in an all-`false` sequence.
pub proof fn lemma_count_true_none(n: nat)
    ensures
        count_true(Seq::new(n, |k: int| false)) == 0,
    decreases n,
{
    if n > 0 {
        assert(Seq::new(n, |k: int| false).drop_last() == Seq::new((n - 1) as nat, |k: int| false));
        lemma_count_true_none((n - 1) as nat);
    }
}

/// Marking the members of a cluster of unmerged tiles adds its size to the
/// merged count.
pub proof fn lemma_count_mark_all(merged: Seq<bool>, members: Seq<usize>)
    requires
        merged.len() <= usize::MAX,
        increasing(members),
        forall|i: int| 0 <= i < members.len() ==> #[trigger] members[i] < merged.len() && !merged[members[i] as int],
    ensures
        count_true(mark_all(merged, members)) == count_true(merged) + members.len(),
    decreases members.len(),
{
    if members.len() == 0 {
        assert(mark_all(merged, members) == merged);
    } else {
        let ms = members.drop_last();
        let x = members.last();
        assert forall|i: int, j: int| 0 <= i < j < ms.len() implies #[trigger] ms[i] < #[trigger] ms[j] by {
            assert(members[i] < members[j]);
        }
        assert forall|i: int| 0 <= i < ms.len() implies #[trigger] ms[i] < merged.len() && !merged[ms[i] as int] by {
            assert(ms[i] == members[i]);
        }
        lemma_count_mark_all(merged, ms);
        assert(!ms.contains(x)) by {
            if ms.contains(x) {
                let i = choose|i: int| 0 <= i < ms.len() && #[trigger] ms[i] == x;
                assert(members[i] < members[members.len() - 1]);
            }
        }
        assert(mark_all(merged, members) =~= mark_all(merged, ms).update(x as int, true)) by {
            assert forall|k: int| 0 <= k < merged.len() implies #[trigger] mark_all(merged, members)[k] == mark_all(merged, ms).update(x as int, true)[k] by {
                if members.contains(k as usize) && k != x as int {
                    let i = choose|i: int| 0 <= i < members.len() && #[trigger] members[i] == k as usize;
                    assert(members[members.len() - 1] == x);
                    assert(i != members.len() - 1);
                    assert(ms[i] == k as usize);
                }
                if ms.contains(k as usize) {
                    let i = choose|i: int| 0 <= i < ms.len() && #[trigger] ms[i] == k as usize;
                    assert(members[i] == k as usize);
                }
                if k == x as int {
                    assert(members[members.len() - 1] == x);
                }
            }
        }
        assert(members[members.len() - 1] == x);
        lemma_count_true_set(mark_all(merged, ms), x as int);
    }
}

/// Clusters of two or more members hold at least twice as many members as
/// there are clusters.
pub proof fn lemma_total_size_bound(clusters: Seq<Seq<usize>>)
    requires
        forall|c: int| 0 <= c < clusters.len() ==> #[trigger] clusters[c].len() >= 2,
    ensures
        total_size(clusters) >= 2 * clusters.len(),
    decreases clusters.len(),
{
    if clusters.len() > 0 {
        let cs = clusters.drop_last();
        assert forall|c: int| 0 <= c < cs.len() implies #[trigger] cs[c].len() >= 2 by {
            assert(cs[c] == clusters[c]);
        }
        lemma_total_size_bound(cs);
        assert(clusters[clusters.len() - 1].len() >= 2);
    }
}

/// Strictly increasing positions.
pub open spec fn increasing(s: Seq<usize>) -> bool {
    forall|i: int, j: int| 0 <= i < j < s.len() ==> #[trigger] s[i] < #[trigger] s[j]
}

/// The closed clusters: each has two or more increasing positions of
/// eligible, merged tiles; they are pairwise disjoint; and a tile is merged
/// only when it belongs to one of them.
pub open spec fn clusters_wf(clusters: Seq<Seq<usize>>, eligible: Seq<bool>, merged: Seq<bool>) -> bool {
    &&& forall|c: int| 0 <= c < clusters.len() ==> #[trigger] clusters[c].len() >= 2
    &&& forall|c: int| 0 <= c < clusters.len() ==> increasing(#[trigger] clusters[c])
    &&& forall|c: int, i: int|
        0 <= c < clusters.len() && 0 <= i < clusters[c].len() ==> {
            let k = #[trigger] clusters[c][i];
            &&& k < eligible.len()
            &&& eligible[k as int]
            &&& merged[k as int]
        }
    &&& forall|c1: int, c2: int, i: int, j: int|
        0 <= c1 < c2 < clusters.len() && 0 <= i < clusters[c1].len() && 0 <= j
            < clusters[c2].len() ==> #[trigger] clusters[c1][i] != #[trigger] clusters[c2][j]
    &&& forall|k: int|
        0 <= k < merged.len() && #[trigger] merged[k] ==> exists|c: int, i: int|
            0 <= c < clusters.len() && 0 <= i < clusters[c].len() && #[trigger] clusters[c][i]
                == k
}

/// A pass between an answer and the next question: the open cluster is
/// headed by its first member, its members are free and increasing and lie
/// before the candidate, and the candidate, if any is left, is free.
pub open spec fn open_wf(v: PassView) -> bool {
    let n = v.eligible.len();
    &&& n <= usize::MAX
    &&& v.merged.len() == n
    &&& clusters_wf(v.clusters, v.eligible, v.merged)
    &&& count_true(v.merged) == total_size(v.clusters)
    &&& !v.done ==> {
        &&& 0 <= v.head < v.cand <= n
        &&& v.members.len() >= 1
        &&& v.members[0] == v.head
        &&& increasing(v.members)
        &&& forall|i: int|
            0 <= i < v.members.len() ==> v.head <= #[trigger] v.members[i] < v.cand
                && is_free(v.eligible, v.merged, v.members[i] as int)
        &&& v.cand < n ==> is_free(v.eligible, v.merged, v.cand)
    }
}

/// A pass that waits for an answer (or is done).
pub open spec fn pass_wf(v: PassView) -> bool {
    &&& open_wf(v)
    &&& !v.done ==> v.cand < v.eligible.len()
}

/// Close clusters and open new ones until a candidate is pending or no
/// free tile is left.
pub open spec fn settle(v: PassView) -> PassView
    decreases v.eligible.len() - v.head,
{
    if v.done || v.cand < v.eligible.len() || v.head < 0 {
        v
    } else {
        let c = close_cluster(v);
        let h = next_free(c.eligible, c.merged, v.head + 1);
        if h >= c.eligible.len() {
            PassView { done: true, members: Seq::empty(), ..c }
        } else {
            proof {
                lemma_next_free_bounds(c.eligible, c.merged, v.head + 1);
            }
            settle(
                PassView {
                    head: h,
                    members: seq![h as usize],
                    cand: next_free(c.eligible, c.merged, h + 1),
                    ..c
                },
            )
        }
    }
}

/// The pass over tiles of which `eligible` take part: nothing is merged yet
/// and the first free tile heads the first cluster. With fewer than two
/// tiles there is nothing to consolidate.
pub open spec fn start_view(eligible: Seq<bool>) -> PassView {
    let merged = Seq::new(eligible.len(), |k: int| false);
    let idle = PassView {
        eligible,
        merged,
        head: 0,
        cand: 0,
        members: Seq::empty(),
        clusters: Seq::empty(),
        done: true,
    };
    let h = next_free(eligible, merged, 0);
    if eligible.len() < 2 || h >= eligible.len() {
        idle
    } else {
        settle(
            PassView {
                head: h,
                members: seq![h as usize],
                cand: next_free(eligible, merged, h + 1),
                done: false,
                ..idle
            },
        )
    }
}

/// The pass after the pending candidate was found close to the open
/// cluster (`close`) or not: it joins the cluster or not, and the walk moves on.
pub open spec fn answered(v: PassView, close: bool) -> PassView {
    settle(
        PassView {
            members: if close {
                v.members.push(v.cand as usize)
            } else {
                v.members
            },
            cand: next_free(v.eligible, v.merged, v.cand + 1),
            ..v
        },
    )
}

/// `next_free` lies between `from` and the tile count, lands on a free tile
/// when below the count, and skips only tiles that are not free.
pub proof fn lemma_next_free_bounds(eligible: Seq<bool>, merged: Seq<bool>, from: int)
    requires
        0 <= from,
    ensures
        from <= eligible.len() ==> from <= next_free(eligible, merged, from),
        next_free(eligible, merged, from) <= eligible.len() || from > eligible.len(),
        next_free(eligible, merged, from) < eligible.len() ==> is_free(
            eligible,
            merged,
            next_free(eligible, merged, from),
        ),
        forall|k: int|
            from <= k < next_free(eligible, merged, from) && k < eligible.len() ==> !is_free(
                eligible,
                merged,
                k,
            ),
    decreases eligible.len() - from,
{
    if from < eligible.len() && !is_free(eligible, merged, from) {
        lemma_next_free_bounds(eligible, merged, from + 1);
    }
}

/// Closing the open cluster keeps the closed clusters well formed.
proof fn lemma_close_wf(v: PassView)
    requires
        open_wf(v),
        !v.done,
    ensures
        clusters_wf(close_cluster(v).clusters, v.eligible, close_cluster(v).merged),
        close_cluster(v).merged.len() == v.eligible.len(),
        count_true(close_cluster(v).merged) == total_size(close_cluster(v).clusters),
        forall|k: int|
            0 <= k < v.eligible.len() && is_free(
                v.eligible,
                close_cluster(v).merged,
                k,
            ) ==> is_free(v.eligible, v.merged, k),
        forall|k: int|
            #![trigger is_free(v.eligible, close_cluster(v).merged, k)]
            0 <= k < v.eligible.len() && k >= v.cand ==> (is_free(
                v.eligible,
                close_cluster(v).merged,
                k,
            ) == is_free(v.eligible, v.merged, k)),
{
    let c = close_cluster(v);
    let n = v.eligible.len();
    if v.members.len() > 1 {
        let cl = c.clusters;
        let last = cl.len() - 1;
        assert(cl[last] == v.members);
        assert forall|i: int| 0 <= i < v.members.len() implies #[trigger] v.members[i] < v.merged.len() && !v.merged[v.members[i] as int] by {
            assert(is_free(v.eligible, v.merged, v.members[i] as int));
        }
        lemma_count_mark_all(v.merged, v.members);
        assert(cl.drop_last() == v.clusters);
        assert forall|x: int, i: int|
            0 <= x < cl.len() && 0 <= i < cl[x].len() implies {
            let k = #[trigger] cl[x][i];
            &&& k < n
            &&& v.eligible[k as int]
            &&& c.merged[k as int]
        } by {
            if x == last {
                let k = v.members[i];
                assert(v.members.contains(k));
                assert(is_free(v.eligible, v.merged, k as int));
            } else {
                assert(cl[x] == v.clusters[x]);
            }
        }
        assert forall|c1: int, c2: int, i: int, j: int|
            0 <= c1 < c2 < cl.len() && 0 <= i < cl[c1].len() && 0 <= j
                < cl[c2].len() implies #[trigger] cl[c1][i] != #[trigger] cl[c2][j] by {
            if c2 == last {
                assert(cl[c1] == v.clusters[c1]);
                let k = cl[c1][i];
                assert(v.merged[k as int]);
                assert(is_free(v.eligible, v.merged, v.members[j] as int));
            } else {
                assert(cl[c1] == v.clusters[c1]);
                assert(cl[c2] == v.clusters[c2]);
            }
        }
        assert forall|k: int| 0 <= k < c.merged.len() && #[trigger] c.merged[k] implies exists|
            x: int,
            i: int,
        | 0 <= x < cl.len() && 0 <= i < cl[x].len() && #[trigger] cl[x][i] == k by {
            if v.merged[k] {
                let (x, i) = choose|x: int, i: int|
                    0 <= x < v.clusters.len() && 0 <= i < v.clusters[x].len()
                        && #[trigger] v.clusters[x][i] == k;
                assert(cl[x] == v.clusters[x]);
                assert(cl[x][i] == k);
            } else {
                assert(v.members.contains(k as usize));
                let i = choose|i: int| 0 <= i < v.members.len() && #[trigger] v.members[i] == k as usize;
                assert(cl[last][i] == k);
            }
        }
        assert forall|x: int| 0 <= x < cl.len() implies increasing(#[trigger] cl[x]) by {
            if x < last {
                assert(cl[x] == v.clusters[x]);
            }
        }
        assert forall|x: int| 0 <= x < cl.len() implies #[trigger] cl[x].len() >= 2 by {
            if x < last {
                assert(cl[x] == v.clusters[x]);
            }
        }
        assert forall|k: int|
            #![trigger is_free(v.eligible, c.merged, k)]
            0 <= k < n && k >= v.cand implies (is_free(v.eligible, c.merged, k) == is_free(
                v.eligible,
                v.merged,
                k,
            )) by {
            if v.members.contains(k as usize) {
                let i = choose|i: int| 0 <= i < v.members.len() && #[trigger] v.members[i] == k as usize;
                assert(v.members[i] < v.cand);
            }
        }
    }
}

/// Settling a pass yields a pass that waits for an answer or is done.
pub proof fn lemma_settle_wf(v: PassView)
    requires
        open_wf(v),
    ensures
        pass_wf(settle(v)),
        settle(v).eligible == v.eligible,
    decreases v.eligible.len() - v.head,
{
    if v.done || v.cand < v.eligible.len() || v.head < 0 {
    } else {
        let c = close_cluster(v);
        let n = v.eligible.len();
        lemma_close_wf(v);
        let h = next_free(c.eligible, c.merged, v.head + 1);
        lemma_next_free_bounds(c.eligible, c.merged, v.head + 1);
        if h >= n {
        } else {
            lemma_next_free_bounds(c.eligible, c.merged, h + 1);
            let w = PassView {
                head: h,
                members: seq![h as usize],
                cand: next_free(c.eligible, c.merged, h + 1),
                ..c
            };
            assert(w.members[0] == h);
            assert(open_wf(w));
            lemma_settle_wf(w);
        }
    }
}

/// The starting pass is well formed.
pub proof fn lemma_start_wf(eligible: Seq<bool>)
    requires
        eligible.len() <= usize::MAX,
    ensures
        pass_wf(start_view(eligible)),
        start_view(eligible).eligible == eligible,
{
    let merged = Seq::new(eligible.len(), |k: int| false);
    let h = next_free(eligible, merged, 0);
    lemma_next_free_bounds(eligible, merged, 0);
    let idle = PassView {
        eligible,
        merged,
        head: 0,
        cand: 0,
        members: Seq::empty(),
        clusters: Seq::empty(),
        done: true,
    };
    assert(clusters_wf(idle.clusters, eligible, merged));
    lemma_count_true_none(eligible.len());
    if eligible.len() < 2 || h >= eligible.len() {
    } else {
        lemma_next_free_bounds(eligible, merged, h + 1);
        let w = PassView {
            head: h,
            members: seq![h as usize],
            cand: next_free(eligible, merged, h + 1),
            done: false,
            ..idle
        };
        assert(w.members[0] == h);
        assert(open_wf(w));
        lemma_settle_wf(w);
    }
}

/// Answering the pending question keeps the pass well formed.
pub proof fn lemma_answered_wf(v: PassView, close: bool)
    requires
        pass_wf(v),
        !v.done,
    ensures
        pass_wf(answered(v, close)),
        answered(v, close).eligible == v.eligible,
{
    lemma_next_free_bounds(v.eligible, v.merged, v.cand + 1);
    let w = PassView {
        members: if close {
            v.members.push(v.cand as usize)
        } else {
            v.members
        },
        cand: next_free(v.eligible, v.merged, v.cand + 1),
        ..v
    };
    if close {
        assert(w.members[0] == v.head);
        assert forall|i: int, j: int|
            0 <= i < j < w.members.len() implies #[trigger] w.members[i]
            < #[trigger] w.members[j] by {
            if j < v.members.len() {
                assert(v.members[i] < v.members[j]);
            } else {
                assert(v.members[i] < v.cand);
            }
        }
        assert forall|i: int| 0 <= i < w.members.len() implies v.head <= #[trigger] w.members[i]
            < w.cand && is_free(v.eligible, v.merged, w.members[i] as int) by {
            if i < v.members.len() {
                assert(v.members[i] < v.cand);
            }
        }
    }
    assert(open_wf(w));
    lemma_settle_wf(w);
}

/// Settling a pass whose open cluster holds only its head closes no cluster.
proof fn lemma_settle_lone(v: PassView)
    requires
        v.done || v.members.len() == 1,
    ensures
        settle(v).clusters == v.clusters,
        settle(v).merged == v.merged,
        !settle(v).done ==> settle(v).members.len() == 1,
    decreases v.eligible.len() - v.head,
{
    if v.done || v.cand < v.eligible.len() || v.head < 0 {
    } else {
        let c = close_cluster(v);
        assert(c == v);
        let h = next_free(c.eligible, c.merged, v.head + 1);
        if h < c.eligible.len() {
            lemma_next_free_bounds(c.eligible, c.merged, v.head + 1);
            lemma_settle_lone(
                PassView {
                    head: h,
                    members: seq![h as usize],
                    cand: next_free(c.eligible, c.merged, h + 1),
                    ..c
                },
            );
        }
    }
}

/// A fresh pass has closed no cluster and merged no tile; while it runs its
/// open cluster holds only its head.
pub proof fn law_start_closes_nothing(eligible: Seq<bool>)
    ensures
        start_view(eligible).clusters == Seq::<Seq<usize>>::empty(),
        start_view(eligible).merged == Seq::new(eligible.len(), |k: int| false),
        !start_view(eligible).done ==> start_view(eligible).members.len() == 1,
{
    let merged = Seq::new(eligible.len(), |k: int| false);
    let h = next_free(eligible, merged, 0);
    if !(eligible.len() < 2 || h >= eligible.len()) {
        let w = PassView {
            eligible,
            merged,
            head: h,
            cand: next_free(eligible, merged, h + 1),
            members: seq![h as usize],
            clusters: Seq::empty(),
            done: false,
        };
        lemma_settle_lone(w);
    }
}

/// Answering "not close" to a pass whose open cluster holds only its head
/// closes no cluster and merges no tile, and the next open cluster again
/// holds only its head. A pass answered "not close" throughout therefore
/// ends with no cluster and nothing merged.
pub proof fn law_not_close_closes_nothing(v: PassView)
    requires
        pass_wf(v),
        !v.done,
        v.members.len() == 1,
    ensures
        answered(v, false).clusters == v.clusters,
        answered(v, false).merged == v.merged,
        !answered(v, false).done ==> answered(v, false).members.len() == 1,
{
    let w = PassView { cand: next_free(v.eligible, v.merged, v.cand + 1), ..v };
    assert(answered(v, false) == settle(w));
    lemma_settle_lone(w);
}

/// The pass after `steps` questions all given the same answer (or earlier,
/// once it is done).
pub open spec fn run_answering(v: PassView, close: bool, steps: nat) -> PassView
    decreases steps,
{
    if steps == 0 || v.done {
        v
    } else {
        run_answering(answered(v, close), close, (steps - 1) as nat)
    }
}

/// How far a running pass is from its end: it falls with every answer.
pub open spec fn remaining_work(v: PassView) -> int {
    let n = v.eligible.len() as int;
    (n - v.head) * (n + 1) + (n - v.cand)
}

/// Settling either leaves the pass alone, ends it, or moves to a later head.
proof fn lemma_settle_moves_on(w: PassView)
    requires
        w.head >= 0,
    ensures
        settle(w).done || settle(w) == w || settle(w).head > w.head,
    decreases w.eligible.len() - w.head,
{
    if w.done || w.cand < w.eligible.len() || w.head < 0 {
    } else {
        let c = close_cluster(w);
        let h = next_free(c.eligible, c.merged, w.head + 1);
        lemma_next_free_bounds(c.eligible, c.merged, w.head + 1);
        if h < c.eligible.len() {
            lemma_settle_moves_on(
                PassView {
                    head: h,
                    members: seq![h as usize],
                    cand: next_free(c.eligible, c.merged, h + 1),
                    ..c
                },
            );
        }
    }
}

/// Every answer brings a running pass closer to its end.
proof fn lemma_answer_progress(v: PassView, close: bool)
    requires
        pass_wf(v),
        !v.done,
    ensures
        !answered(v, close).done ==> 0 <= remaining_work(answered(v, close)) < remaining_work(v),
{
    let n = v.eligible.len() as int;
    lemma_next_free_bounds(v.eligible, v.merged, v.cand + 1);
    let w = PassView {
        members: if close {
            v.members.push(v.cand as usize)
        } else {
            v.members
        },
        cand: next_free(v.eligible, v.merged, v.cand + 1),
        ..v
    };
    lemma_settle_moves_on(w);
    lemma_answered_wf(v, close);
    let a = answered(v, close);
    if !a.done {
        if a == w {
            assert(remaining_work(a) < remaining_work(v));
        } else {
            let (h, c, h2, c2) = (v.head, v.cand, a.head, a.cand);
            assert(0 <= remaining_work(a) < remaining_work(v)) by (nonlinear_arith)
                requires
                    0 <= h < c < n,
                    h < h2 < c2 < n,
                    remaining_work(a) == (n - h2) * (n + 1) + (n - c2),
                    remaining_work(v) == (n - h) * (n + 1) + (n - c),
            ;
        }
    }
}

/// Answering "not close" throughout keeps a pass free of clusters and
/// merges, and a pass given more steps than its remaining work ends.
proof fn lemma_run_not_close(v: PassView, steps: nat)
    requires
        pass_wf(v),
        v.clusters == Seq::<Seq<usize>>::empty(),
        v.merged == Seq::new(v.eligible.len(), |k: int| false),
        !v.done ==> v.members.len() == 1,
    ensures
        pass_wf(run_answering(v, false, steps)),
        run_answering(v, false, steps).eligible == v.eligible,
        run_answering(v, false, steps).clusters == Seq::<Seq<usize>>::empty(),
        run_answering(v, false, steps).merged == Seq::new(v.eligible.len(), |k: int| false),
        !v.done && steps > remaining_work(v) ==> run_answering(v, false, steps).done,
    decreases steps,
{
    if steps > 0 && !v.done {
        law_not_close_closes_nothing(v);
        lemma_answered_wf(v, false);
        lemma_answer_progress(v, false);
        lemma_run_not_close(answered(v, false), (steps - 1) as nat);
    }
}

/// A pass whose every question is answered "not close" ends, within
/// `(n + 1)²` answers for `n` tiles, with no cluster closed and no tile merged.
pub proof fn law_pass_not_close_throughout(eligible: Seq<bool>, steps: nat)
    requires
        eligible.len() <= usize::MAX,
    ensures
        pass_wf(run_answering(start_view(eligible), false, steps)),
        run_answering(start_view(eligible), false, steps).eligible == eligible,
        run_answering(start_view(eligible), false, steps).clusters == Seq::<Seq<usize>>::empty(),
        run_answering(start_view(eligible), false, steps).merged == Seq::new(eligible.len(), |k: int| false),
        steps >= (eligible.len() + 1) * (eligible.len() + 1) ==> run_answering(
            start_view(eligible),
            false,
            steps,
        ).done,
{
    let v = start_view(eligible);
    let n = eligible.len() as int;
    lemma_start_wf(eligible);
    law_start_closes_nothing(eligible);
    lemma_run_not_close(v, steps);
    if !v.done {
        let (h, c) = (v.head, v.cand);
        assert(remaining_work(v) < (n + 1) * (n + 1)) by (nonlinear_arith)
            requires
                0 <= h < c < n,
                remaining_work(v) == (n - h) * (n + 1) + (n - c),
        ;
    } else {
        if steps > 0 {
            assert(run_answering(v, false, steps) == v);
        }
        assert(run_answering(v, false, steps) == v);
    }
}

/// Settling never drops a closed cluster, and a pass whose open cluster has
/// two or more members either waits on as it is or closes a cluster.
proof fn lemma_settle_keeps_clusters(w: PassView)
    ensures
        settle(w).clusters.len() >= w.clusters.len(),
        !w.done && w.members.len() >= 2 ==> (settle(w) == w || settle(w).clusters.len()
            > w.clusters.len()),
    decreases w.eligible.len() - w.head,
{
    if w.done || w.cand < w.eligible.len() || w.head < 0 {
    } else {
        let c = close_cluster(w);
        let h = next_free(c.eligible, c.merged, w.head + 1);
        lemma_next_free_bounds(c.eligible, c.merged, w.head + 1);
        if h < c.eligible.len() {
            lemma_settle_keeps_clusters(
                PassView {
                    head: h,
                    members: seq![h as usize],
                    cand: next_free(c.eligible, c.merged, h + 1),
                    ..c
                },
            );
        }
    }
}

/// Answering "close" throughout to a pass that has a closed cluster, or an
/// open one of two or more members, ends with a closed cluster.
proof fn lemma_run_close(v: PassView, steps: nat)
    requires
        pass_wf(v),
        v.clusters.len() >= 1 || (!v.done && v.members.len() >= 2),
    ensures
        pass_wf(run_answering(v, true, steps)),
        run_answering(v, true, steps).eligible == v.eligible,
        run_answering(v, true, steps).clusters.len() >= 1 || (!run_answering(v, true, steps).done
            && run_answering(v, true, steps).members.len() >= 2),
        run_answering(v, true, steps).done ==> run_answering(v, true, steps).clusters.len() >= 1,
        !v.done && steps > remaining_work(v) ==> run_answering(v, true, steps).done,
    decreases steps,
{
    if steps > 0 && !v.done {
        let w = PassView {
            members: v.members.push(v.cand as usize),
            cand: next_free(v.eligible, v.merged, v.cand + 1),
            ..v
        };
        assert(answered(v, true) == settle(w));
        lemma_settle_keeps_clusters(w);
        lemma_answered_wf(v, true);
        lemma_answer_progress(v, true);
        lemma_run_close(answered(v, true), (steps - 1) as nat);
    }
}

/// A pass over tiles of which at least two take part, whose every question
/// is answered "close", ends within `(n + 1)²` answers for `n` tiles, having
/// closed at least one cluster.
pub proof fn law_pass_close_throughout(eligible: Seq<bool>, steps: nat, i: int, j: int)
    requires
        eligible.len() <= usize::MAX,
        0 <= i < j < eligible.len(),
        eligible[i],
        eligible[j],
    ensures
        pass_wf(run_answering(start_view(eligible), true, steps)),
        run_answering(start_view(eligible), true, steps).eligible == eligible,
        steps >= (eligible.len() + 1) * (eligible.len() + 1) ==> run_answering(
            start_view(eligible),
            true,
            steps,
        ).done,
        run_answering(start_view(eligible), true, steps).done ==> run_answering(
            start_view(eligible),
            true,
            steps,
        ).clusters.len() >= 1,
{
    let n = eligible.len() as int;
    let merged = Seq::new(eligible.len(), |k: int| false);
    let v = start_view(eligible);
    lemma_start_wf(eligible);
    law_start_closes_nothing(eligible);
    lemma_next_free_bounds(eligible, merged, 0);
    let h = next_free(eligible, merged, 0);
    assert(is_free(eligible, merged, i));
    assert(h <= i);
    lemma_next_free_bounds(eligible, merged, h + 1);
    let c = next_free(eligible, merged, h + 1);
    assert(is_free(eligible, merged, j));
    assert(c <= j);
    let w = PassView {
        eligible,
        merged,
        head: h,
        cand: c,
        members: seq![h as usize],
        clusters: Seq::empty(),
        done: false,
    };
    assert(v == settle(w));
    assert(settle(w) == w);
    assert(!v.done);
    if steps > 0 {
        let w1 = PassView {
            members: v.members.push(v.cand as usize),
            cand: next_free(v.eligible, v.merged, v.cand + 1),
            ..v
        };
        assert(answered(v, true) == settle(w1));
        lemma_settle_keeps_clusters(w1);
        lemma_answered_wf(v, true);
        lemma_answer_progress(v, true);
        let a = answered(v, true);
        lemma_run_close(a, (steps - 1) as nat);
        assert(run_answering(v, true, steps) == run_answering(a, true, (steps - 1) as nat));
        let (hh, cc) = (v.head, v.cand);
        assert(remaining_work(v) < (n + 1) * (n + 1)) by (nonlinear_arith)
            requires
                0 <= hh < cc < n,
                remaining_work(v) == (n - hh) * (n + 1) + (n - cc),
        ;
        if a.done {
            assert(run_answering(a, true, (steps - 1) as nat) == a);
        } else if steps >= (n + 1) * (n + 1) {
            assert(remaining_work(a) < remaining_work(v));
            assert((steps - 1) as nat > remaining_work(a));
        }
    } else {
        assert((n + 1) * (n + 1) >= 1) by (nonlinear_arith)
            requires
                n >= 0,
        ;
    }
}

/// The members of the open cluster once the candidate is answered.
pub open spec fn joined(v: PassView, close: bool) -> Seq<usize> {
    if close {
        v.members.push(v.cand as usize)
    } else {
        v.members
    }
}

/// Which tiles are merged once the open cluster, with the answered
/// candidate, closes.
pub open spec fn merged_on_close(v: PassView, close: bool) -> Seq<bool> {
    if joined(v, close).len() > 1 {
        mark_all(v.merged, joined(v, close))
    } else {
        v.merged
    }
}

/// How one answer moves a pass on. While a free tile is left after the
/// candidate, the first of them is offered next to the same open cluster.
/// Otherwise the open cluster closes (recorded, and its members merged, when
/// it has two or more), and the first free tile after the old head heads a
/// new cluster, with the first free tile after it as candidate: every free
/// tile heads a cluster in turn. The pass ends exactly when fewer than two
/// free tiles are left after the old head.
pub proof fn law_answer_moves_on(v: PassView, close: bool)
    requires
        pass_wf(v),
        !v.done,
    ensures
        answered(v, close).eligible == v.eligible,
        (exists|k: int| v.cand < k < v.eligible.len() && #[trigger] is_free(v.eligible, v.merged, k))
            ==> {
            let a = answered(v, close);
            &&& !a.done
            &&& a.head == v.head
            &&& a.members == joined(v, close)
            &&& a.clusters == v.clusters
            &&& a.merged == v.merged
            &&& v.cand < a.cand < v.eligible.len()
            &&& is_free(v.eligible, v.merged, a.cand)
            &&& forall|k: int| v.cand < k < a.cand ==> !#[trigger] is_free(v.eligible, v.merged, k)
        },
        (forall|k: int| v.cand < k < v.eligible.len() ==> !#[trigger] is_free(v.eligible, v.merged, k))
            ==> {
            let a = answered(v, close);
            let mm = merged_on_close(v, close);
            &&& a.clusters == (if joined(v, close).len() > 1 {
                v.clusters.push(joined(v, close))
            } else {
                v.clusters
            })
            &&& a.merged == mm
            &&& !a.done ==> {
                &&& v.head < a.head < a.cand < v.eligible.len()
                &&& a.members == seq![a.head as usize]
                &&& is_free(v.eligible, mm, a.head)
                &&& is_free(v.eligible, mm, a.cand)
                &&& forall|k: int|
                    v.head < k < a.cand && k != a.head ==> !#[trigger] is_free(v.eligible, mm, k)
            }
            &&& a.done <==> !(exists|k1: int, k2: int|
                #![trigger is_free(v.eligible, mm, k1), is_free(v.eligible, mm, k2)]
                v.head < k1 < k2 < v.eligible.len() && is_free(v.eligible, mm, k1) && is_free(
                    v.eligible,
                    mm,
                    k2,
                ))
        },
{
    let n = v.eligible.len() as int;
    let e = v.eligible;
    let m = joined(v, close);
    lemma_next_free_bounds(e, v.merged, v.cand + 1);
    let w = PassView { members: m, cand: next_free(e, v.merged, v.cand + 1), ..v };
    assert(answered(v, close) == settle(w));
    if w.cand < n {
        assert(settle(w) == w);
    } else {
        let c = close_cluster(w);
        lemma_next_free_bounds(e, c.merged, v.head + 1);
        let h = next_free(e, c.merged, v.head + 1);
        if h < n {
            lemma_next_free_bounds(e, c.merged, h + 1);
            let w2 = PassView {
                head: h,
                members: seq![h as usize],
                cand: next_free(e, c.merged, h + 1),
                ..c
            };
            assert(settle(w) == settle(w2));
            if w2.cand < n {
                assert(settle(w2) == w2);
            } else {
                assert(close_cluster(w2) == w2);
                assert(settle(w2) == PassView { done: true, members: Seq::empty(), ..w2 });
            }
        }
    }
}

/// A fresh pass offers the second free tile to the cluster headed by the
/// first one; it is done at once exactly when fewer than two tiles take part.
pub proof fn law_start_heads_first_tile(eligible: Seq<bool>)
    requires
        eligible.len() <= usize::MAX,
    ensures
        ({
            let s = start_view(eligible);
            let n = eligible.len() as int;
            &&& !s.done ==> {
                &&& 0 <= s.head < s.cand < n
                &&& eligible[s.head]
                &&& eligible[s.cand]
                &&& s.members == seq![s.head as usize]
                &&& forall|k: int| 0 <= k < s.cand && k != s.head ==> !#[trigger] eligible[k]
            }
            &&& s.done <==> !(exists|k1: int, k2: int|
                #![trigger eligible[k1], eligible[k2]]
                0 <= k1 < k2 < n && eligible[k1] && eligible[k2])
        }),
{
    let n = eligible.len() as int;
    let merged = Seq::new(eligible.len(), |k: int| false);
    lemma_next_free_bounds(eligible, merged, 0);
    let h = next_free(eligible, merged, 0);
    if eligible.len() >= 2 && h < n {
        lemma_next_free_bounds(eligible, merged, h + 1);
        let c = next_free(eligible, merged, h + 1);
        let w = PassView {
            eligible,
            merged,
            head: h,
            cand: c,
            members: seq![h as usize],
            clusters: Seq::empty(),
            done: false,
        };
        assert(start_view(eligible) == settle(w));
        if c < n {
            assert(settle(w) == w);
        } else {
            assert(close_cluster(w) == w);
            assert(settle(w) == PassView { done: true, members: Seq::empty(), ..w });
        }
        assert forall|k: int| 0 <= k < n implies is_free(eligible, merged, k) == eligible[k] by {}
    } else {
        assert forall|k: int| 0 <= k < n implies is_free(eligible, merged, k) == eligible[k] by {}
    }
}

/// A consolidation pass in progress.
pub struct ConsolidationPass {
    eligible: Vec<bool>,
    merged: Vec<bool>,
    head: usize,
    cand: usize,
    members: Vec<usize>,
    clusters: Vec<Vec<usize>>,
    done: bool,
}

/// The view of a list of clusters.
pub open spec fn clusters_view(cs: Seq<Vec<usize>>) -> Seq<Seq<usize>> {
    cs.map_values(|c: Vec<usize>| c@)
}

impl View for ConsolidationPass {
    type V = PassView;

    closed spec fn view(&self) -> PassView {
        PassView {
            eligible: self.eligible@,
            merged: self.merged@,
            head: self.head as int,
            cand: self.cand as int,
            members: self.members@,
            clusters: clusters_view(self.clusters@),
            done: self.done,
        }
    }
}

/// The first free tile at or after `from`, or the tile count.
fn next_free_exec(eligible: &Vec<bool>, merged: &Vec<bool>, from: usize) -> (r: usize)
    requires
        merged@.len() == eligible@.len(),
        from <= eligible@.len(),
    ensures
        r == next_free(eligible@, merged@, from as int),
{
    let mut k = from;
    while k < eligible.len()
        invariant
            from <= k <= eligible@.len(),
            merged@.len() == eligible@.len(),
            next_free(eligible@, merged@, k as int) == next_free(eligible@, merged@, from as int),
        decreases eligible@.len() - k,
    {
        if eligible[k] && !merged[k] {
            return k;
        }
        k = k + 1;
    }
    k
}

impl ConsolidationPass {
    #[verifier::type_invariant]
    spec fn well_formed(self) -> bool {
        pass_wf(self@)
    }

    /// Build the pass value from its fields, settling it.
    fn settle_from(
        eligible: Vec<bool>,
        merged0: Vec<bool>,
        head0: usize,
        cand0: usize,
        members0: Vec<usize>,
        clusters0: Vec<Vec<usize>>,
    ) -> (p: Self)
        requires
            open_wf(
                PassView {
                    eligible: eligible@,
                    merged: merged0@,
                    head: head0 as int,
                    cand: cand0 as int,
                    members: members0@,
                    clusters: clusters_view(clusters0@),
                    done: false,
                },
            ),
        ensures
            p@ == settle(
                PassView {
                    eligible: eligible@,
                    merged: merged0@,
                    head: head0 as int,
                    cand: cand0 as int,
                    members: members0@,
                    clusters: clusters_view(clusters0@),
                    done: false,
                },
            ),
    {
        let ghost v0 = PassView {
            eligible: eligible@,
            merged: merged0@,
            head: head0 as int,
            cand: cand0 as int,
            members: members0@,
            clusters: clusters_view(clusters0@),
            done: false,
        };
        let n = eligible.len();
        let mut merged = merged0;
        let mut head = head0;
        let mut cand = cand0;
        let mut members = members0;
        let mut clusters = clusters0;
        loop
            invariant
                n == eligible@.len(),
                open_wf(
                    PassView {
                        eligible: eligible@,
                        merged: merged@,
                        head: head as int,
                        cand: cand as int,
                        members: members@,
                        clusters: clusters_view(clusters@),
                        done: false,
                    },
                ),
                settle(
                    PassView {
                        eligible: eligible@,
                        merged: merged@,
                        head: head as int,
                        cand: cand as int,
                        members: members@,
                        clusters: clusters_view(clusters@),
                        done: false,
                    },
                ) == settle(v0),
                v0 == (PassView {
                    eligible: eligible@,
                    merged: merged0@,
                    head: head0 as int,
                    cand: cand0 as int,
                    members: members0@,
                    clusters: clusters_view(clusters0@),
                    done: false,
                }),
            decreases n - head,
        {
            let ghost cur = PassView {
                eligible: eligible@,
                merged: merged@,
                head: head as int,
                cand: cand as int,
                members: members@,
                clusters: clusters_view(clusters@),
                done: false,
            };
            if cand < n {
                let p = ConsolidationPass {
                    eligible,
                    merged,
                    head,
                    cand,
                    members,
                    clusters,
                    done: false,
                };
                proof {
                    assert(p@ == cur);
                    assert(settle(cur) == cur);
                    assert(settle(cur) == settle(v0));
                }
                return p;
            }
            proof {
                lemma_close_wf(cur);
            }
            if members.len() > 1 {
                let mut j: usize = 0;
                while j < members.len()
                    invariant
                        0 <= j <= members@.len(),
                        members@ == cur.members,
                        merged@ == mark_all(cur.merged, members@.take(j as int)),
                        forall|i: int| 0 <= i < members@.len() ==> #[trigger] members@[i] < n,
                        cur.merged.len() == n,
                    decreases members@.len() - j,
                {
                    let m = members[j];
                    merged.set(m, true);
                    proof {
                        assert forall|k: int| 0 <= k < n implies merged@[k] == (cur.merged[k]
                            || #[trigger] members@.take(j + 1).contains(k as usize)) by {
                            if members@.take(j + 1).contains(k as usize) {
                                let i = choose|i: int|
                                    0 <= i < j + 1 && #[trigger] members@.take(j + 1)[i] == k as usize;
                                if i < j {
                                    assert(members@.take(j as int)[i] == k as usize);
                                }
                            }
                            if members@.take(j as int).contains(k as usize) {
                                let i = choose|i: int|
                                    0 <= i < j && #[trigger] members@.take(j as int)[i] == k as usize;
                                assert(members@.take(j + 1)[i] == k as usize);
                            }
                            if k == m as int {
                                assert(members@.take(j + 1)[j as int] == m);
                            }
                        }
                        assert(merged@ == mark_all(cur.merged, members@.take(j + 1)));
                    }
                    j = j + 1;
                }
                proof {
                    assert(members@.take(j as int) == members@);
                }
                clusters.push(members);
                proof {
                    assert(clusters_view(clusters@) == cur.clusters.push(cur.members));
                }
            }
            proof {
                assert(merged@ == close_cluster(cur).merged);
                assert(clusters_view(clusters@) == close_cluster(cur).clusters);
                lemma_next_free_bounds(eligible@, merged@, head + 1);
            }
            let h = next_free_exec(&eligible, &merged, head + 1);
            if h >= n {
                let p = ConsolidationPass {
                    eligible,
                    merged,
                    head,
                    cand,
                    members: Vec::new(),
                    clusters,
                    done: true,
                };
                proof {
                    assert(p@ == settle(cur));
                    assert(settle(cur) == settle(v0));
                }
                return p;
            }
            proof {
                lemma_next_free_bounds(eligible@, merged@, h + 1);
            }
            let c = next_free_exec(&eligible, &merged, h + 1);
            let ghost c_view = close_cluster(cur);
            head = h;
            cand = c;
            members = vec![h];
            proof {
                assert(members@ =~= seq![h as usize]);
                let w = PassView {
                    eligible: eligible@,
                    merged: merged@,
                    head: head as int,
                    cand: cand as int,
                    members: members@,
                    clusters: clusters_view(clusters@),
                    done: false,
                };
                assert(w == PassView {
                    head: h as int,
                    members: seq![h as usize],
                    cand: next_free(c_view.eligible, c_view.merged, h + 1),
                    ..c_view
                });
                assert(settle(cur) == settle(w));
                assert(w.members[0] == h);
            }
        }
    }

    /// The pass over tiles of which `eligible` take part.
    pub fn start(eligible: Vec<bool>) -> (p: Self)
        ensures
            p@ == start_view(eligible@),
    {
        let n = eligible.len();
        let mut merged: Vec<bool> = Vec::new();
        let mut k: usize = 0;
        while k < n
            invariant
                0 <= k <= n,
                n == eligible@.len(),
                merged@ == Seq::new(k as nat, |i: int| false),
            decreases n - k,
        {
            merged.push(false);
            k = k + 1;
        }
        proof {
            lemma_start_wf(eligible@);
            lemma_next_free_bounds(eligible@, merged@, 0);
            assert(merged@ == Seq::new(eligible@.len(), |i: int| false));
        }
        let h = next_free_exec(&eligible, &merged, 0);
        if n < 2 || h >= n {
            let p = ConsolidationPass {
                eligible,
                merged,
                head: 0,
                cand: 0,
                members: Vec::new(),
                clusters: Vec::new(),
                done: true,
            };
            proof {
                assert(clusters_view(Seq::<Vec<usize>>::empty()) == Seq::<Seq<usize>>::empty());
                assert(p@ == start_view(eligible@));
            }
            return p;
        }
        proof {
            lemma_next_free_bounds(eligible@, merged@, h + 1);
        }
        let c = next_free_exec(&eligible, &merged, h + 1);
        let members = vec![h];
        let clusters: Vec<Vec<usize>> = Vec::new();
        proof {
            assert(clusters_view(clusters@) =~= Seq::<Seq<usize>>::empty());
            assert(members@ =~= seq![h as usize]);
            assert(merged@ =~= Seq::new(eligible@.len(), |i: int| false));
        }
        Self::settle_from(eligible, merged, h, c, members, clusters)
    }

    /// Answer the pending question: whether the candidate tile lies within
    /// the merge distance of the open cluster's centroid.
    pub fn answer(self, close: bool) -> (p: Self)
        requires
            !self@.done,
        ensures
            p@ == answered(self@, close),
    {
        proof {
            use_type_invariant(&self);
            lemma_answered_wf(self@, close);
            lemma_next_free_bounds(self@.eligible, self@.merged, self@.cand + 1);
        }
        let ghost v = self@;
        let ConsolidationPass { eligible, merged, head, cand, members, clusters, done } = self;
        let mut members = members;
        if close {
            members.push(cand);
        }
        let next = next_free_exec(&eligible, &merged, cand + 1);
        proof {
            let w = PassView {
                members: if close {
                    v.members.push(v.cand as usize)
                } else {
                    v.members
                },
                cand: next_free(v.eligible, v.merged, v.cand + 1),
                ..v
            };
            assert(w.members =~= members@);
            assert forall|i: int, j: int|
                0 <= i < j < w.members.len() implies #[trigger] w.members[i]
                < #[trigger] w.members[j] by {
                if j < v.members.len() {
                    assert(v.members[i] < v.members[j]);
                } else {
                    assert(v.members[i] < v.cand);
                }
            }
            assert forall|i: int| 0 <= i < w.members.len() implies v.head <= #[trigger] w.members[i]
                < w.cand && is_free(v.eligible, v.merged, w.members[i] as int) by {
                if i < v.members.len() {
                    assert(v.members[i] < v.cand);
                }
            }
            assert(open_wf(w));
        }
        Self::settle_from(eligible, merged, head, next, members, clusters)
    }

    /// Whether the pass has run out of tiles.
    pub fn is_done(&self) -> (b: bool)
        ensures
            b == self@.done,
    {
        self.done
    }

    /// The tile being offered to the open cluster, while the pass runs.
    pub fn candidate(&self) -> (c: Option<usize>)
        ensures
            c == (if self@.done {
                None
            } else {
                Some(self@.cand as usize)
            }),
            c matches Some(k) ==> k < self@.eligible.len(),
    {
        proof {
            use_type_invariant(self);
        }
        if self.done {
            None
        } else {
            Some(self.cand)
        }
    }

    /// The members of the open cluster, in joining order.
    pub fn members(&self) -> (m: &Vec<usize>)
        ensures
            m@ == self@.members,
            !self@.done ==> forall|i: int| 0 <= i < m@.len() ==> #[trigger] m@[i] < self@.eligible.len(),
    {
        proof {
            use_type_invariant(self);
        }
        &self.members
    }

    /// The closed clusters, in closing order.
    pub fn clusters(&self) -> (cs: &Vec<Vec<usize>>)
        ensures
            clusters_view(cs@) == self@.clusters,
            clusters_wf(self@.clusters, self@.eligible, self@.merged),
            self@.merged.len() == self@.eligible.len(),
            pass_wf(self@),
    {
        proof {
            use_type_invariant(self);
        }
        &self.clusters
    }

    /// Which tiles belong to a closed cluster.
    pub fn merged(&self) -> (m: &Vec<bool>)
        ensures
            m@ == self@.merged,
            clusters_wf(self@.clusters, self@.eligible, self@.merged),
            self@.merged.len() == self@.eligible.len(),
    {
        proof {
            use_type_invariant(self);
        }
        &self.merged
    }

    /// Which tiles take part in the pass.
    pub fn eligible(&self) -> (e: &Vec<bool>)
        ensures
            e@ == self@.eligible,
    {
        &self.eligible
    }

    /// Number of tiles the pass walks over.
    pub fn tile_count(&self) -> (n: usize)
        ensures
            n == self@.eligible.len(),
    {
        self.eligible.len()
    }
}

} // verus!
