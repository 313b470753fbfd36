//! The memory palace: tiles on the Penrose floor and their bookkeeping.
//!
//! A tile remembers a 64-bit content at a point of the floor. The point is
//! kept as the IEEE-754 bit patterns of its two coordinates; this library
//! never reads them as numbers, it only carries them so that the floor
//! geometry (projection, distances, headings) can find the tile again.

use vstd::prelude::*;
use crate::golden::{
    tile_bit, three_color, matching_rule, axis_rule, spec_tile_bit, spec_three_color,
    spec_matching_rule, spec_axis_rule, interior_cell,
};
use crate::lifecycle::TileLifecycle;
use crate::consolidation::{
    ConsolidationPass, PassView, start_view, clusters_view, pass_wf, count_true,
    total_size, lemma_total_size_bound, run_answering, law_pass_not_close_throughout,
    law_pass_close_throughout,
};

verus! {

/// A tile stored in the memory.
#[derive(Debug, Clone, Copy, PartialEq, Eq, Structural)]
pub struct Tile {
    /// Identifier, unique within the memory.
    pub tile_id: u64,
    /// The remembered content.
    pub content: u64,
    /// Bit pattern of the `f64` x coordinate on the floor.
    pub x_bits: u64,
    /// Bit pattern of the `f64` y coordinate on the floor.
    pub y_bits: u64,
    /// 3-colouring of the tile's lattice cell (0, 1 or 2), used for sharding.
    pub color: u8,
    /// Golden hierarchy level: 0 for stored memories, 1 for consolidated ones.
    pub level: u32,
    /// Lifecycle state.
    pub lifecycle: TileLifecycle,
    /// Lamport timestamp of the tile.
    pub lamport: u64,
}

/// What a memory holds: its embedding dimension, its tiles in storage order
/// and the identifier the next new tile will get.
pub ghost struct MemoryView {
    pub embedding_dim: nat,
    pub tiles: Seq<Tile>,
    pub next_id: nat,
}

/// Identifiers strictly increase along the storage order, are positive and
/// stay below the next identifier to be handed out.
pub open spec fn ids_well_ordered(tiles: Seq<Tile>, next_id: nat) -> bool {
    &&& forall|i: int, j: int|
        0 <= i < j < tiles.len() ==> #[trigger] tiles[i].tile_id < #[trigger] tiles[j].tile_id
    &&& forall|i: int| 0 <= i < tiles.len() ==> 1 <= #[trigger] tiles[i].tile_id < next_id
    &&& next_id >= 1
}

/// Whether some tile carries the identifier.
pub open spec fn holds_id(tiles: Seq<Tile>, id: u64) -> bool {
    exists|k: int| 0 <= k < tiles.len() && #[trigger] tiles[k].tile_id == id
}

/// The position of the tile with the identifier (meaningful when `holds_id`).
pub open spec fn index_of(tiles: Seq<Tile>, id: u64) -> int {
    choose|k: int| 0 <= k < tiles.len() && #[trigger] tiles[k].tile_id == id
}

/// The tile with a new lifecycle state.
pub open spec fn with_lifecycle(t: Tile, state: TileLifecycle) -> Tile {
    Tile { lifecycle: state, ..t }
}

/// Identifiers of the active tiles, in storage order.
pub open spec fn active_ids(tiles: Seq<Tile>) -> Seq<u64>
    decreases tiles.len(),
{
    if tiles.len() == 0 {
        Seq::empty()
    } else {
        let rest = active_ids(tiles.drop_last());
        if tiles.last().lifecycle == TileLifecycle::Active {
            rest.push(tiles.last().tile_id)
        } else {
            rest
        }
    }
}

/// The active tiles, in storage order.
pub open spec fn active_tiles(tiles: Seq<Tile>) -> Seq<Tile>
    decreases tiles.len(),
{
    if tiles.len() == 0 {
        Seq::empty()
    } else {
        let rest = active_tiles(tiles.drop_last());
        if tiles.last().lifecycle == TileLifecycle::Active {
            rest.push(tiles.last())
        } else {
            rest
        }
    }
}

/// Number of tiles in the given lifecycle state.
pub open spec fn count_in_state(tiles: Seq<Tile>, state: TileLifecycle) -> nat
    decreases tiles.len(),
{
    if tiles.len() == 0 {
        0
    } else {
        count_in_state(tiles.drop_last(), state) + (if tiles.last().lifecycle == state {
            1nat
        } else {
            0nat
        })
    }
}

/// The point and lattice cell of a consolidated tile: the running centroid
/// of its cluster.
#[derive(Debug, Clone, Copy, PartialEq, Eq, Structural)]
pub struct Centroid {
    /// Bit pattern of the `f64` x coordinate of the centroid.
    pub x_bits: u64,
    /// Bit pattern of the `f64` y coordinate of the centroid.
    pub y_bits: u64,
    /// Lattice cell of the centroid, x axis.
    pub qx: i64,
    /// Lattice cell of the centroid, y axis.
    pub qy: i64,
}

/// Which tiles take part in consolidation: those at level 0.
pub open spec fn level_zero(tiles: Seq<Tile>) -> Seq<bool> {
    Seq::new(tiles.len(), |k: int| tiles[k].level == 0)
}

/// The XOR of the contents of the cluster's members, in joining order.
pub open spec fn xor_contents(tiles: Seq<Tile>, members: Seq<usize>) -> u64
    decreases members.len(),
{
    if members.len() == 0 {
        0
    } else {
        xor_contents(tiles, members.drop_last()) ^ tiles[members.last() as int].content
    }
}

/// The tiles among the first `k` that were not merged, in storage order.
pub open spec fn kept_prefix(tiles: Seq<Tile>, merged: Seq<bool>, k: int) -> Seq<Tile>
    decreases k,
{
    if k <= 0 {
        Seq::empty()
    } else {
        let rest = kept_prefix(tiles, merged, k - 1);
        if merged[k - 1] {
            rest
        } else {
            rest.push(tiles[k - 1])
        }
    }
}

/// The tiles that were not merged, in storage order.
pub open spec fn kept_tiles(tiles: Seq<Tile>, merged: Seq<bool>) -> Seq<Tile> {
    kept_prefix(tiles, merged, tiles.len() as int)
}

/// The level-1 tile that replaces a cluster.
pub open spec fn merged_tile(tiles: Seq<Tile>, members: Seq<usize>, at: Centroid, id: u64) -> Tile {
    Tile {
        tile_id: id,
        content: xor_contents(tiles, members),
        x_bits: at.x_bits,
        y_bits: at.y_bits,
        color: spec_three_color(at.qx, at.qy),
        level: 1,
        lifecycle: TileLifecycle::Active,
        lamport: 0,
    }
}

/// The level-1 tiles that replace the clusters, numbered from `next_id` on.
pub open spec fn merged_tiles(
    tiles: Seq<Tile>,
    clusters: Seq<Seq<usize>>,
    centroids: Seq<Centroid>,
    next_id: nat,
) -> Seq<Tile> {
    Seq::new(
        clusters.len(),
        |c: int| merged_tile(tiles, clusters[c], centroids[c], (next_id + c) as u64),
    )
}

/// Every tile is active, superseded or retracted: the three counts add up
/// to the number of tiles.
pub proof fn law_lifecycle_counts_cover_all(tiles: Seq<Tile>)
    ensures
        count_in_state(tiles, TileLifecycle::Active) + count_in_state(
            tiles,
            TileLifecycle::Superseded,
        ) + count_in_state(tiles, TileLifecycle::Retracted) == tiles.len(),
    decreases tiles.len(),
{
    if tiles.len() > 0 {
        law_lifecycle_counts_cover_all(tiles.drop_last());
    }
}

/// The active identifiers are those of the active tiles, and there are as
/// many of them as active tiles.
pub proof fn law_active_ids_match_active_tiles(tiles: Seq<Tile>)
    ensures
        active_ids(tiles) == active_tiles(tiles).map_values(|t: Tile| t.tile_id),
        active_ids(tiles).len() == count_in_state(tiles, TileLifecycle::Active),
    decreases tiles.len(),
{
    if tiles.len() > 0 {
        law_active_ids_match_active_tiles(tiles.drop_last());
        assert(active_ids(tiles) =~= active_tiles(tiles).map_values(|t: Tile| t.tile_id));
    }
}

/// The active tiles are exactly the stored tiles whose lifecycle is Active,
/// unchanged and in storage order, and the active identifiers are theirs.
pub proof fn law_active_tiles_are_stored_active_tiles(tiles: Seq<Tile>)
    ensures
        active_tiles(tiles) == tiles.filter(|t: Tile| t.lifecycle == TileLifecycle::Active),
        active_ids(tiles) == tiles.filter(|t: Tile| t.lifecycle == TileLifecycle::Active).map_values(
            |t: Tile| t.tile_id,
        ),
    decreases tiles.len(),
{
    reveal(Seq::filter);
    if tiles.len() > 0 {
        law_active_tiles_are_stored_active_tiles(tiles.drop_last());
    }
    law_active_ids_match_active_tiles(tiles);
}

/// The count for a lifecycle state is the number of tiles in that state,
/// whatever their other fields.
pub proof fn law_count_is_tiles_in_state(tiles: Seq<Tile>, state: TileLifecycle)
    ensures
        count_in_state(tiles, state) == tiles.filter(|t: Tile| t.lifecycle == state).len(),
    decreases tiles.len(),
{
    reveal(Seq::filter);
    if tiles.len() > 0 {
        law_count_is_tiles_in_state(tiles.drop_last(), state);
    }
}

/// Moving one tile to another lifecycle state moves exactly one from the
/// count of its old state to the count of its new one; every other count
/// stays as it was.
pub proof fn law_lifecycle_change_moves_one_count(
    tiles: Seq<Tile>,
    k: int,
    state: TileLifecycle,
    counted: TileLifecycle,
)
    requires
        0 <= k < tiles.len(),
    ensures
        count_in_state(tiles.update(k, with_lifecycle(tiles[k], state)), counted) + (if tiles[k].lifecycle
            == counted {
            1int
        } else {
            0int
        }) == count_in_state(tiles, counted) + (if state == counted {
            1int
        } else {
            0int
        }),
    decreases tiles.len(),
{
    let t2 = tiles.update(k, with_lifecycle(tiles[k], state));
    if k == tiles.len() - 1 {
        assert(t2.drop_last() == tiles.drop_last());
    } else {
        assert(t2.drop_last() == tiles.drop_last().update(k, with_lifecycle(tiles[k], state)));
        law_lifecycle_change_moves_one_count(tiles.drop_last(), k, state, counted);
    }
}

/// Every active identifier names an active tile.
pub proof fn lemma_active_id_source(tiles: Seq<Tile>, id: u64)
    requires
        active_ids(tiles).contains(id),
    ensures
        exists|k: int|
            0 <= k < tiles.len() && #[trigger] tiles[k].tile_id == id && tiles[k].lifecycle
                == TileLifecycle::Active,
    decreases tiles.len(),
{
    let rest = tiles.drop_last();
    if tiles.last().lifecycle == TileLifecycle::Active && tiles.last().tile_id == id {
        assert(tiles[tiles.len() - 1].tile_id == id);
    } else {
        if tiles.last().lifecycle == TileLifecycle::Active {
            let i = choose|i: int| 0 <= i < active_ids(tiles).len() && active_ids(tiles)[i] == id;
            assert(active_ids(rest)[i] == id);
        }
        lemma_active_id_source(rest, id);
        let k = choose|k: int|
            0 <= k < rest.len() && #[trigger] rest[k].tile_id == id && rest[k].lifecycle
                == TileLifecycle::Active;
        assert(tiles[k] == rest[k]);
    }
}

/// A tile taken out of the active state (superseded or retracted) no longer
/// shows among the active identifiers, which recall and prediction draw on.
pub proof fn law_deactivated_tile_leaves_recall(tiles: Seq<Tile>, next_id: nat, id: u64, state: TileLifecycle)
    requires
        ids_well_ordered(tiles, next_id),
        holds_id(tiles, id),
        state != TileLifecycle::Active,
    ensures
        !active_ids(
            tiles.update(index_of(tiles, id), with_lifecycle(tiles[index_of(tiles, id)], state)),
        ).contains(id),
{
    let k = index_of(tiles, id);
    let t2 = tiles.update(k, with_lifecycle(tiles[k], state));
    if active_ids(t2).contains(id) {
        lemma_active_id_source(t2, id);
        let j = choose|j: int|
            0 <= j < t2.len() && #[trigger] t2[j].tile_id == id && t2[j].lifecycle
                == TileLifecycle::Active;
        if j < k {
            assert(tiles[j].tile_id < tiles[k].tile_id);
        } else if k < j {
            assert(tiles[k].tile_id < tiles[j].tile_id);
        }
    }
}

/// Reading back a write: after a tile is stored under the next identifier,
/// looking that identifier up finds exactly the stored tile, at the end.
pub proof fn law_store_then_lookup(tiles: Seq<Tile>, next_id: nat, t: Tile)
    requires
        ids_well_ordered(tiles, next_id),
        t.tile_id == next_id,
    ensures
        holds_id(tiles.push(t), t.tile_id),
        index_of(tiles.push(t), t.tile_id) == tiles.len(),
        tiles.push(t)[index_of(tiles.push(t), t.tile_id)] == t,
{
    let s = tiles.push(t);
    assert(s[tiles.len() as int].tile_id == t.tile_id);
    let k = index_of(s, t.tile_id);
    if k < tiles.len() {
        assert(s[k] == tiles[k]);
        assert(tiles[k].tile_id < next_id);
    }
}

/// A stored tile is active: its identifier joins the active identifiers,
/// at the end.
pub proof fn law_stored_tile_is_active(tiles: Seq<Tile>, t: Tile)
    requires
        t.lifecycle == TileLifecycle::Active,
    ensures
        active_ids(tiles.push(t)) == active_ids(tiles).push(t.tile_id),
        count_in_state(tiles.push(t), TileLifecycle::Active) == count_in_state(
            tiles,
            TileLifecycle::Active,
        ) + 1,
{
    assert(tiles.push(t).drop_last() == tiles);
}

/// The tiles kept among the first `k`, by position.
proof fn lemma_kept_prefix_positions(tiles: Seq<Tile>, merged: Seq<bool>, k: int)
    requires
        0 <= k <= tiles.len(),
        merged.len() == tiles.len(),
    ensures
        kept_prefix(tiles, merged, k) == Seq::new(k as nat, |p: int| p).filter(
            |p: int| !merged[p],
        ).map_values(|p: int| tiles[p]),
    decreases k,
{
    reveal(Seq::filter);
    if k > 0 {
        lemma_kept_prefix_positions(tiles, merged, k - 1);
        let ps = Seq::new(k as nat, |p: int| p);
        assert(ps.drop_last() =~= Seq::new((k - 1) as nat, |p: int| p));
        let f = ps.drop_last().filter(|p: int| !merged[p]);
        if !merged[k - 1] {
            assert(f.push(k - 1).map_values(|p: int| tiles[p]) =~= f.map_values(|p: int| tiles[p]).push(
                tiles[k - 1],
            ));
        }
    }
}

/// Consolidation keeps exactly the tiles that were not merged, unchanged and
/// in storage order.
pub proof fn law_kept_tiles_are_unmerged_tiles(tiles: Seq<Tile>, merged: Seq<bool>)
    requires
        merged.len() == tiles.len(),
    ensures
        kept_tiles(tiles, merged) == Seq::new(tiles.len(), |p: int| p).filter(
            |p: int| !merged[p],
        ).map_values(|p: int| tiles[p]),
{
    lemma_kept_prefix_positions(tiles, merged, tiles.len() as int);
}

/// The tiles kept among the first `k` are those not merged.
pub proof fn lemma_kept_len(tiles: Seq<Tile>, merged: Seq<bool>, k: int)
    requires
        0 <= k <= tiles.len(),
        merged.len() == tiles.len(),
    ensures
        kept_prefix(tiles, merged, k).len() == k - count_true(merged.take(k)),
    decreases k,
{
    if k > 0 {
        lemma_kept_len(tiles, merged, k - 1);
        assert(merged.take(k).drop_last() == merged.take(k - 1));
    }
}

/// Consolidation replaces each cluster of two or more tiles by a single
/// tile: the memory shrinks by the clusters' sizes less one tile each, so it
/// loses at least one tile per cluster and never grows.
pub proof fn law_consolidation_shrinks(
    tiles: Seq<Tile>,
    pass: PassView,
    centroids: Seq<Centroid>,
    next_id: nat,
)
    requires
        pass_wf(pass),
        pass.eligible.len() == tiles.len(),
        centroids.len() == pass.clusters.len(),
    ensures
        ({
            let after = kept_tiles(tiles, pass.merged) + merged_tiles(
                tiles,
                pass.clusters,
                centroids,
                next_id,
            );
            &&& after.len() == tiles.len() - total_size(pass.clusters) + pass.clusters.len()
            &&& after.len() + pass.clusters.len() <= tiles.len()
            &&& pass.clusters.len() > 0 ==> after.len() < tiles.len()
        }),
{
    lemma_kept_len(tiles, pass.merged, tiles.len() as int);
    assert(pass.merged.take(tiles.len() as int) == pass.merged);
    lemma_total_size_bound(pass.clusters);
}

/// Nothing counted means nothing set.
proof fn lemma_count_true_zero(s: Seq<bool>)
    requires
        count_true(s) == 0,
    ensures
        forall|k: int| 0 <= k < s.len() ==> !#[trigger] s[k],
    decreases s.len(),
{
    if s.len() > 0 {
        lemma_count_true_zero(s.drop_last());
        assert forall|k: int| 0 <= k < s.len() implies !#[trigger] s[k] by {
            if k < s.len() - 1 {
                assert(s[k] == s.drop_last()[k]);
            }
        }
    }
}

/// With nothing merged, the first `k` tiles are all kept.
proof fn lemma_kept_all(tiles: Seq<Tile>, merged: Seq<bool>, k: int)
    requires
        0 <= k <= tiles.len(),
        merged.len() == tiles.len(),
        forall|j: int| 0 <= j < merged.len() ==> !#[trigger] merged[j],
    ensures
        kept_prefix(tiles, merged, k) == tiles.take(k),
    decreases k,
{
    if k > 0 {
        lemma_kept_all(tiles, merged, k - 1);
        assert(!merged[k - 1]);
        assert(tiles.take(k) == tiles.take(k - 1).push(tiles[k - 1]));
    }
}

/// A finished pass that closed no cluster changes nothing: every tile is
/// kept, in order, and no tile is added (nor, by `finish_consolidation`, is
/// an identifier used up).
pub proof fn law_finish_without_clusters_changes_nothing(
    tiles: Seq<Tile>,
    pass: PassView,
    centroids: Seq<Centroid>,
    next_id: nat,
)
    requires
        pass_wf(pass),
        pass.eligible.len() == tiles.len(),
        pass.clusters.len() == 0,
    ensures
        kept_tiles(tiles, pass.merged) + merged_tiles(tiles, pass.clusters, centroids, next_id)
            == tiles,
{
    lemma_count_true_zero(pass.merged);
    lemma_kept_all(tiles, pass.merged, tiles.len() as int);
    assert(tiles.take(tiles.len() as int) == tiles);
    assert(merged_tiles(tiles, pass.clusters, centroids, next_id) =~= Seq::<Tile>::empty());
    assert(tiles + Seq::<Tile>::empty() == tiles);
}

/// A consolidation in which no candidate is ever close to a cluster changes
/// nothing: the pass over the level-0 tiles, answered "not close" throughout,
/// ends within `(n + 1)²` answers with no cluster, and finishing it keeps every
/// tile in order and adds none (`finish_consolidation` then also keeps the
/// next identifier and reports no tile removed).
pub proof fn law_consolidation_without_close_tiles_changes_nothing(
    tiles: Seq<Tile>,
    centroids: Seq<Centroid>,
    next_id: nat,
)
    requires
        tiles.len() <= usize::MAX,
    ensures
        ({
            let n = tiles.len();
            let pass = run_answering(start_view(level_zero(tiles)), false, (n + 1) * (n + 1));
            &&& pass.done
            &&& pass.clusters.len() == 0
            &&& kept_tiles(tiles, pass.merged) + merged_tiles(tiles, pass.clusters, centroids, next_id)
                == tiles
        }),
{
    let n = tiles.len();
    let e = level_zero(tiles);
    law_pass_not_close_throughout(e, (n + 1) * (n + 1));
    let pass = run_answering(start_view(e), false, (n + 1) * (n + 1));
    law_finish_without_clusters_changes_nothing(tiles, pass, centroids, next_id);
}

/// A consolidation in which every candidate is close to its cluster, over a
/// memory with at least two level-0 tiles, ends within `(n + 1)²` answers
/// and leaves fewer tiles than before.
pub proof fn law_consolidation_all_close_shrinks(
    tiles: Seq<Tile>,
    centroids: Seq<Centroid>,
    next_id: nat,
    i: int,
    j: int,
)
    requires
        tiles.len() <= usize::MAX,
        0 <= i < j < tiles.len(),
        tiles[i].level == 0,
        tiles[j].level == 0,
    ensures
        ({
            let n = tiles.len();
            let pass = run_answering(start_view(level_zero(tiles)), true, (n + 1) * (n + 1));
            &&& pass.done
            &&& pass.clusters.len() >= 1
            &&& (kept_tiles(tiles, pass.merged) + merged_tiles(
                tiles,
                pass.clusters,
                centroids,
                next_id,
            )).len() < tiles.len()
        }),
{
    let n = tiles.len();
    let e = level_zero(tiles);
    law_pass_close_throughout(e, (n + 1) * (n + 1), i, j);
    let pass = run_answering(start_view(e), true, (n + 1) * (n + 1));
    if centroids.len() == pass.clusters.len() {
        law_consolidation_shrinks(tiles, pass, centroids, next_id);
    } else {
        let cs = Seq::new(pass.clusters.len(), |k: int| centroids[k]);
        law_consolidation_shrinks(tiles, pass, cs, next_id);
        lemma_kept_len(tiles, pass.merged, tiles.len() as int);
        assert(pass.merged.take(tiles.len() as int) == pass.merged);
        lemma_total_size_bound(pass.clusters);
    }
}

/// Number of waypoint cells at which the path rule holds.
pub open spec fn count_verified(cells: Seq<(i64, i64)>) -> nat
    decreases cells.len(),
{
    if cells.len() == 0 {
        0
    } else {
        count_verified(cells.drop_last()) + (if spec_axis_rule(cells.last().0, cells.last().1) {
            1nat
        } else {
            0nat
        })
    }
}

/// Aperiodic memory palace navigated by dead reckoning.
///
/// Tiles are kept in storage order; each carries a fresh identifier.
pub struct PenroseMemory {
    embedding_dim: usize,
    tiles: Vec<Tile>,
    next_id: u64,
}

impl View for PenroseMemory {
    type V = MemoryView;

    closed spec fn view(&self) -> MemoryView {
        MemoryView {
            embedding_dim: self.embedding_dim as nat,
            tiles: self.tiles@,
            next_id: self.next_id as nat,
        }
    }
}

impl PenroseMemory {
    #[verifier::type_invariant]
    spec fn well_formed(self) -> bool {
        ids_well_ordered(self.tiles@, self.next_id as nat)
    }

    /// An empty memory for embeddings of the given dimension.
    pub fn new(embedding_dim: usize) -> (m: Self)
        ensures
            m@.embedding_dim == embedding_dim,
            m@.tiles == Seq::<Tile>::empty(),
            m@.next_id == 1,
            ids_well_ordered(m@.tiles, m@.next_id),
    {
        PenroseMemory { embedding_dim, tiles: Vec::new(), next_id: 1 }
    }

    /// The embedding dimension the memory projects.
    pub fn embedding_dim(&self) -> (d: usize)
        ensures
            d == self@.embedding_dim,
    {
        self.embedding_dim
    }

    /// The identifier the next new tile will get.
    pub fn next_tile_id(&self) -> (id: u64)
        ensures
            id == self@.next_id,
    {
        self.next_id
    }

    /// The tiles in storage order.
    pub fn tiles(&self) -> (t: &Vec<Tile>)
        ensures
            t@ == self@.tiles,
    {
        &self.tiles
    }

    /// Number of stored tiles.
    pub fn len(&self) -> (n: usize)
        ensures
            n == self@.tiles.len(),
    {
        self.tiles.len()
    }

    /// Whether the memory holds no tile.
    pub fn is_empty(&self) -> (b: bool)
        ensures
            b == (self@.tiles.len() == 0),
    {
        self.tiles.len() == 0
    }

    /// Store a content at a point of the floor whose lattice cell is
    /// `(qx, qy)`. The new tile is active, at level 0, coloured by its cell,
    /// and gets the next identifier, which is returned.
    pub fn store(&mut self, x_bits: u64, y_bits: u64, qx: i64, qy: i64, content: u64) -> (id: u64)
        requires
            old(self)@.next_id < u64::MAX,
        ensures
            id == old(self)@.next_id,
            !holds_id(old(self)@.tiles, id),
            final(self)@.tiles == old(self)@.tiles.push(
                Tile {
                    tile_id: id,
                    content,
                    x_bits,
                    y_bits,
                    color: spec_three_color(qx, qy),
                    level: 0,
                    lifecycle: TileLifecycle::Active,
                    lamport: 0,
                },
            ),
            final(self)@.next_id == old(self)@.next_id + 1,
            final(self)@.embedding_dim == old(self)@.embedding_dim,
            ids_well_ordered(final(self)@.tiles, final(self)@.next_id),
    {
        proof {
            use_type_invariant(&*self);
        }
        let color = three_color(qx, qy);
        let id = self.next_id;
        let tile = Tile {
            tile_id: id,
            content,
            x_bits,
            y_bits,
            color,
            level: 0,
            lifecycle: TileLifecycle::Active,
            lamport: 0,
        };
        let mut tiles: Vec<Tile> = Vec::new();
        std::mem::swap(&mut tiles, &mut self.tiles);
        tiles.push(tile);
        proof {
            let olds = old(self)@.tiles;
            assert forall|i: int, j: int|
                0 <= i < j < tiles@.len() implies #[trigger] tiles@[i].tile_id
                < #[trigger] tiles@[j].tile_id by {
                if j < olds.len() {
                    assert(olds[i].tile_id < olds[j].tile_id);
                } else {
                    assert(olds[i].tile_id < id);
                }
            }
            assert forall|i: int| 0 <= i < tiles@.len() implies 1 <= #[trigger] tiles@[i].tile_id
                < id + 1 by {
                if i < olds.len() {
                    assert(1 <= olds[i].tile_id < id);
                }
            }
            assert(!holds_id(olds, id)) by {
                if holds_id(olds, id) {
                    let k = index_of(olds, id);
                    assert(olds[k].tile_id < id);
                }
            }
        }
        self.next_id = id + 1;
        self.tiles = tiles;
        id
    }

    /// Position of the tile with the identifier, if any.
    fn find(&self, tile_id: u64) -> (r: Option<usize>)
        ensures
            r is Some <==> holds_id(self@.tiles, tile_id),
            r matches Some(k) ==> k == index_of(self@.tiles, tile_id) && k < self@.tiles.len(),
    {
        proof {
            use_type_invariant(self);
        }
        let mut i: usize = 0;
        while i < self.tiles.len()
            invariant
                0 <= i <= self.tiles@.len(),
                ids_well_ordered(self.tiles@, self.next_id as nat),
                forall|j: int| 0 <= j < i ==> #[trigger] self.tiles@[j].tile_id != tile_id,
            decreases self.tiles@.len() - i,
        {
            if self.tiles[i].tile_id == tile_id {
                proof {
                    assert(self.tiles@[i as int].tile_id == tile_id);
                    assert(holds_id(self.tiles@, tile_id));
                    let k = index_of(self.tiles@, tile_id);
                    if k != i as int {
                        if k < i as int {
                            assert(self.tiles@[k].tile_id < self.tiles@[i as int].tile_id);
                        } else {
                            assert(self.tiles@[i as int].tile_id < self.tiles@[k].tile_id);
                        }
                    }
                }
                return Some(i);
            }
            i = i + 1;
        }
        None
    }

    /// The tile with the identifier, if any.
    pub fn tile(&self, tile_id: u64) -> (r: Option<Tile>)
        ensures
            r is Some <==> holds_id(self@.tiles, tile_id),
            r matches Some(t) ==> t == self@.tiles[index_of(self@.tiles, tile_id)],
    {
        match self.find(tile_id) {
            Some(k) => Some(self.tiles[k]),
            None => None,
        }
    }

    /// Replace the lifecycle of the tile at position `k`.
    fn set_lifecycle(&mut self, k: usize, state: TileLifecycle)
        requires
            k < old(self)@.tiles.len(),
        ensures
            final(self)@.tiles == old(self)@.tiles.update(
                k as int,
                with_lifecycle(old(self)@.tiles[k as int], state),
            ),
            final(self)@.next_id == old(self)@.next_id,
            final(self)@.embedding_dim == old(self)@.embedding_dim,
            ids_well_ordered(final(self)@.tiles, final(self)@.next_id),
    {
        proof {
            use_type_invariant(&*self);
        }
        let mut tiles: Vec<Tile> = Vec::new();
        std::mem::swap(&mut tiles, &mut self.tiles);
        let t = tiles[k];
        tiles.set(k, Tile { lifecycle: state, ..t });
        proof {
            assert forall|i: int, j: int|
                0 <= i < j < tiles@.len() implies #[trigger] tiles@[i].tile_id
                < #[trigger] tiles@[j].tile_id by {
                assert(old(self)@.tiles[i].tile_id < old(self)@.tiles[j].tile_id);
            }
            assert forall|i: int| 0 <= i < tiles@.len() implies 1 <= #[trigger] tiles@[i].tile_id
                < self.next_id by {
                assert(1 <= old(self)@.tiles[i].tile_id < self.next_id);
            }
        }
        self.tiles = tiles;
    }

    /// Supersede an active tile: it becomes `Superseded` and its content is
    /// returned. A missing or non-active tile is left alone and `None` comes back.
    pub fn supersede_tile(&mut self, tile_id: u64) -> (r: Option<u64>)
        ensures
            ({
                let tiles = old(self)@.tiles;
                let k = index_of(tiles, tile_id);
                if holds_id(tiles, tile_id) && tiles[k].lifecycle == TileLifecycle::Active {
                    &&& r == Some(tiles[k].content)
                    &&& final(self)@.tiles == tiles.update(
                        k,
                        with_lifecycle(tiles[k], TileLifecycle::Superseded),
                    )
                } else {
                    &&& r is None
                    &&& final(self)@.tiles == tiles
                }
            }),
            final(self)@.next_id == old(self)@.next_id,
            final(self)@.embedding_dim == old(self)@.embedding_dim,
            ids_well_ordered(final(self)@.tiles, final(self)@.next_id),
    {
        proof {
            use_type_invariant(&*self);
        }
        match self.find(tile_id) {
            None => None,
            Some(k) => {
                if self.tiles[k].lifecycle != TileLifecycle::Active {
                    None
                } else {
                    let content = self.tiles[k].content;
                    self.set_lifecycle(k, TileLifecycle::Superseded);
                    Some(content)
                }
            },
        }
    }

    /// Retract an active tile: it becomes `Retracted` and `true` is returned.
    /// A missing or non-active tile is left alone and `false` comes back.
    pub fn retract_tile(&mut self, tile_id: u64) -> (r: bool)
        ensures
            ({
                let tiles = old(self)@.tiles;
                let k = index_of(tiles, tile_id);
                if holds_id(tiles, tile_id) && tiles[k].lifecycle == TileLifecycle::Active {
                    &&& r
                    &&& final(self)@.tiles == tiles.update(
                        k,
                        with_lifecycle(tiles[k], TileLifecycle::Retracted),
                    )
                } else {
                    &&& !r
                    &&& final(self)@.tiles == tiles
                }
            }),
            final(self)@.next_id == old(self)@.next_id,
            final(self)@.embedding_dim == old(self)@.embedding_dim,
            ids_well_ordered(final(self)@.tiles, final(self)@.next_id),
    {
        proof {
            use_type_invariant(&*self);
        }
        match self.find(tile_id) {
            None => false,
            Some(k) => {
                if self.tiles[k].lifecycle != TileLifecycle::Active {
                    false
                } else {
                    self.set_lifecycle(k, TileLifecycle::Retracted);
                    true
                }
            },
        }
    }

    /// Identifiers of the active tiles, in storage order.
    pub fn active_tile_ids(&self) -> (ids: Vec<u64>)
        ensures
            ids@ == active_ids(self@.tiles),
    {
        let mut ids: Vec<u64> = Vec::new();
        let mut i: usize = 0;
        while i < self.tiles.len()
            invariant
                0 <= i <= self.tiles@.len(),
                ids@ == active_ids(self.tiles@.take(i as int)),
            decreases self.tiles@.len() - i,
        {
            proof {
                assert(self.tiles@.take(i + 1).drop_last() == self.tiles@.take(i as int));
            }
            if self.tiles[i].lifecycle == TileLifecycle::Active {
                ids.push(self.tiles[i].tile_id);
            }
            i = i + 1;
        }
        proof {
            assert(self.tiles@.take(i as int) == self.tiles@);
        }
        ids
    }

    /// The active tiles, in storage order: the candidates of a recall.
    pub fn active_tiles(&self) -> (ts: Vec<Tile>)
        ensures
            ts@ == active_tiles(self@.tiles),
    {
        let mut ts: Vec<Tile> = Vec::new();
        let mut i: usize = 0;
        while i < self.tiles.len()
            invariant
                0 <= i <= self.tiles@.len(),
                ts@ == active_tiles(self.tiles@.take(i as int)),
            decreases self.tiles@.len() - i,
        {
            proof {
                assert(self.tiles@.take(i + 1).drop_last() == self.tiles@.take(i as int));
            }
            if self.tiles[i].lifecycle == TileLifecycle::Active {
                ts.push(self.tiles[i]);
            }
            i = i + 1;
        }
        proof {
            assert(self.tiles@.take(i as int) == self.tiles@);
        }
        ts
    }

    /// Number of tiles that are active, superseded and retracted.
    pub fn lifecycle_stats(&self) -> (r: (usize, usize, usize))
        ensures
            r.0 == count_in_state(self@.tiles, TileLifecycle::Active),
            r.1 == count_in_state(self@.tiles, TileLifecycle::Superseded),
            r.2 == count_in_state(self@.tiles, TileLifecycle::Retracted),
    {
        let mut active: usize = 0;
        let mut superseded: usize = 0;
        let mut retracted: usize = 0;
        let mut i: usize = 0;
        while i < self.tiles.len()
            invariant
                0 <= i <= self.tiles@.len(),
                active == count_in_state(self.tiles@.take(i as int), TileLifecycle::Active),
                superseded == count_in_state(
                    self.tiles@.take(i as int),
                    TileLifecycle::Superseded,
                ),
                retracted == count_in_state(self.tiles@.take(i as int), TileLifecycle::Retracted),
                active + superseded + retracted == i,
            decreases self.tiles@.len() - i,
        {
            proof {
                assert(self.tiles@.take(i + 1).drop_last() == self.tiles@.take(i as int));
            }
            match self.tiles[i].lifecycle {
                TileLifecycle::Active => {
                    active = active + 1;
                },
                TileLifecycle::Superseded => {
                    superseded = superseded + 1;
                },
                TileLifecycle::Retracted => {
                    retracted = retracted + 1;
                },
            }
            i = i + 1;
        }
        proof {
            assert(self.tiles@.take(i as int) == self.tiles@);
        }
        (active, superseded, retracted)
    }

    /// The tile bit (thick = `true`) of a lattice cell.
    pub fn get_tile_bit(&self, qx: i64, qy: i64) -> (b: bool)
        ensures
            b == spec_tile_bit(qx, qy),
    {
        tile_bit(qx, qy)
    }

    /// The 3-colouring of a lattice cell: one of 0, 1, 2, and never the
    /// colour of an axis neighbour.
    pub fn get_color(&self, qx: i64, qy: i64) -> (c: u8)
        ensures
            c == spec_three_color(qx, qy),
            c < 3,
    {
        three_color(qx, qy)
    }

    /// Whether the matching rule holds at a lattice cell: some one of its six
    /// neighbours carries the opposite tile bit.
    pub fn matching_rule_holds(&self, qx: i64, qy: i64) -> (r: bool)
        requires
            interior_cell(qx, qy),
        ensures
            r == spec_matching_rule(qx, qy),
    {
        matching_rule(qx, qy)
    }

    /// Whether a waypoint of a recall walk, in lattice cell `(qx, qy)`, is
    /// verified: some one of its four axis neighbours carries the opposite
    /// tile bit.
    pub fn waypoint_verified(&self, qx: i64, qy: i64) -> (r: bool)
        requires
            interior_cell(qx, qy),
        ensures
            r == spec_axis_rule(qx, qy),
    {
        axis_rule(qx, qy)
    }
}

impl PenroseMemory {
    /// Begin consolidating: a pass over the tiles in storage order in which
    /// the level-0 tiles take part.
    pub fn begin_consolidation(&self) -> (p: ConsolidationPass)
        ensures
            p@ == start_view(level_zero(self@.tiles)),
    {
        let mut eligible: Vec<bool> = Vec::new();
        let mut i: usize = 0;
        while i < self.tiles.len()
            invariant
                0 <= i <= self.tiles@.len(),
                eligible@ == level_zero(self.tiles@.take(i as int)),
            decreases self.tiles@.len() - i,
        {
            eligible.push(self.tiles[i].level == 0);
            proof {
                assert(eligible@ =~= level_zero(self.tiles@.take(i + 1)));
            }
            i = i + 1;
        }
        proof {
            assert(self.tiles@.take(i as int) == self.tiles@);
        }
        ConsolidationPass::start(eligible)
    }

    /// The XOR of the contents of a cluster's members.
    fn cluster_content(&self, members: &Vec<usize>) -> (x: u64)
        requires
            forall|i: int| 0 <= i < members@.len() ==> #[trigger] members@[i] < self@.tiles.len(),
        ensures
            x == xor_contents(self@.tiles, members@),
    {
        let mut x: u64 = 0;
        let mut j: usize = 0;
        while j < members.len()
            invariant
                0 <= j <= members@.len(),
                forall|i: int| 0 <= i < members@.len() ==> #[trigger] members@[i] < self.tiles@.len(),
                x == xor_contents(self.tiles@, members@.take(j as int)),
            decreases members@.len() - j,
        {
            proof {
                assert(members@.take(j + 1).drop_last() == members@.take(j as int));
            }
            x = x ^ self.tiles[members[j]].content;
            j = j + 1;
        }
        proof {
            assert(members@.take(j as int) == members@);
        }
        x
    }

    /// Finish consolidating: the tiles that were not merged stay, in storage
    /// order, and each closed cluster is replaced by one active level-1 tile
    /// that holds the XOR of its members' contents, sits at the cluster's
    /// centroid, and gets the next identifier. Returns the number of tiles
    /// removed.
    pub fn finish_consolidation(&mut self, pass: &ConsolidationPass, centroids: &Vec<Centroid>) -> (removed: usize)
        requires
            pass@.done,
            pass@.eligible == level_zero(old(self)@.tiles),
            centroids@.len() == pass@.clusters.len(),
            old(self)@.next_id + pass@.clusters.len() <= u64::MAX,
        ensures
            final(self)@.tiles == kept_tiles(old(self)@.tiles, pass@.merged) + merged_tiles(
                old(self)@.tiles,
                pass@.clusters,
                centroids@,
                old(self)@.next_id,
            ),
            final(self)@.next_id == old(self)@.next_id + pass@.clusters.len(),
            final(self)@.embedding_dim == old(self)@.embedding_dim,
            ids_well_ordered(final(self)@.tiles, final(self)@.next_id),
            removed == old(self)@.tiles.len() - final(self)@.tiles.len(),
    {
        proof {
            use_type_invariant(&*self);
        }
        let clusters = pass.clusters();
        let merged = pass.merged();
        let ghost olds = self.tiles@;
        let ghost old_next = self.next_id;
        let n = self.tiles.len();
        let mut out: Vec<Tile> = Vec::new();
        let mut i: usize = 0;
        while i < n
            invariant
                0 <= i <= n,
                n == self.tiles@.len(),
                olds == self.tiles@,
                old_next == self.next_id,
                merged@.len() == n,
                ids_well_ordered(olds, old_next as nat),
                out@ == kept_prefix(olds, merged@, i as int),
                forall|a: int, b: int|
                    0 <= a < b < out@.len() ==> #[trigger] out@[a].tile_id
                        < #[trigger] out@[b].tile_id,
                forall|a: int|
                    0 <= a < out@.len() ==> 1 <= #[trigger] out@[a].tile_id && out@[a].tile_id
                        < (if i < n {
                        olds[i as int].tile_id as int
                    } else {
                        old_next as int
                    }),
            decreases n - i,
        {
            if !merged[i] {
                out.push(self.tiles[i]);
            }
            proof {
                assert forall|a: int|
                    0 <= a < out@.len() implies 1 <= #[trigger] out@[a].tile_id
                    && out@[a].tile_id < (if i + 1 < n {
                    olds[i + 1].tile_id as int
                } else {
                    old_next as int
                }) by {
                    if i + 1 < n {
                        assert(olds[i as int].tile_id < olds[i + 1].tile_id);
                    }
                }
            }
            i = i + 1;
        }
        let ghost kept = out@;
        proof {
            assert forall|x: int, k: int|
                0 <= x < clusters@.len() && 0 <= k < clusters@[x]@.len() implies #[trigger] clusters@[x]@[k] < n by {
                assert(clusters_view(clusters@)[x] == clusters@[x]@);
                assert(pass@.clusters[x][k] == clusters@[x]@[k]);
            }
        }
        let mut next = self.next_id;
        let mut c: usize = 0;
        while c < clusters.len()
            invariant
                0 <= c <= clusters@.len(),
                clusters@.len() == centroids@.len(),
                olds == self.tiles@,
                n == olds.len(),
                forall|x: int, k: int|
                    0 <= x < clusters@.len() && 0 <= k < clusters@[x]@.len() ==> #[trigger] clusters@[x]@[k] < n,
                next == old_next + c,
                old_next >= 1,
                old_next + clusters@.len() <= u64::MAX,
                out@ == kept + merged_tiles(
                    olds,
                    clusters_view(clusters@),
                    centroids@,
                    old_next as nat,
                ).take(c as int),
                forall|a: int, b: int|
                    0 <= a < b < out@.len() ==> #[trigger] out@[a].tile_id
                        < #[trigger] out@[b].tile_id,
                forall|a: int| 0 <= a < out@.len() ==> 1 <= #[trigger] out@[a].tile_id < next,
            decreases clusters@.len() - c,
        {
            let content = self.cluster_content(&clusters[c]);
            let at = centroids[c];
            let ghost before = out@;
            let t = Tile {
                tile_id: next,
                content,
                x_bits: at.x_bits,
                y_bits: at.y_bits,
                color: three_color(at.qx, at.qy),
                level: 1,
                lifecycle: TileLifecycle::Active,
                lamport: 0,
            };
            out.push(t);
            proof {
                let ms = merged_tiles(olds, clusters_view(clusters@), centroids@, old_next as nat);
                assert(clusters_view(clusters@)[c as int] == clusters@[c as int]@);
                assert(ms.take(c + 1) == ms.take(c as int).push(ms[c as int]));
                assert(ms[c as int] == t);
                assert forall|a: int| 0 <= a < out@.len() implies 1 <= #[trigger] out@[a].tile_id < next + 1 by {
                    if a < before.len() {
                        assert(out@[a] == before[a]);
                    }
                }
                assert forall|a: int, b: int|
                    0 <= a < b < out@.len() implies #[trigger] out@[a].tile_id
                        < #[trigger] out@[b].tile_id by {
                    if b < before.len() {
                        assert(out@[a] == before[a]);
                        assert(out@[b] == before[b]);
                    } else {
                        assert(out@[a] == before[a]);
                    }
                }
            }
            next = next + 1;
            c = c + 1;
        }
        proof {
            let ms = merged_tiles(olds, clusters_view(clusters@), centroids@, old_next as nat);
            assert(ms.take(c as int) == ms);
        }
        proof {
            law_consolidation_shrinks(olds, pass@, centroids@, old_next as nat);
        }
        let removed = n - out.len();
        self.next_id = next;
        self.tiles = out;
        removed
    }
}

impl PenroseMemory {
    /// How many waypoints of a recall walk are verified, the walk being
    /// given by the lattice cells of its waypoints.
    pub fn verified_waypoints(&self, cells: &Vec<(i64, i64)>) -> (n: usize)
        requires
            forall|i: int| 0 <= i < cells@.len() ==> interior_cell(#[trigger] cells@[i].0, cells@[i].1),
        ensures
            n == count_verified(cells@),
    {
        let mut n: usize = 0;
        let mut i: usize = 0;
        while i < cells.len()
            invariant
                0 <= i <= cells@.len(),
                forall|j: int| 0 <= j < cells@.len() ==> interior_cell(#[trigger] cells@[j].0, cells@[j].1),
                n == count_verified(cells@.take(i as int)),
                n <= i,
            decreases cells@.len() - i,
        {
            proof {
                assert(cells@.take(i + 1).drop_last() == cells@.take(i as int));
            }
            let (qx, qy) = cells[i];
            if axis_rule(qx, qy) {
                n = n + 1;
            }
            i = i + 1;
        }
        proof {
            assert(cells@.take(i as int) == cells@);
        }
        n
    }
}

impl Default for PenroseMemory {
    /// An empty memory for the common 1536-dimensional embeddings.
    fn default() -> (m: Self)
        ensures
            m@.embedding_dim == 1536,
            m@.tiles == Seq::<Tile>::empty(),
            m@.next_id == 1,
            ids_well_ordered(m@.tiles, m@.next_id),
    {
        Self::new(1536)
    }
}

} // verus!
