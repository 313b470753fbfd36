use penrose_memory::golden::{word_letter, tile_bit, three_color};
use penrose_memory::memory::Centroid;
use penrose_memory::{LamportClock, PenroseMemory, TileLifecycle};
use std::collections::HashSet;

const INV_PHI: f64 = 0.618033988749895;

// Drive a consolidation pass to its end, answering every question with the
// given closeness rule (cluster members so far, candidate).
fn consolidate_with(pm: &mut PenroseMemory, close: impl Fn(&Vec<usize>, usize) -> bool) -> usize {
    let mut pass = pm.begin_consolidation();
    while let Some(cand) = pass.candidate() {
        let c = close(pass.members(), cand);
        pass = pass.answer(c);
    }
    let centroids: Vec<Centroid> = pass
        .clusters()
        .iter()
        .map(|_| Centroid { x_bits: 0, y_bits: 0, qx: 0, qy: 0 })
        .collect();
    pm.finish_consolidation(&pass, &centroids)
}

#[test]
fn test_matching_rules_hold() {
    let pm = PenroseMemory::new(4);
    let mut valid = 0usize;
    let total = 1000;
    for q in 0..total {
        if pm.matching_rule_holds(q, 0) {
            valid += 1;
        }
    }
    let ratio = valid as f64 / total as f64;
    assert!(ratio > 0.75, "Matching rules should hold at most positions, got {}", ratio);
}

#[test]
fn test_fibonacci_ratio() {
    let pm = PenroseMemory::new(4);
    let n = 10000;
    let thick_count = (0..n).filter(|&q| pm.get_tile_bit(q, 0)).count();
    let ratio = thick_count as f64 / n as f64;
    assert!(
        (ratio - INV_PHI).abs() < 0.03,
        "Ratio {:.4} should approach 1/φ ≈ {:.4}",
        ratio,
        INV_PHI
    );
}

#[test]
fn test_three_coloring_covers_all() {
    let pm = PenroseMemory::new(4);
    let mut colors = [false; 3];
    for q in 0..300 {
        let c = pm.get_color(q, 0) as usize;
        assert!(c < 3);
        colors[c] = true;
    }
    assert!(colors[0] && colors[1] && colors[2], "All 3 colors should appear");
}

#[test]
fn test_region_fingerprints_unique() {
    let pm = PenroseMemory::new(4);
    let mut fingerprints = HashSet::new();
    for q in 0..100i64 {
        let mut fp = 0u16;
        for dx in -1..=1 {
            for dy in -1..=1 {
                let bit = pm.get_tile_bit(q + dx, dy) as u16;
                fp = (fp << 1) | bit;
            }
        }
        fingerprints.insert(fp);
    }
    assert!(fingerprints.len() > 50, "Should have many unique fingerprints, got {}", fingerprints.len());
}

#[test]
fn test_aperiodic_patterns() {
    let pm = PenroseMemory::new(4);
    let pattern: Vec<bool> = (0..100).map(|q| pm.get_tile_bit(q, 0)).collect();
    for period in 2..20 {
        let mut periodic = true;
        for i in period..100 {
            if pattern[i] != pattern[i - period] {
                periodic = false;
                break;
            }
        }
        assert!(!periodic, "Pattern should not be periodic with period {}", period);
    }
}

#[test]
fn test_consolidation_reduces_count() {
    let mut pm = PenroseMemory::new(4);
    // Twenty memories on one spot of the floor: every pair lies within the
    // merge distance.
    for i in 0..20u64 {
        pm.store(1.5f64.to_bits(), 0.5f64.to_bits(), 1, 0, i);
    }
    let before = pm.len();
    let removed = consolidate_with(&mut pm, |_, _| true);
    let after = pm.len();
    assert_eq!(removed, 19);
    assert!(after < before, "Consolidation should reduce tile count: {} -> {}", before, after);
}

#[test]
fn test_store_many_memories() {
    let mut pm = PenroseMemory::new(8);
    for i in 0..1000u64 {
        pm.store(i, i, i as i64, 0, i);
    }
    assert_eq!(pm.len(), 1000);
}

#[test]
fn test_new_tile_is_active() {
    let mut pm = PenroseMemory::new(4);
    pm.store(0, 0, 3, 1, 42);
    let ids = pm.active_tile_ids();
    assert_eq!(ids.len(), 1);
    let (active, sup, ret) = pm.lifecycle_stats();
    assert_eq!(active, 1);
    assert_eq!(sup, 0);
    assert_eq!(ret, 0);
}

#[test]
fn test_supersede_excludes_from_recall() {
    let mut pm = PenroseMemory::new(4);
    let id1 = pm.store(0, 0, 0, 0, 10);
    let _id2 = pm.store(1, 1, 0, 0, 20);

    pm.supersede_tile(id1);

    let candidates = pm.active_tiles();
    assert!(!candidates.iter().any(|t| t.tile_id == id1), "Superseded tile should not appear in recall");

    let (active, sup, _) = pm.lifecycle_stats();
    assert_eq!(active, 1);
    assert_eq!(sup, 1);
}

#[test]
fn test_retract_excludes_from_recall() {
    let mut pm = PenroseMemory::new(4);
    let id = pm.store(0, 0, 0, 0, 10);

    let retracted = pm.retract_tile(id);
    assert!(retracted);

    let candidates = pm.active_tiles();
    assert!(candidates.is_empty(), "Retracted tile should not appear in recall");
}

#[test]
fn test_cannot_supersede_retracted() {
    let mut pm = PenroseMemory::new(4);
    let id = pm.store(0, 0, 2, 2, 42);
    pm.retract_tile(id);
    let result = pm.supersede_tile(id);
    assert!(result.is_none(), "Cannot supersede a retracted tile");
}

#[test]
fn test_lamport_clock_monotonic() {
    let mut clock = LamportClock::new();
    let t1 = clock.tick();
    let t2 = clock.tick();
    let t3 = clock.merge(100); // max(2, 100) + 1 = 101
    assert!(t1 < t2);
    assert_eq!(t3, 101);
}

// ── further scenarios ───────────────────────────────────────────────

#[test]
fn lamport_merge_behind_local_time() {
    let mut clock = LamportClock::new();
    for _ in 0..5 {
        clock.tick();
    }
    assert_eq!(clock.merge(3), 6);
    assert_eq!(clock.now(), 6);
    assert_eq!(clock.merge(6), 7);
}

#[test]
fn lifecycle_labels() {
    assert_eq!(TileLifecycle::Active.label(), "Active");
    assert_eq!(TileLifecycle::Superseded.label(), "Superseded");
    assert_eq!(TileLifecycle::Retracted.label(), "Retracted");
}

#[test]
fn first_letters_of_the_fibonacci_word() {
    let word: Vec<bool> = (0..10u64).map(word_letter).collect();
    assert_eq!(word, vec![false, true, false, true, true, false, true, false, true, true]);
}

#[test]
fn thick_letters_number_floor_of_n_over_phi() {
    let thick = (0..10000u64).filter(|&n| word_letter(n)).count();
    assert_eq!(thick, 6180);
}

#[test]
fn word_has_no_two_thin_and_no_three_thick_in_a_row() {
    let word: Vec<bool> = (0..10000u64).map(word_letter).collect();
    for i in 0..word.len() - 2 {
        assert!(word[i] || word[i + 1]);
        assert!(!(word[i] && word[i + 1] && word[i + 2]));
    }
}

#[test]
fn tile_bits_and_colours_of_the_first_cells() {
    let bits: Vec<bool> = (0..12).map(|q| tile_bit(q, 0)).collect();
    assert_eq!(
        bits,
        vec![false, false, true, true, true, true, true, true, true, true, false, false]
    );
    let colours: Vec<u8> = (0..12).map(|q| three_color(q, 0)).collect();
    assert_eq!(colours, vec![0, 1, 2, 0, 1, 2, 0, 1, 2, 0, 1, 2]);
}

#[test]
fn extreme_cells_get_a_colour_below_three_and_a_bit() {
    assert_eq!(three_color(i64::MIN, 0), 1);
    assert_eq!(three_color(i64::MAX, i64::MAX), 2);
    assert_eq!(three_color(i64::MIN, i64::MIN), 2);
    assert!(!tile_bit(i64::MIN, 0));
}

#[test]
fn neighbouring_cells_differ_in_colour() {
    for qx in -20..20i64 {
        for qy in -20..20i64 {
            let c = three_color(qx, qy);
            assert!(c < 3);
            assert_ne!(c, three_color(qx + 1, qy));
            assert_ne!(c, three_color(qx - 1, qy));
            assert_ne!(c, three_color(qx, qy + 1));
            assert_ne!(c, three_color(qx, qy - 1));
        }
    }
}

#[test]
fn store_hands_out_increasing_ids_and_colours_cells() {
    let mut pm = PenroseMemory::new(4);
    assert!(pm.is_empty());
    let a = pm.store(7, 8, 2, 0, 100);
    let b = pm.store(9, 10, 4, 0, 200);
    assert_eq!(a, 1);
    assert_eq!(b, 2);
    assert_eq!(pm.len(), 2);
    let t = pm.tile(b).unwrap();
    assert_eq!(t.content, 200);
    assert_eq!(t.x_bits, 9);
    assert_eq!(t.y_bits, 10);
    assert_eq!(t.color, 1);
    assert_eq!(t.level, 0);
    assert_eq!(t.lifecycle, TileLifecycle::Active);
    assert!(pm.tile(3).is_none());
    assert_eq!(pm.embedding_dim(), 4);
}

#[test]
fn supersede_returns_content_once() {
    let mut pm = PenroseMemory::new(4);
    let id = pm.store(0, 0, 0, 0, 77);
    assert_eq!(pm.supersede_tile(id), Some(77));
    assert_eq!(pm.supersede_tile(id), None);
    assert!(!pm.retract_tile(id));
    assert_eq!(pm.supersede_tile(99), None);
    assert_eq!(pm.tile(id).unwrap().lifecycle, TileLifecycle::Superseded);
}

#[test]
fn lifecycle_counts_add_up() {
    let mut pm = PenroseMemory::new(4);
    let ids: Vec<u64> = (0..6).map(|i| pm.store(i, i, 0, 0, i)).collect();
    pm.supersede_tile(ids[0]);
    pm.supersede_tile(ids[1]);
    pm.retract_tile(ids[2]);
    let (a, s, r) = pm.lifecycle_stats();
    assert_eq!((a, s, r), (3, 2, 1));
    assert_eq!(a + s + r, pm.len());
    assert_eq!(pm.active_tile_ids(), vec![ids[3], ids[4], ids[5]]);
}

#[test]
fn default_memory_uses_1536_dimensions() {
    let pm = PenroseMemory::default();
    assert_eq!(pm.embedding_dim(), 1536);
    assert!(pm.is_empty());
}

#[test]
fn consolidation_merges_clusters_by_xor() {
    let mut pm = PenroseMemory::new(4);
    // Tiles 0, 2 and 3 lie together; tile 1 lies alone.
    for (i, c) in [5u64, 6, 9, 12].iter().enumerate() {
        pm.store(i as u64, 0, 0, 0, *c);
    }
    let group = [0usize, 2, 3];
    let mut pass = pm.begin_consolidation();
    let mut asked = Vec::new();
    while let Some(cand) = pass.candidate() {
        asked.push((pass.members().clone(), cand));
        let close = group.contains(&pass.members()[0]) == group.contains(&cand);
        pass = pass.answer(close);
    }
    assert_eq!(
        asked,
        vec![
            (vec![0], 1),
            (vec![0], 2),
            (vec![0, 2], 3),
        ]
    );
    assert_eq!(pass.clusters(), &vec![vec![0usize, 2, 3]]);
    let removed = pm.finish_consolidation(&pass, &vec![Centroid { x_bits: 42, y_bits: 43, qx: 2, qy: 0 }]);
    assert_eq!(removed, 2);
    assert_eq!(pm.len(), 2);
    let tiles = pm.tiles();
    assert_eq!(tiles[0].content, 6);
    assert_eq!(tiles[1].content, 5 ^ 9 ^ 12);
    assert_eq!(tiles[1].tile_id, 5);
    assert_eq!(tiles[1].level, 1);
    assert_eq!(tiles[1].color, 2);
    assert_eq!(tiles[1].x_bits, 42);
    // The XOR of all contents is unchanged.
    assert_eq!(tiles[0].content ^ tiles[1].content, 5 ^ 6 ^ 9 ^ 12);
    // A second pass leaves the level-1 tile alone.
    assert_eq!(consolidate_with(&mut pm, |_, _| true), 0);
    assert_eq!(pm.len(), 2);
}

#[test]
fn consolidation_with_nothing_close_leaves_the_memory_unchanged() {
    let mut pm = PenroseMemory::new(4);
    for i in 0..5u64 {
        pm.store(i, i, i as i64, 0, i + 10);
    }
    let before = pm.tiles().clone();
    let next = pm.next_tile_id();
    assert_eq!(consolidate_with(&mut pm, |_, _| false), 0);
    assert_eq!(pm.tiles(), &before);
    assert_eq!(pm.next_tile_id(), next);
}

#[test]
fn consolidation_of_fewer_than_two_tiles_does_nothing() {
    let mut pm = PenroseMemory::new(4);
    pm.store(0, 0, 0, 0, 1);
    let pass = pm.begin_consolidation();
    assert!(pass.is_done());
    assert!(pass.clusters().is_empty());
    assert_eq!(pm.finish_consolidation(&pass, &Vec::new()), 0);
    assert_eq!(pm.len(), 1);
}

#[test]
fn waypoint_rule_checks_axis_neighbours() {
    let pm = PenroseMemory::new(4);
    for q in 1..50i64 {
        let b = pm.get_tile_bit(q, 0);
        let expected = pm.get_tile_bit(q + 1, 0) != b
            || pm.get_tile_bit(q - 1, 0) != b
            || pm.get_tile_bit(q, 1) != b
            || pm.get_tile_bit(q, -1) != b;
        assert_eq!(pm.waypoint_verified(q, 0), expected);
    }
    let cells: Vec<(i64, i64)> = (1..50i64).map(|q| (q, 0)).collect();
    let verified = cells.iter().filter(|&&(x, y)| pm.waypoint_verified(x, y)).count();
    assert_eq!(pm.verified_waypoints(&cells), verified);
    assert_eq!(pm.verified_waypoints(&Vec::new()), 0);
}
