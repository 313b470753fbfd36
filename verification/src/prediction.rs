//! Simulation-first recall: checking a prediction against a recall.

use vstd::prelude::*;

verus! {

/// Whether a prediction is confirmed by a recall: the predicted tile is the
/// first tile the recall returned, or neither exists.
pub fn prediction_confirmed(predicted_tile_id: Option<u64>, first_recalled_tile_id: Option<u64>) -> (ok: bool)
    ensures
        ok == (predicted_tile_id == first_recalled_tile_id),
{
    match (predicted_tile_id, first_recalled_tile_id) {
        (Some(p), Some(f)) => p == f,
        _ => first_recalled_tile_id.is_none() && predicted_tile_id.is_none(),
    }
}

} // verus!
