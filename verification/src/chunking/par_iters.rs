//! The chunks of a configuration, worked out by a pool of threads.

use crate::chunking::ChunkConfig;
use rayon::iter::{IndexedParallelIterator, IntoParallelIterator, ParallelIterator};
use vstd::prelude::*;

verus! {

/// Chunk `0` to chunk `count - 1` of `cfg`, in this order.
///
/// Calls rayon's `into_par_iter` on the range `0..count`, `map` with
/// `ChunkConfig::window`, and `collect_into_vec`.  The range and what is
/// mapped from it are indexed parallel iterators, and `collect_into_vec`
/// puts the items of one into the vector at their indices; so item `i` of
/// the result is `cfg.window(i)`, whichever thread worked it out.
#[verifier::external_body]
fn par_windows(cfg: &ChunkConfig, count: usize) -> (ws: Vec<(usize, usize)>)
    requires
        count == cfg@.count(),
    ensures
        ws.len() == count,
        forall|i: int|
            0 <= i < ws.len() ==> (#[trigger] ws[i]).0 == cfg@.window(i).0 && ws[i].1
                == cfg@.window(i).1,
{
    let mut ws = Vec::new();
    (0..count).into_par_iter().map(|i| cfg.window(i)).collect_into_vec(&mut ws);
    ws
}

impl ChunkConfig {
    /// All chunks from first to last, as `iter` gives them, worked out in
    /// parallel.
    pub fn par_iter(&self) -> (ws: Vec<(usize, usize)>)
        ensures
            ws.len() == self@.count(),
            forall|i: int|
                0 <= i < ws.len() ==> (#[trigger] ws[i]).0 == self@.window(i).0 && ws[i].1
                    == self@.window(i).1,
    {
        let count = self.count();
        par_windows(self, count)
    }
}

} // verus!
