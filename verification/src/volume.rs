//! What is recorded of a precomputed volume pyramid.

use vstd::prelude::*;

verus! {

/// The metadata of a volume pyramid: the transform from pixel to world
/// coordinates, kept in the form `T` in which the caller holds it, the
/// projection, the number of levels, the height of a chunk in rows, and
/// for each level the number of chunks and the width of the raster.
pub struct VolumePrecomputeMetadata<T> {
    pub transform: T,
    pub projection: String,
    pub levels: usize,
    pub chunks_y_offset: usize,
    pub levels_data: Vec<(usize, usize)>,
}

impl<T> VolumePrecomputeMetadata<T> {
    /// There is one entry of `levels_data` for each level.
    pub open spec fn wf(&self) -> bool {
        self.levels_data.len() == self.levels
    }

    /// The top level of the pyramid that a query should start from: the
    /// level named by `max_level`, or the last one where none is named or
    /// the named one does not exist.  `None` for a pyramid without levels.
    pub fn top_level(&self, max_level: Option<usize>) -> (top: Option<usize>)
        ensures
            top is Some <==> self.levels > 0,
            top matches Some(t) ==> t < self.levels && t == (match max_level {
                Some(l) => if l < self.levels {
                    l as int
                } else {
                    self.levels - 1
                },
                None => self.levels - 1,
            }),
    {
        if self.levels == 0 {
            return None;
        }
        match max_level {
            Some(l) => if l < self.levels {
                Some(l)
            } else {
                Some(self.levels - 1)
            },
            None => Some(self.levels - 1),
        }
    }
}

} // verus!
