//! Building a chunk configuration step by step.

use crate::chunking::{lcm, lcm_spec, lemma_lcm, lemma_round_up, mod_ceil, round_up, ChunkConfig, ChunkPlan};
use vstd::prelude::*;

verus! {

impl ChunkConfig {
    /// The configuration for a raster of `width x height` pixels: blocks
    /// and chunks of one row, no padding, all rows to be processed.
    pub fn with_dims(width: usize, height: usize) -> (c: Self)
        requires
            width >= 1,
            height >= 1,
            height + 2 <= usize::MAX,
        ensures
            c@ == (ChunkPlan {
                width: width as int,
                height: height as int,
                block_size: 1,
                data_height: 1,
                padding: 0,
                start: 0,
                end: height as int,
            }),
            c@.wf(),
    {
        ChunkConfig {
            width,
            height,
            block_size: 1,
            data_height: 1,
            padding: 0,
            start: 0,
            end: height,
        }
    }

    /// Takes the block size of one more band into account: the block size
    /// becomes the least common multiple of the old one and `block_size`,
    /// and the data height the next multiple of that.
    pub fn add_block_size(self, block_size: usize) -> (c: Self)
        requires
            block_size >= 1,
            self@.height + self@.padding + self@.data_height + 2 * (self@.block_size * block_size)
                <= usize::MAX,
        ensures
            c@ == (ChunkPlan {
                block_size: lcm_spec(self@.block_size as nat, block_size as nat) as int,
                data_height: round_up(
                    self@.data_height,
                    lcm_spec(self@.block_size as nat, block_size as nat) as int,
                ),
                ..self@
            }),
            c@.wf(),
    {
        proof {
            use_type_invariant(&self);
            lemma_lcm(self.block_size as nat, block_size as nat);
            lemma_round_up(
                self.data_height as int,
                lcm_spec(self.block_size as nat, block_size as nat) as int,
            );
        }
        let block = lcm(self.block_size, block_size);
        ChunkConfig { block_size: block, data_height: mod_ceil(self.data_height, block), ..self }
    }

    /// Sets the least data height: it becomes the least multiple of the
    /// block size that is not less than `min_data_height`, and at least one
    /// block.
    pub fn with_min_data_height(self, min_data_height: usize) -> (c: Self)
        requires
            self@.height + self@.padding + min_data_height + 1 + 2 * self@.block_size
                <= usize::MAX,
        ensures
            c@ == (ChunkPlan {
                data_height: round_up(
                    if min_data_height >= 1 {
                        min_data_height as int
                    } else {
                        1
                    },
                    self@.block_size,
                ),
                ..self@
            }),
            c@.wf(),
    {
        proof {
            use_type_invariant(&self);
            lemma_round_up(
                if min_data_height >= 1 {
                    min_data_height as int
                } else {
                    1
                },
                self.block_size as int,
            );
        }
        let wanted = if min_data_height >= 1 { min_data_height } else { 1 };
        ChunkConfig { data_height: mod_ceil(wanted, self.block_size), ..self }
    }

    /// Sets the least data height by the number of pixels wanted in each
    /// chunk: the rows needed to hold them, rounded up.
    pub fn with_min_data_size(self, min_data_size: usize) -> (c: Self)
        requires
            min_data_size + self@.width <= usize::MAX,
            self@.height + self@.padding + min_data_size + 1 + 2 * self@.block_size <= usize::MAX,
        ensures
            c@ == (ChunkPlan {
                data_height: round_up(
                    if (min_data_size + self@.width - 1) / self@.width >= 1 {
                        (min_data_size + self@.width - 1) / self@.width
                    } else {
                        1
                    },
                    self@.block_size,
                ),
                ..self@
            }),
            c@.wf(),
    {
        proof {
            use_type_invariant(&self);
            let w = self.width as int;
            let t = min_data_size + w - 1;
            vstd::arithmetic::div_mod::lemma_fundamental_div_mod(t, w);
            vstd::arithmetic::div_mod::lemma_mod_bound(t, w);
            vstd::arithmetic::div_mod::lemma_div_pos_is_pos(t, w);
            assert(t / w <= min_data_size) by (nonlinear_arith)
                requires
                    t == w * (t / w) + t % w,
                    t % w >= 0,
                    t == min_data_size + w - 1,
                    w >= 1,
                    t / w >= 0,
            ;
        }
        let min_height = (min_data_size + self.width - 1) / self.width;
        self.with_min_data_height(min_height)
    }

    /// Sets the padding; the first row to process moves down to it where it
    /// was above.
    pub fn with_padding(self, padding: usize) -> (c: Self)
        requires
            self@.height + padding + self@.data_height + self@.block_size <= usize::MAX,
        ensures
            c@ == (ChunkPlan {
                padding: padding as int,
                start: if self@.start >= padding {
                    self@.start
                } else {
                    padding as int
                },
                ..self@
            }),
            c@.wf(),
    {
        proof {
            use_type_invariant(&self);
        }
        let start = if self.start >= padding { self.start } else { padding };
        ChunkConfig { padding, start, ..self }
    }

    /// Sets the first row to process, but not above the padding.
    pub fn with_start(self, start: usize) -> (c: Self)
        ensures
            c@ == (ChunkPlan {
                start: if start >= self@.padding {
                    start as int
                } else {
                    self@.padding
                },
                ..self@
            }),
            c@.wf(),
    {
        proof {
            use_type_invariant(&self);
        }
        let start = if start >= self.padding { start } else { self.padding };
        ChunkConfig { start, ..self }
    }

    /// Sets the row before which processing ends, but not beyond the
    /// raster.
    pub fn with_end(self, end: usize) -> (c: Self)
        ensures
            c@ == (ChunkPlan {
                end: if end <= self@.height {
                    end as int
                } else {
                    self@.height
                },
                ..self@
            }),
            c@.wf(),
    {
        proof {
            use_type_invariant(&self);
        }
        let end = if end <= self.height { end } else { self.height };
        ChunkConfig { end, ..self }
    }

    /// The width of the raster.
    pub fn width(&self) -> (v: usize)
        ensures
            v == self@.width,
            self@.wf(),
    {
        proof {
            use_type_invariant(self);
        }
        self.width
    }

    /// The height of the raster.
    pub fn height(&self) -> (v: usize)
        ensures
            v == self@.height,
    {
        self.height
    }

    /// The block size.
    pub fn block_size(&self) -> (v: usize)
        ensures
            v == self@.block_size,
    {
        self.block_size
    }

    /// The data height of a chunk.
    pub fn data_height(&self) -> (v: usize)
        ensures
            v == self@.data_height,
    {
        self.data_height
    }

    /// The padding.
    pub fn padding(&self) -> (v: usize)
        ensures
            v == self@.padding,
    {
        self.padding
    }

    /// The first row to process.
    pub fn start(&self) -> (v: usize)
        ensures
            v == self@.start,
    {
        self.start
    }

    /// The row before which processing ends.
    pub fn end(&self) -> (v: usize)
        ensures
            v == self@.end,
    {
        self.end
    }
}

} // verus!
