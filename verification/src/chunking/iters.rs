//! The chunks of a configuration, one after the other.
//!
//! A chunk is given by the row at which reading starts and the number of
//! rows to read, padding included.  The first chunk is made to end at a
//! block boundary; the chunks after it hold `data_height` data rows each,
//! the last one what is left.

use crate::chunking::{lemma_round_up, mod_ceil, round_up, ChunkConfig, ChunkPlan};
use vstd::prelude::*;

verus! {

impl ChunkPlan {
    /// The number of chunks, and where the data rows and the rows read of
    /// the first chunk end.
    pub open spec fn initial(self) -> (int, int, int) {
        if self.start >= self.end {
            (0, 0, 0)
        } else {
            let data_end = if self.start + self.data_height <= self.end {
                self.start + self.data_height
            } else {
                self.end
            };
            // The first chunk is read up to a block boundary.
            let aligned = round_up(data_end + self.padding, self.block_size);
            let load_end = if aligned <= self.height {
                aligned
            } else {
                self.height
            };
            // The raster may be too short for the padding below.
            let data_end = if load_end - self.padding >= self.start {
                load_end - self.padding
            } else {
                self.start
            };
            // The block boundary may lie beyond the rows to process.
            let (data_end, load_end) = if data_end > self.end {
                (self.end, self.end + self.padding)
            } else {
                (data_end, load_end)
            };
            let by_data = round_up(self.end - data_end, self.data_height) / self.data_height;
            let by_load = round_up(self.height - load_end, self.data_height) / self.data_height;
            (
                (if by_data <= by_load {
                    by_data
                } else {
                    by_load
                }) + 1,
                data_end,
                load_end,
            )
        }
    }

    /// The number of chunks.
    pub open spec fn count(self) -> int {
        self.initial().0
    }

    /// Where the data rows of chunk `i` start, and where the rows read for
    /// it end.
    pub open spec fn extent(self, i: int) -> (int, int) {
        let (count, data_end, load_end) = self.initial();
        if i == 0 {
            (self.start, load_end)
        } else {
            let data_start = data_end + (i - 1) * self.data_height;
            if i < count - 1 {
                (data_start, data_start + self.data_height + self.padding)
            } else {
                let data_end = if data_start + self.data_height <= self.end {
                    data_start + self.data_height
                } else {
                    self.end
                };
                (
                    data_start,
                    if data_end + self.padding <= self.height {
                        data_end + self.padding
                    } else {
                        self.height
                    },
                )
            }
        }
    }

    /// Chunk `i`: the row at which reading starts, the padding above the
    /// data rows included, and the number of rows to read.
    pub open spec fn window(self, i: int) -> (int, int) {
        let (data_start, load_end) = self.extent(i);
        (data_start - self.padding, load_end - (data_start - self.padding))
    }
}

/// The first chunk: its data rows start at `start`, and it is read to
/// within the raster.  Where there are more chunks, the first is read to
/// exactly `padding` rows below its data rows.
pub proof fn lemma_initial(p: ChunkPlan)
    requires
        p.wf(),
        p.start < p.end,
    ensures
        p.count() >= 1,
        p.start <= p.initial().1 <= p.end,
        p.start < p.initial().2 <= p.height,
        p.padding <= p.initial().2,
        p.initial().1 + p.padding >= p.initial().2,
        p.count() > 1 ==> p.initial().1 + p.padding == p.initial().2,
        p.count() - 1 <= round_up(p.end - p.initial().1, p.data_height) / p.data_height,
        p.count() - 1 <= round_up(p.height - p.initial().2, p.data_height) / p.data_height,
{
    let data_end = if p.start + p.data_height <= p.end {
        p.start + p.data_height
    } else {
        p.end
    };
    lemma_round_up(data_end + p.padding, p.block_size);
    let (count, de, le) = p.initial();
    lemma_round_up(p.end - de, p.data_height);
    lemma_round_up(p.height - le, p.data_height);
    if count > 1 {
        let by_data = round_up(p.end - de, p.data_height) / p.data_height;
        let by_load = round_up(p.height - le, p.data_height) / p.data_height;
        assert(by_data >= 1 && by_load >= 1);
        assert(p.end - de > 0) by {
            if p.end - de == 0 {
                vstd::arithmetic::div_mod::lemma_small_mod(0, p.data_height as nat);
                assert(round_up(0, p.data_height) == 0);
            }
        }
        assert(p.height - le > 0) by {
            if p.height - le == 0 {
                vstd::arithmetic::div_mod::lemma_small_mod(0, p.data_height as nat);
                assert(round_up(0, p.data_height) == 0);
            }
        }
    }
}

/// Every chunk lies within the raster: it starts at a row of the raster
/// and ends at or before the last.  The data rows of chunk `i + 1` start
/// `data_height` rows below those of chunk `i`, for `i >= 1`.
pub proof fn lemma_window(p: ChunkPlan, i: int)
    requires
        p.wf(),
        0 <= i < p.count(),
    ensures
        p.start < p.end,
        p.padding <= p.extent(i).0 < p.end,
        p.extent(i).0 - p.padding <= p.extent(i).1 <= p.height,
        0 <= p.window(i).0,
        0 <= p.window(i).1,
        p.window(i).0 + p.window(i).1 <= p.height,
        i >= 1 ==> 0 <= (i - 1) * p.data_height < p.end - p.initial().1,
{
    lemma_initial(p);
    let (count, de, le) = p.initial();
    let dh = p.data_height;
    if i >= 1 {
        let by_data = round_up(p.end - de, dh) / dh;
        let by_load = round_up(p.height - le, dh) / dh;
        lemma_round_up(p.end - de, dh);
        lemma_round_up(p.height - le, dh);
        assert(0 <= (i - 1) * dh < p.end - de) by (nonlinear_arith)
            requires
                1 <= i <= by_data,
                dh >= 1,
                dh * by_data < p.end - de + dh,
        ;
        if i < count - 1 {
            assert(i * dh < p.height - le) by (nonlinear_arith)
                requires
                    1 <= i <= by_load - 1,
                    dh >= 1,
                    dh * by_load < p.height - le + dh,
            ;
            assert((i - 1) * dh + dh == i * dh) by (nonlinear_arith);
        }
    }
}

impl ChunkConfig {
    /// The number of chunks, and where the data rows and the rows read of
    /// the first chunk end.
    pub fn calc_initial_chunk(&self) -> (r: [usize; 3])
        ensures
            r[0] == self@.initial().0,
            r[1] == self@.initial().1,
            r[2] == self@.initial().2,
    {
        proof {
            use_type_invariant(self);
        }
        if self.start >= self.end {
            return [0, 0, 0];
        }
        proof {
            lemma_initial(self@);
            let data_end = if self.start + self.data_height <= self.end {
                self.start + self.data_height
            } else {
                self.end as int
            };
            lemma_round_up(data_end + self.padding, self.block_size as int);
        }
        let mut data_end = if self.start + self.data_height <= self.end {
            self.start + self.data_height
        } else {
            self.end
        };
        let aligned = mod_ceil(data_end + self.padding, self.block_size);
        let mut load_end = if aligned <= self.height { aligned } else { self.height };
        data_end = if load_end >= self.start + self.padding {
            load_end - self.padding
        } else {
            self.start
        };
        if data_end > self.end {
            data_end = self.end;
            load_end = data_end + self.padding;
        }
        proof {
            lemma_round_up(self.end - data_end, self.data_height as int);
            lemma_round_up(self.height - load_end, self.data_height as int);
        }
        let by_data = mod_ceil(self.end - data_end, self.data_height) / self.data_height;
        let by_load = mod_ceil(self.height - load_end, self.data_height) / self.data_height;
        let count = (if by_data <= by_load { by_data } else { by_load }) + 1;
        [count, data_end, load_end]
    }

    /// The number of chunks.
    pub fn count(&self) -> (n: usize)
        ensures
            n == self@.count(),
    {
        self.calc_initial_chunk()[0]
    }

    /// Chunk `i`: the row at which reading starts and the number of rows to
    /// read.  The rows lie within the raster.
    pub fn window(&self, i: usize) -> (w: (usize, usize))
        requires
            i < self@.count(),
        ensures
            w.0 == self@.window(i as int).0,
            w.1 == self@.window(i as int).1,
            w.0 + w.1 <= self@.height,
    {
        proof {
            use_type_invariant(self);
            lemma_window(self@, i as int);
            lemma_initial(self@);
        }
        let first = self.calc_initial_chunk();
        let count = first[0];
        let (data_start, load_end) = if i == 0 {
            (self.start, first[2])
        } else {
            proof {
                assert((i - 1) * self.data_height >= 0) by (nonlinear_arith)
                    requires
                        i >= 1,
                        self.data_height >= 0,
                ;
            }
            let data_start = first[1] + (i - 1) * self.data_height;
            if i < count - 1 {
                (data_start, data_start + self.data_height + self.padding)
            } else {
                let data_end = if data_start + self.data_height <= self.end {
                    data_start + self.data_height
                } else {
                    self.end
                };
                (
                    data_start,
                    if data_end + self.padding <= self.height {
                        data_end + self.padding
                    } else {
                        self.height
                    },
                )
            }
        };
        let load_start = data_start - self.padding;
        (load_start, load_end - load_start)
    }

    /// All chunks from first to last.
    pub fn iter(&self) -> (ws: Vec<(usize, usize)>)
        ensures
            ws.len() == self@.count(),
            forall|i: int|
                0 <= i < ws.len() ==> (#[trigger] ws[i]).0 == self@.window(i).0 && ws[i].1
                    == self@.window(i).1,
    {
        let count = self.count();
        let mut ws: Vec<(usize, usize)> = Vec::new();
        let mut i: usize = 0;
        while i < count
            invariant
                count == self@.count(),
                i <= count,
                ws.len() == i,
                forall|k: int|
                    0 <= k < i ==> (#[trigger] ws[k]).0 == self@.window(k).0 && ws[k].1
                        == self@.window(k).1,
            decreases count - i,
        {
            ws.push(self.window(i));
            i += 1;
        }
        ws
    }
}

} // verus!
