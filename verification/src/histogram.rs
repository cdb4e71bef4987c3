//! Histograms: counts of values per bin, with one count each for the
//! values below the first and beyond the last bin.

use vstd::prelude::*;

verus! {

/// Where a value falls with respect to the bins of a histogram.
#[derive(Clone, Copy, Debug, PartialEq, Eq, Structural)]
pub enum HistBin {
    /// Below the first bin.
    Min,
    /// At or beyond the end of the last bin.
    Max,
    /// In the bin of this index.
    Bin(usize),
}

impl HistBin {
    /// The bin of a value that is neither below the least nor at the
    /// greatest value, from the number of whole steps that it lies above
    /// the least: that bin, or `Max` where rounding took it past the last.
    pub fn from_steps(steps: usize, len: usize) -> (b: HistBin)
        ensures
            b == (if steps >= len {
                HistBin::Max
            } else {
                HistBin::Bin(steps)
            }),
    {
        if steps >= len {
            HistBin::Max
        } else {
            HistBin::Bin(steps)
        }
    }
}

/// A histogram that grows by single values and by other histograms.
pub struct Histogram {
    hist: Vec<usize>,
    min: usize,
    max: usize,
    count: usize,
}

/// The counts of a histogram.
pub struct Counts {
    pub bins: Seq<usize>,
    pub below: nat,
    pub beyond: nat,
    pub total: nat,
}

impl View for Histogram {
    type V = Counts;

    closed spec fn view(&self) -> Counts {
        Counts {
            bins: self.hist@,
            below: self.min as nat,
            beyond: self.max as nat,
            total: self.count as nat,
        }
    }
}

impl Histogram {
    /// The histogram of `len` bins with every count at zero.
    pub fn new(len: usize) -> (h: Self)
        ensures
            h@.bins.len() == len,
            forall|i: int| 0 <= i < len ==> h@.bins[i] == 0,
            h@.below == 0,
            h@.beyond == 0,
            h@.total == 0,
    {
        let mut hist: Vec<usize> = Vec::new();
        let mut i: usize = 0;
        while i < len
            invariant
                i <= len,
                hist.len() == i,
                forall|k: int| 0 <= k < i ==> hist[k] == 0,
            decreases len - i,
        {
            hist.push(0);
            i += 1;
        }
        Histogram { hist, min: 0, max: 0, count: 0 }
    }

    /// The number of bins.
    pub fn len(&self) -> (n: usize)
        ensures
            n == self@.bins.len(),
    {
        self.hist.len()
    }

    /// The count of bin `i`.
    pub fn bin(&self, i: usize) -> (n: usize)
        requires
            i < self@.bins.len(),
        ensures
            n == self@.bins[i as int],
    {
        self.hist[i]
    }

    /// The count of values below the first bin.
    pub fn below(&self) -> (n: usize)
        ensures
            n == self@.below,
    {
        self.min
    }

    /// The count of values beyond the last bin.
    pub fn beyond(&self) -> (n: usize)
        ensures
            n == self@.beyond,
    {
        self.max
    }

    /// The count of all values.
    pub fn count(&self) -> (n: usize)
        ensures
            n == self@.total,
    {
        self.count
    }

    /// Counts one value that falls into `bin`.
    pub fn add(&mut self, bin: HistBin)
        requires
            bin matches HistBin::Bin(i) ==> i < old(self)@.bins.len() && old(self)@.bins[i as int]
                < usize::MAX,
            bin is Min ==> old(self)@.below < usize::MAX,
            bin is Max ==> old(self)@.beyond < usize::MAX,
            old(self)@.total < usize::MAX,
        ensures
            final(self)@.total == old(self)@.total + 1,
            final(self)@.below == old(self)@.below + (if bin is Min { 1int } else { 0 }),
            final(self)@.beyond == old(self)@.beyond + (if bin is Max { 1int } else { 0 }),
            final(self)@.bins == (match bin {
                HistBin::Bin(i) => old(self)@.bins.update(i as int, (old(self)@.bins[i as int] + 1) as usize),
                _ => old(self)@.bins,
            }),
    {
        match bin {
            HistBin::Min => {
                self.min += 1;
            },
            HistBin::Max => {
                self.max += 1;
            },
            HistBin::Bin(i) => {
                let n = self.hist[i];
                self.hist[i] = n + 1;
            },
        }
        self.count += 1;
    }

    /// Adds the counts of `other`, a histogram of the same bins, to the
    /// counts of this one.
    pub fn merge(&mut self, other: &Histogram)
        requires
            old(self)@.bins.len() == other@.bins.len(),
            forall|i: int|
                0 <= i < other@.bins.len() ==> old(self)@.bins[i] + other@.bins[i] <= usize::MAX,
            old(self)@.below + other@.below <= usize::MAX,
            old(self)@.beyond + other@.beyond <= usize::MAX,
            old(self)@.total + other@.total <= usize::MAX,
        ensures
            final(self)@.bins.len() == old(self)@.bins.len(),
            forall|i: int|
                0 <= i < other@.bins.len() ==> final(self)@.bins[i] == old(self)@.bins[i]
                    + other@.bins[i],
            final(self)@.below == old(self)@.below + other@.below,
            final(self)@.beyond == old(self)@.beyond + other@.beyond,
            final(self)@.total == old(self)@.total + other@.total,
    {
        let n = self.hist.len();
        let mut i: usize = 0;
        while i < n
            invariant
                i <= n,
                n == self.hist.len(),
                n == other.hist.len(),
                self.min == old(self).min,
                self.max == old(self).max,
                self.count == old(self).count,
                forall|k: int|
                    0 <= k < n ==> old(self).hist[k] + other.hist[k] <= usize::MAX,
                forall|k: int| 0 <= k < i ==> self.hist[k] == old(self).hist[k] + other.hist[k],
                forall|k: int| i <= k < n ==> self.hist[k] == old(self).hist[k],
            decreases n - i,
        {
            let sum = self.hist[i] + other.hist[i];
            self.hist[i] = sum;
            i += 1;
        }
        self.min += other.min;
        self.max += other.max;
        self.count += other.count;
    }
}

} // verus!
