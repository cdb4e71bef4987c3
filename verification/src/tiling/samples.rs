//! What is done with single samples: which of them count, and in which
//! order they are put together.
//!
//! A sample may stand for "no data".  The caller says which samples do, and
//! hands in the arithmetic: a test for "no data", a sum, a quotient, an
//! order.  The functions here fix how these are used: a mean leaves out the
//! samples without data and counts the others, a tile pixel without weight
//! has no data, and a sample without data has no level.

use vstd::prelude::*;

verus! {

/// The number of samples with data among the first `n`, where `flags[i]`
/// says that sample `i` has none.
pub open spec fn count_present(flags: Seq<bool>, n: int) -> int
    decreases n,
{
    if n <= 0 {
        0
    } else {
        count_present(flags, n - 1) + (if flags[n - 1] {
            0int
        } else {
            1int
        })
    }
}

/// `r` is the mean of the samples `vals` that have data, and `absent` where
/// none has.  `flags` is what the test for "no data" made of each sample,
/// and `sums` are the sums on the way: `zero` first, and after each sample
/// the sum before it, with the sample added if it has data.  The last sum
/// is divided by the number of samples with data.
pub open spec fn is_checked_average<
    C,
    N: Fn(C) -> bool,
    A: Fn(C, C) -> C,
    D: Fn(C, usize) -> C,
>(
    vals: Seq<C>,
    absent: C,
    zero: C,
    is_absent: &N,
    plus: &A,
    divide: &D,
    flags: Seq<bool>,
    sums: Seq<C>,
    r: C,
) -> bool {
    &&& flags.len() == vals.len()
    &&& sums.len() == vals.len() + 1
    &&& sums[0] == zero
    &&& forall|i: int|
        0 <= i < vals.len() ==> {
            &&& is_absent.ensures((vals[i],), #[trigger] flags[i])
            &&& flags[i] ==> sums[i + 1] == sums[i]
            &&& !flags[i] ==> plus.ensures((sums[i], vals[i]), sums[i + 1])
        }
    &&& count_present(flags, vals.len() as int) == 0 ==> r == absent
    &&& count_present(flags, vals.len() as int) > 0 ==> divide.ensures(
        (sums[vals.len() as int], count_present(flags, vals.len() as int) as usize),
        r,
    )
}

/// The mean of the four samples that have data: their sum, starting from
/// `zero`, divided by their number.  Samples without data are left out and
/// not counted; where none of the four has data the result is `absent`.
pub fn checked_average<C: Copy, N: Fn(C) -> bool, A: Fn(C, C) -> C, D: Fn(C, usize) -> C>(
    vals: [C; 4],
    absent: C,
    zero: C,
    is_absent: &N,
    plus: &A,
    divide: &D,
) -> (r: C)
    requires
        forall|c: C| is_absent.requires((c,)),
        forall|a: C, b: C| plus.requires((a, b)),
        forall|a: C, n: usize| divide.requires((a, n)),
    ensures
        exists|flags: Seq<bool>, sums: Seq<C>| #[trigger]
            is_checked_average(vals@, absent, zero, is_absent, plus, divide, flags, sums, r),
{
    let mut sum = zero;
    let mut count: usize = 0;
    let ghost mut flags: Seq<bool> = Seq::empty();
    let ghost mut sums: Seq<C> = seq![zero];
    let mut i: usize = 0;
    while i < 4
        invariant
            i <= 4,
            flags.len() == i,
            sums.len() == i + 1,
            sums[0] == zero,
            sums[i as int] == sum,
            count == count_present(flags, i as int),
            count <= i,
            forall|c: C| is_absent.requires((c,)),
            forall|a: C, b: C| plus.requires((a, b)),
            forall|k: int|
                0 <= k < i ==> {
                    &&& is_absent.ensures((vals@[k],), #[trigger] flags[k])
                    &&& flags[k] ==> sums[k + 1] == sums[k]
                    &&& !flags[k] ==> plus.ensures((sums[k], vals@[k]), sums[k + 1])
                },
        decreases 4 - i,
    {
        let v = vals[i];
        let none = is_absent(v);
        let ghost held_flags = flags;
        let ghost held_sums = sums;
        if !none {
            sum = plus(sum, v);
            count += 1;
        }
        proof {
            flags = flags.push(none);
            sums = sums.push(sum);
            assert forall|k: int| 0 <= k < i + 1 implies {
                &&& is_absent.ensures((vals@[k],), #[trigger] flags[k])
                &&& flags[k] ==> sums[k + 1] == sums[k]
                &&& !flags[k] ==> plus.ensures((sums[k], vals@[k]), sums[k + 1])
            } by {
                if k < i {
                    assert(flags[k] == held_flags[k]);
                    assert(sums[k] == held_sums[k] && sums[k + 1] == held_sums[k + 1]);
                }
            }
            lemma_count_prefix(held_flags, flags, i as int);
        }
        i += 1;
    }
    let r = if count > 0 { divide(sum, count) } else { absent };
    proof {
        assert(is_checked_average(vals@, absent, zero, is_absent, plus, divide, flags, sums, r));
    }
    r
}

/// Counting does not look beyond the samples counted.
pub proof fn lemma_count_prefix(a: Seq<bool>, b: Seq<bool>, n: int)
    requires
        0 <= n <= a.len(),
        n <= b.len(),
        forall|i: int| 0 <= i < n ==> a[i] == b[i],
    ensures
        count_present(a, n) == count_present(b, n),
        0 <= count_present(a, n) <= n,
    decreases n,
{
    if n > 0 {
        lemma_count_prefix(a, b, n - 1);
    }
}

/// The mean is `absent` exactly where every sample is without data, as far
/// as the test for "no data" says; and where a sample has data, it is
/// counted.
pub proof fn lemma_checked_average_counts<
    C,
    N: Fn(C) -> bool,
    A: Fn(C, C) -> C,
    D: Fn(C, usize) -> C,
>(
    vals: Seq<C>,
    absent: C,
    zero: C,
    is_absent: &N,
    plus: &A,
    divide: &D,
    flags: Seq<bool>,
    sums: Seq<C>,
    r: C,
)
    requires
        is_checked_average(vals, absent, zero, is_absent, plus, divide, flags, sums, r),
    ensures
        (forall|i: int| 0 <= i < vals.len() ==> flags[i]) <==> count_present(
            flags,
            vals.len() as int,
        ) == 0,
        (forall|i: int| 0 <= i < vals.len() ==> flags[i]) ==> r == absent && sums[vals.len() as int]
            == zero,
{
    lemma_count_zero(flags, vals.len() as int);
    if forall|i: int| 0 <= i < vals.len() ==> flags[i] {
        lemma_sums_stay(sums, flags, vals.len() as int);
    }
}

/// No sample is counted exactly where every flag is set.
pub proof fn lemma_count_zero(flags: Seq<bool>, n: int)
    requires
        0 <= n <= flags.len(),
    ensures
        0 <= count_present(flags, n) <= n,
        count_present(flags, n) == 0 <==> (forall|i: int| 0 <= i < n ==> flags[i]),
    decreases n,
{
    if n > 0 {
        lemma_count_zero(flags, n - 1);
        if count_present(flags, n) == 0 {
            assert forall|i: int| 0 <= i < n implies flags[i] by {
                if i < n - 1 {
                }
            }
        }
    }
}

/// Where no sample has data the sum stays what it was.
pub proof fn lemma_sums_stay<C>(sums: Seq<C>, flags: Seq<bool>, n: int)
    requires
        0 <= n <= flags.len(),
        sums.len() > n,
        forall|i: int| 0 <= i < n ==> #[trigger] flags[i] && sums[i + 1] == sums[i],
    ensures
        sums[n] == sums[0],
    decreases n,
{
    if n > 0 {
        lemma_sums_stay(sums, flags, n - 1);
        assert(flags[n - 1] && sums[n - 1 + 1] == sums[n - 1]);
    }
}

/// `v` is the sample of a finished tile pixel with the weighted sum
/// `cell.0` and the weight `cell.1`: that weight where it is without data,
/// else the quotient of the two.
pub open spec fn is_finished<C, N: Fn(C) -> bool, D: Fn(C, C) -> C>(
    cell: (C, C),
    is_absent: &N,
    divide: &D,
    v: C,
) -> bool {
    exists|none: bool|
        {
            &&& #[trigger] is_absent.ensures((cell.1,), none)
            &&& none ==> v == cell.1
            &&& !none ==> divide.ensures((cell.0, cell.1), v)
        }
}

/// The sample of a finished tile pixel: of its weighted sum `cell.0` and
/// its weight `cell.1`.  A pixel whose weight is without data got no
/// contribution, and has no data: the result is that weight.  Else it is the
/// weighted sum divided by the weight.
pub fn finish<C: Copy, N: Fn(C) -> bool, D: Fn(C, C) -> C>(cell: (C, C), is_absent: &N, divide: &D) -> (r:
    C)
    requires
        forall|c: C| is_absent.requires((c,)),
        forall|a: C, b: C| divide.requires((a, b)),
    ensures
        is_finished(cell, is_absent, divide, r),
{
    let none = is_absent(cell.1);
    if none {
        cell.1
    } else {
        divide(cell.0, cell.1)
    }
}

/// A tile pixel after one more contribution: of the sample `val` with the
/// weight `mu`.  The weight becomes `mu` where it was without data, and
/// grows by `mu` otherwise; the weighted sum grows by `mu` times `val`.
pub fn accumulate<C: Copy, N: Fn(C) -> bool, A: Fn(C, C) -> C, M: Fn(C, C) -> C>(
    cell: (C, C),
    val: C,
    mu: C,
    is_absent: &N,
    plus: &A,
    times: &M,
) -> (r: (C, C))
    requires
        forall|c: C| is_absent.requires((c,)),
        forall|a: C, b: C| plus.requires((a, b)),
        forall|a: C, b: C| times.requires((a, b)),
    ensures
        exists|none: bool, share: C|
            {
                &&& #[trigger] is_absent.ensures((cell.1,), none)
                &&& #[trigger] times.ensures((mu, val), share)
                &&& plus.ensures((cell.0, share), r.0)
                &&& none ==> r.1 == mu
                &&& !none ==> plus.ensures((cell.1, mu), r.1)
            },
{
    let none = is_absent(cell.1);
    let weight = if none { mu } else { plus(cell.1, mu) };
    let share = times(mu, val);
    let sum = plus(cell.0, share);
    (sum, weight)
}

/// `r` is the range `range` after the sample `v`: the same where `v` is
/// without data, else the lesser of `v` and the lower end, and the greater
/// of `v` and the upper end.
pub open spec fn is_widened<C, N: Fn(C) -> bool, L: Fn(C, C) -> C, G: Fn(C, C) -> C>(
    range: (C, C),
    v: C,
    is_absent: &N,
    lesser: &L,
    greater: &G,
    r: (C, C),
) -> bool {
    exists|none: bool|
        {
            &&& #[trigger] is_absent.ensures((v,), none)
            &&& none ==> r == range
            &&& !none ==> lesser.ensures((range.0, v), r.0) && greater.ensures((range.1, v), r.1)
        }
}

/// A range of values after one more sample: a sample without data leaves it
/// as it is, any other takes the lesser of it and the lower end for the
/// lower end, and the greater of it and the upper end for the upper end.
pub fn widen<C: Copy, N: Fn(C) -> bool, L: Fn(C, C) -> C, G: Fn(C, C) -> C>(
    range: (C, C),
    v: C,
    is_absent: &N,
    lesser: &L,
    greater: &G,
) -> (r: (C, C))
    requires
        forall|c: C| is_absent.requires((c,)),
        forall|a: C, b: C| lesser.requires((a, b)),
        forall|a: C, b: C| greater.requires((a, b)),
    ensures
        is_widened(range, v, is_absent, lesser, greater, r),
{
    let none = is_absent(v);
    if none {
        range
    } else {
        (lesser(range.0, v), greater(range.1, v))
    }
}

/// The level of a sample in a tile whose samples range from `min` to `max`:
/// none for a sample without data; else the sample is held to the range,
/// `min` standing for what lies below and `max` for what lies above, and
/// `steps` gives the number of whole steps that it lies above `min`.
pub fn level_of<C: Copy, N: Fn(C) -> bool, B: Fn(C, C) -> bool, S: Fn(C) -> u16>(
    v: C,
    min: C,
    max: C,
    is_absent: &N,
    below: &B,
    steps: &S,
) -> (level: Option<u16>)
    requires
        forall|c: C| is_absent.requires((c,)),
        forall|a: C, b: C| below.requires((a, b)),
        forall|c: C| steps.requires((c,)),
    ensures
        is_level(v, min, max, is_absent, below, steps, level),
{
    let none = is_absent(v);
    if none {
        proof {
            assert(is_held(v, min, max, is_absent, below, true, false, false));
        }
        return None;
    }
    let low = below(v, min);
    if low {
        let l = steps(min);
        proof {
            assert(is_held(v, min, max, is_absent, below, false, true, false));
        }
        return Some(l);
    }
    let high = below(max, v);
    let l = steps(if high { max } else { v });
    proof {
        assert(is_held(v, min, max, is_absent, below, false, false, high));
    }
    Some(l)
}

/// `level` is the level of the sample `v` in a tile whose samples range from
/// `min` to `max`: none for a sample without data, else what `steps` makes
/// of the sample held to the range.
pub open spec fn is_level<C, N: Fn(C) -> bool, B: Fn(C, C) -> bool, S: Fn(C) -> u16>(
    v: C,
    min: C,
    max: C,
    is_absent: &N,
    below: &B,
    steps: &S,
    level: Option<u16>,
) -> bool {
    exists|none: bool, low: bool, high: bool|
        {
            &&& #[trigger] is_held(v, min, max, is_absent, below, none, low, high)
            &&& none ==> level is None
            &&& !none ==> level is Some && steps.ensures(
                (if low {
                    min
                } else if high {
                    max
                } else {
                    v
                },),
                level->0,
            )
        }
}

/// What the tests made of a sample that is held to a range: `none` that it
/// is without data; and for a sample with data, `low` that it lies below
/// `min`, and for one that does not, `high` that it lies above `max`.
pub open spec fn is_held<C, N: Fn(C) -> bool, B: Fn(C, C) -> bool>(
    v: C,
    min: C,
    max: C,
    is_absent: &N,
    below: &B,
    none: bool,
    low: bool,
    high: bool,
) -> bool {
    &&& is_absent.ensures((v,), none)
    &&& !none ==> below.ensures((v, min), low)
    &&& !none && !low ==> below.ensures((max, v), high)
    &&& none ==> !low && !high
    &&& low ==> !high
}

} // verus!
