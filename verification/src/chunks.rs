//! Chunk boundaries for scanning a band with overlap: each chunk is loaded
//! afresh and carries over the last rows of the chunk before it.

use crate::chunking::{lemma_round_up, round_up};
use vstd::prelude::*;

verus! {

/// The number of chunks of `chunk_size` rows needed for the rows from
/// `start` up to `end`.
pub open spec fn offsets_count(chunk_size: int, start: int, end: int) -> int {
    if start >= end {
        0
    } else {
        (end - start + chunk_size - 1) / chunk_size
    }
}

/// Chunk `i`: the row at which loading starts, the number of rows to load,
/// and the number of rows to carry over from the chunk before.
pub open spec fn offset_at(pad_size: int, chunk_size: int, start: int, end: int, i: int) -> (
    int,
    int,
    int,
) {
    let idx = start + i * chunk_size;
    (
        idx,
        if end - idx < chunk_size {
            end - idx
        } else {
            chunk_size
        },
        if i == 0 {
            0
        } else {
            2 * pad_size
        },
    )
}

/// The chunk boundaries for the rows from `start` up to `end`: chunks of
/// `chunk_size` rows, the last one shorter where the rows run out, each but
/// the first carrying over `2 * pad_size` rows.
pub fn offsets_iterator(pad_size: usize, chunk_size: usize, start: isize, end: isize) -> (out: Vec<
    (isize, usize, usize),
>)
    requires
        2 * pad_size < chunk_size,
    ensures
        out.len() == offsets_count(chunk_size as int, start as int, end as int),
        forall|i: int|
            0 <= i < out.len() ==> {
                let want = offset_at(
                    pad_size as int,
                    chunk_size as int,
                    start as int,
                    end as int,
                    i,
                );
                &&& (#[trigger] out[i]).0 == want.0
                &&& out[i].1 == want.1
                &&& out[i].2 == want.2
                &&& out[i].1 >= 1
                &&& out[i].0 + out[i].1 <= end
            },
{
    let pad: usize = 2 * pad_size;
    let mut out: Vec<(isize, usize, usize)> = Vec::new();
    if start >= end {
        return out;
    }
    let ghost total = offsets_count(chunk_size as int, start as int, end as int);
    let ghost c = chunk_size as int;
    proof {
        let t = end - start + c - 1;
        vstd::arithmetic::div_mod::lemma_fundamental_div_mod(t, c);
        vstd::arithmetic::div_mod::lemma_mod_bound(t, c);
        vstd::arithmetic::div_mod::lemma_div_pos_is_pos(t, c);
        assert(0 * c == 0) by (nonlinear_arith);
        assert(t / c >= 1) by (nonlinear_arith)
            requires
                t == c * (t / c) + t % c,
                t % c < c,
                t >= c,
                c > 0,
        ;
    }
    let mut idx: isize = start;
    loop
        invariant_except_break
            idx == start + out.len() * c,
            out.len() < total,
        invariant
            c == chunk_size,
            c > 0,
            pad == 2 * pad_size,
            start <= idx < end,
            total == (end - start + c - 1) / c,
            end - start + c - 1 == c * total + (end - start + c - 1) % c,
            0 <= (end - start + c - 1) % c < c,
            forall|i: int|
                0 <= i < out.len() ==> {
                    let want = offset_at(pad_size as int, c, start as int, end as int, i);
                    &&& (#[trigger] out[i]).0 == want.0
                    &&& out[i].1 == want.1
                    &&& out[i].2 == want.2
                    &&& out[i].1 >= 1
                    &&& out[i].0 + out[i].1 <= end
                },
        ensures
            out.len() == total,
            forall|i: int|
                0 <= i < out.len() ==> {
                    let want = offset_at(pad_size as int, c, start as int, end as int, i);
                    &&& (#[trigger] out[i]).0 == want.0
                    &&& out[i].1 == want.1
                    &&& out[i].2 == want.2
                    &&& out[i].1 >= 1
                    &&& out[i].0 + out[i].1 <= end
                },
        decreases end - idx,
    {
        let left: usize = (end as i128 - idx as i128) as usize;
        let load_size = if left < chunk_size { left } else { chunk_size };
        let ghost n = out.len() as int;
        out.push((idx, load_size, if idx == start { 0 } else { pad }));
        proof {
            assert(idx == start <==> n == 0) by (nonlinear_arith)
                requires
                    idx == start + n * c,
                    c > 0,
                    n >= 0,
            ;
            assert((n + 1) * c == n * c + c) by (nonlinear_arith);
        }
        if left <= chunk_size {
            proof {
                assert(n + 1 == total) by (nonlinear_arith)
                    requires
                        end - start + c - 1 == c * total + (end - start + c - 1) % c,
                        0 <= (end - start + c - 1) % c < c,
                        idx == start + n * c,
                        0 < end - idx <= c,
                        n < total,
                ;
            }
            break ;
        }
        proof {
            assert(n + 1 < total) by (nonlinear_arith)
                requires
                    end - start + c - 1 == c * total + (end - start + c - 1) % c,
                    0 <= (end - start + c - 1) % c < c,
                    idx == start + n * c,
                    end - idx > c,
            ;
        }
        idx = (idx as i128 + chunk_size as i128) as isize;
    }
    out
}

/// The best size for loading: the least multiple of `block_size` that is
/// not less than `2 * pad_size` plus `chunk_size`, or plus 1 where
/// `chunk_size` is 0.
pub fn size_with_padding(block_size: usize, chunk_size: usize, pad_size: usize) -> (size: usize)
    requires
        block_size > 0,
        chunk_size + 1 + 2 * pad_size + block_size <= usize::MAX,
    ensures
        size == round_up(
            (if chunk_size >= 1 {
                chunk_size as int
            } else {
                1
            }) + 2 * pad_size,
            block_size as int,
        ),
{
    let pad_size = pad_size * 2;
    let chunk_size = if chunk_size >= 1 { chunk_size } else { 1 };
    let ghost need = (chunk_size + pad_size) as int;
    let ghost b = block_size as int;
    proof {
        lemma_round_up(need, b);
        let t = need + b - 1;
        vstd::arithmetic::div_mod::lemma_fundamental_div_mod(t, b);
        vstd::arithmetic::div_mod::lemma_mod_bound(t, b);
        vstd::arithmetic::div_mod::lemma_fundamental_div_mod(need, b);
        vstd::arithmetic::div_mod::lemma_mod_bound(need, b);
        // need = b * q + r; t = b * q + r + b - 1
        let q = need / b;
        let r = need % b;
        if r == 0 {
            vstd::arithmetic::div_mod::lemma_fundamental_div_mod_converse(t, b, q, b - 1);
            assert(q * b == b * q) by (nonlinear_arith);
        } else {
            assert(t == (q + 1) * b + (r - 1)) by (nonlinear_arith)
                requires
                    t == need + b - 1,
                    need == b * q + r,
            ;
            vstd::arithmetic::div_mod::lemma_fundamental_div_mod_converse(t, b, q + 1, r - 1);
            assert((q + 1) * b == b * q + b) by (nonlinear_arith);
        }
        vstd::arithmetic::div_mod::lemma_div_pos_is_pos(t, b);
        assert((t / b) * b <= t) by (nonlinear_arith)
            requires
                t == b * (t / b) + t % b,
                t % b >= 0,
        ;
    }
    let chunks = (chunk_size + pad_size + block_size - 1) / block_size;
    chunks * block_size
}

/// The buffer for the next chunk before it is loaded: the last `copy`
/// rows of `prev`, the rows loaded for the chunk before, followed by `load`
/// rows of `fill`; rows are `x_size` wide.
pub fn next_buffer<T: Copy>(prev: &Vec<T>, copy: usize, load: usize, x_size: usize, fill: T) -> (out:
    Vec<T>)
    requires
        copy * x_size <= prev.len(),
        load + copy <= usize::MAX,
        (load + copy) * x_size <= usize::MAX,
    ensures
        out.len() == (load + copy) * x_size,
        forall|i: int|
            0 <= i < copy * x_size ==> #[trigger] out[i] == prev[prev.len() - copy * x_size + i],
        forall|i: int| copy * x_size <= i < out.len() ==> #[trigger] out[i] == fill,
{
    proof {
        assert(copy * x_size <= (load + copy) * x_size) by (nonlinear_arith)
            requires
                x_size >= 0,
                load >= 0,
                copy >= 0,
        ;
    }
    let buf_size: usize = (load + copy) * x_size;
    let copy_size: usize = copy * x_size;
    let offset: usize = prev.len() - copy_size;
    let mut out: Vec<T> = Vec::new();
    let mut i: usize = 0;
    while i < buf_size
        invariant
            i <= buf_size,
            copy_size <= buf_size,
            offset + copy_size == prev.len(),
            out.len() == i,
            forall|k: int| 0 <= k < i && k < copy_size ==> #[trigger] out[k] == prev[offset + k],
            forall|k: int| copy_size <= k < i ==> #[trigger] out[k] == fill,
        decreases buf_size - i,
    {
        if i < copy_size {
            out.push(prev[offset + i]);
        } else {
            out.push(fill);
        }
        i += 1;
    }
    out
}

/// What is kept of a loaded buffer for the next chunk: everything after the
/// first `copy_size` cells, which were carried over themselves.
pub fn loaded_part<T: Copy>(buf: &Vec<T>, copy_size: usize) -> (out: Vec<T>)
    requires
        copy_size <= buf.len(),
    ensures
        out@ == buf@.subrange(copy_size as int, buf.len() as int),
{
    let mut out: Vec<T> = Vec::new();
    let mut i: usize = copy_size;
    while i < buf.len()
        invariant
            copy_size <= i <= buf.len(),
            out@ == buf@.subrange(copy_size as int, i as int),
        decreases buf.len() - i,
    {
        out.push(buf[i]);
        assert(buf@.subrange(copy_size as int, i + 1) =~= buf@.subrange(
            copy_size as int,
            i as int,
        ).push(buf@[i as int]));
        i += 1;
    }
    out
}

} // verus!
