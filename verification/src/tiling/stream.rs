//! What an aggregator computes over a whole stream of rows, and the laws
//! that let a stream be cut into ranges that are aggregated apart.
//!
//! `offer` does one step and hands a merged row back to its caller.  The
//! functions here follow a row all the way up: `cascade` offers a row and
//! then every row merged from it, `feed_all` does so for a sequence of rows.
//! They take the merge as a function `m` from the upper and the lower row
//! to the merged row; `merge_of` is that function for a pair of sample
//! operations whose results are determined by their arguments.

use crate::tiling::aggregator::{
    collide,
    is_offer,
    offer_error,
    overlay,
    same_levels,
    Pyramid,
    Step,
};
use crate::tiling::dem::{
    block_corners,
    can_merge_rows,
    is_quad_cell,
    is_quad_merge,
    is_row_merge,
    lead_row,
    lemma_tile_view_ext,
    quad_source,
    TileRow,
    TileView,
};
use crate::tiling::DataInvariantError;
use vstd::prelude::*;

verus! {

/// The state an aggregator is left in and the merged rows it produced, in
/// the order in which it produced them.
pub struct Run<C> {
    pub pyramid: Pyramid<C>,
    pub produced: Seq<TileRow<C>>,
}

/// Offers `row` in state `p` and then, one level up each time, every row
/// merged from it, until a row is stored, reaches `min_zoom` or is refused.
pub open spec fn cascade<C>(
    p: Pyramid<C>,
    row: TileRow<C>,
    m: spec_fn(Option<TileRow<C>>, Option<TileRow<C>>) -> TileRow<C>,
) -> Result<Run<C>, DataInvariantError>
    decreases row.zoom,
{
    match offer_error(p, row) {
        Some(e) => Err(e),
        None => if row.zoom == p.min_zoom {
            Ok(Run { pyramid: p, produced: Seq::empty() })
        } else if row.y % 2 == 0 {
            Ok(Run { pyramid: p.with_slot(row.zoom as int, Some(row)), produced: Seq::empty() })
        } else {
            let out = m(p.slot(row.zoom as int), Some(row));
            let rest = p.with_slot(row.zoom as int, None);
            if out.zoom + 1 == row.zoom {
                match cascade(rest, out, m) {
                    Ok(r) => Ok(Run { pyramid: r.pyramid, produced: seq![out] + r.produced }),
                    Err(e) => Err(e),
                }
            } else {
                Ok(Run { pyramid: rest, produced: seq![out] })
            }
        },
    }
}

/// Offers the rows of `rows` one after the other, each with its cascade.
pub open spec fn feed_all<C>(
    p: Pyramid<C>,
    rows: Seq<TileRow<C>>,
    m: spec_fn(Option<TileRow<C>>, Option<TileRow<C>>) -> TileRow<C>,
) -> Result<Run<C>, DataInvariantError>
    decreases rows.len(),
{
    if rows.len() == 0 {
        Ok(Run { pyramid: p, produced: Seq::empty() })
    } else {
        match feed_all(p, rows.drop_last(), m) {
            Ok(r) => match cascade(r.pyramid, rows.last(), m) {
                Ok(r2) => Ok(Run { pyramid: r2.pyramid, produced: r.produced + r2.produced }),
                Err(e) => Err(e),
            },
            Err(e) => Err(e),
        }
    }
}

/// The state with every slot empty, for the zooms `min_zoom ..= base_zoom`.
pub open spec fn empty_pyramid<C>(min_zoom: nat, base_zoom: nat) -> Pyramid<C> {
    Pyramid { min_zoom, slots: Seq::new((base_zoom - min_zoom + 1) as nat, |k: int| None) }
}

/// The rows pending in the first `n` slots of `q`, coarsest zoom first.
pub open spec fn pending_upto<C>(q: Pyramid<C>, n: nat) -> Seq<TileRow<C>>
    decreases n,
{
    if n == 0 {
        Seq::empty()
    } else {
        match q.slots[n - 1] {
            Some(r) => pending_upto(q, (n - 1) as nat).push(r),
            None => pending_upto(q, (n - 1) as nat),
        }
    }
}

/// The rows pending in `q` in increasing zoom order.
pub open spec fn pending_rows<C>(q: Pyramid<C>) -> Seq<TileRow<C>> {
    pending_upto(q, q.slots.len())
}

/// No row is pending in `p` at zoom `z`.
pub open spec fn free_at<C>(p: Pyramid<C>, z: int) -> bool {
    0 <= z - p.min_zoom < p.slots.len() ==> p.slots[z - p.min_zoom] is None
}

/// No row is pending in `p` at the zoom of any row of `rows`.
pub open spec fn apart<C>(p: Pyramid<C>, rows: Seq<TileRow<C>>) -> bool {
    forall|i: int| 0 <= i < rows.len() ==> free_at(p, (#[trigger] rows[i]).zoom as int)
}

/// A cascade does not see what is pending at zooms that it does not come
/// to: it runs over `p` as it runs alone, and leaves `p` in place.
pub proof fn lemma_cascade_frame<C>(
    p: Pyramid<C>,
    q: Pyramid<C>,
    row: TileRow<C>,
    m: spec_fn(Option<TileRow<C>>, Option<TileRow<C>>) -> TileRow<C>,
)
    requires
        same_levels(p, q),
        free_at(p, row.zoom as int),
        cascade(q, row, m) is Ok,
        apart(p, cascade(q, row, m)->Ok_0.produced),
    ensures
        cascade(overlay(p, q), row, m) == Ok::<Run<C>, DataInvariantError>(
            Run {
                pyramid: overlay(p, cascade(q, row, m)->Ok_0.pyramid),
                produced: cascade(q, row, m)->Ok_0.produced,
            },
        ),
    decreases row.zoom,
{
    let o = overlay(p, q);
    let z = row.zoom as int;
    let k = z - q.min_zoom;
    assert(offer_error(q, row) is None);
    if row.zoom < q.min_zoom || row.zoom > q.base_zoom() {
    } else {
        assert(p.slots[k] is None);
        assert(o.slot(z) == q.slot(z));
        assert(offer_error(o, row) == offer_error(q, row));
        if row.zoom == q.min_zoom {
            assert(overlay(p, q) == o);
        } else if row.y % 2 == 0 {
            assert(o.with_slot(z, Some(row)).slots =~= overlay(p, q.with_slot(z, Some(row))).slots);
        } else {
            let out = m(q.slot(z), Some(row));
            let rest = q.with_slot(z, None);
            assert(o.with_slot(z, None).slots =~= overlay(p, rest).slots);
            if out.zoom + 1 == row.zoom {
                let r = cascade(rest, out, m)->Ok_0;
                let whole = cascade(q, row, m)->Ok_0;
                assert(whole.produced == seq![out] + r.produced);
                assert(whole.produced[0] == out);
                assert forall|i: int| 0 <= i < r.produced.len() implies free_at(
                    p,
                    (#[trigger] r.produced[i]).zoom as int,
                ) by {
                    assert(whole.produced[i + 1] == r.produced[i]);
                }
                lemma_cascade_frame(p, rest, out, m);
            }
        }
    }
}

/// The same for a sequence of rows.
pub proof fn lemma_feed_frame<C>(
    p: Pyramid<C>,
    q: Pyramid<C>,
    rows: Seq<TileRow<C>>,
    m: spec_fn(Option<TileRow<C>>, Option<TileRow<C>>) -> TileRow<C>,
)
    requires
        same_levels(p, q),
        apart(p, rows),
        feed_all(q, rows, m) is Ok,
        apart(p, feed_all(q, rows, m)->Ok_0.produced),
    ensures
        same_levels(q, feed_all(q, rows, m)->Ok_0.pyramid),
        feed_all(overlay(p, q), rows, m) == Ok::<Run<C>, DataInvariantError>(
            Run {
                pyramid: overlay(p, feed_all(q, rows, m)->Ok_0.pyramid),
                produced: feed_all(q, rows, m)->Ok_0.produced,
            },
        ),
    decreases rows.len(),
{
    if rows.len() > 0 {
        let r1 = feed_all(q, rows.drop_last(), m)->Ok_0;
        let r2 = cascade(r1.pyramid, rows.last(), m)->Ok_0;
        let whole = feed_all(q, rows, m)->Ok_0;
        assert(whole.produced == r1.produced + r2.produced);
        assert forall|i: int| 0 <= i < r1.produced.len() implies free_at(
            p,
            (#[trigger] r1.produced[i]).zoom as int,
        ) by {
            assert(whole.produced[i] == r1.produced[i]);
        }
        assert forall|i: int| 0 <= i < r2.produced.len() implies free_at(
            p,
            (#[trigger] r2.produced[i]).zoom as int,
        ) by {
            assert(whole.produced[r1.produced.len() + i] == r2.produced[i]);
        }
        assert forall|i: int| 0 <= i < rows.drop_last().len() implies free_at(
            p,
            (#[trigger] rows.drop_last()[i]).zoom as int,
        ) by {
            assert(rows.drop_last()[i] == rows[i]);
        }
        assert(free_at(p, rows[rows.len() - 1].zoom as int));
        lemma_feed_frame(p, q, rows.drop_last(), m);
        lemma_cascade_levels(r1.pyramid, rows.last(), m);
        lemma_cascade_frame(p, r1.pyramid, rows.last(), m);
    }
}

/// A cascade keeps the zoom levels of the state.
pub proof fn lemma_cascade_levels<C>(
    p: Pyramid<C>,
    row: TileRow<C>,
    m: spec_fn(Option<TileRow<C>>, Option<TileRow<C>>) -> TileRow<C>,
)
    requires
        cascade(p, row, m) is Ok,
    ensures
        same_levels(p, cascade(p, row, m)->Ok_0.pyramid),
    decreases row.zoom,
{
    if offer_error(p, row) is None && row.zoom != p.min_zoom && row.y % 2 != 0 {
        let out = m(p.slot(row.zoom as int), Some(row));
        if out.zoom + 1 == row.zoom {
            lemma_cascade_levels(p.with_slot(row.zoom as int, None), out, m);
        }
    }
}

/// Feeding `a` and then `b` is feeding `a + b`.
pub proof fn lemma_feed_split<C>(
    p: Pyramid<C>,
    a: Seq<TileRow<C>>,
    b: Seq<TileRow<C>>,
    m: spec_fn(Option<TileRow<C>>, Option<TileRow<C>>) -> TileRow<C>,
)
    ensures
        feed_all(p, a + b, m) == (match feed_all(p, a, m) {
            Ok(ra) => match feed_all(ra.pyramid, b, m) {
                Ok(rb) => Ok(Run { pyramid: rb.pyramid, produced: ra.produced + rb.produced }),
                Err(e) => Err(e),
            },
            Err(e) => Err(e),
        }),
    decreases b.len(),
{
    if b.len() == 0 {
        assert(a + b =~= a);
        if feed_all(p, a, m) is Ok {
            let ra = feed_all(p, a, m)->Ok_0;
            assert(ra.produced + Seq::<TileRow<C>>::empty() =~= ra.produced);
        }
    } else {
        assert((a + b).drop_last() =~= a + b.drop_last());
        assert((a + b).last() == b.last());
        lemma_feed_split(p, a, b.drop_last(), m);
        if feed_all(p, a, m) is Ok {
            let ra = feed_all(p, a, m)->Ok_0;
            if feed_all(ra.pyramid, b.drop_last(), m) is Ok {
                let r1 = feed_all(ra.pyramid, b.drop_last(), m)->Ok_0;
                if cascade(r1.pyramid, b.last(), m) is Ok {
                    let r2 = cascade(r1.pyramid, b.last(), m)->Ok_0;
                    assert((ra.produced + r1.produced) + r2.produced =~= ra.produced + (r1.produced
                        + r2.produced));
                }
            }
        }
    }
}

/// Feeding the pending rows of `q` into `p`, coarsest first, lays them over
/// `p` and merges nothing; it is refused as out of order exactly when a
/// zoom level has a row pending in both.
pub proof fn lemma_feed_pending<C>(
    p: Pyramid<C>,
    q: Pyramid<C>,
    m: spec_fn(Option<TileRow<C>>, Option<TileRow<C>>) -> TileRow<C>,
)
    requires
        same_levels(p, q),
        q.wf(),
    ensures
        feed_all(p, pending_rows(q), m) == (if collide(p, q) {
            Err::<Run<C>, DataInvariantError>(DataInvariantError::OutOfOrder)
        } else {
            Ok::<Run<C>, DataInvariantError>(
                Run { pyramid: overlay(p, q), produced: Seq::empty() },
            )
        }),
{
    lemma_feed_pending_upto(p, q, m, q.slots.len());
    let n = q.slots.len();
    assert(overlay_upto(p, q, n).slots =~= overlay(p, q).slots);
    if collide(p, q) {
        let k = choose|k: int| 0 <= k < p.slots.len() && #[trigger] p.slots[k] is Some && q.slots[k] is Some;
        assert(collide_upto(p, q, n));
    }
}

/// The pending rows of the first `n` slots of `q` laid over those of `p`.
pub open spec fn overlay_upto<C>(p: Pyramid<C>, q: Pyramid<C>, n: nat) -> Pyramid<C> {
    Pyramid {
        min_zoom: p.min_zoom,
        slots: Seq::new(
            p.slots.len(),
            |k: int|
                if k < n && q.slots[k] is Some {
                    q.slots[k]
                } else {
                    p.slots[k]
                },
        ),
    }
}

/// One of the first `n` zoom levels has a row pending in both states.
pub open spec fn collide_upto<C>(p: Pyramid<C>, q: Pyramid<C>, n: nat) -> bool {
    exists|k: int| 0 <= k < n && #[trigger] p.slots[k] is Some && q.slots[k] is Some
}

/// `lemma_feed_pending` for the first `n` slots.
pub proof fn lemma_feed_pending_upto<C>(
    p: Pyramid<C>,
    q: Pyramid<C>,
    m: spec_fn(Option<TileRow<C>>, Option<TileRow<C>>) -> TileRow<C>,
    n: nat,
)
    requires
        same_levels(p, q),
        q.wf(),
        n <= q.slots.len(),
    ensures
        feed_all(p, pending_upto(q, n), m) == (if collide_upto(p, q, n) {
            Err::<Run<C>, DataInvariantError>(DataInvariantError::OutOfOrder)
        } else {
            Ok::<Run<C>, DataInvariantError>(
                Run { pyramid: overlay_upto(p, q, n), produced: Seq::empty() },
            )
        }),
    decreases n,
{
    if n == 0 {
        assert(overlay_upto(p, q, 0).slots =~= p.slots);
    } else {
        let n1 = (n - 1) as nat;
        lemma_feed_pending_upto(p, q, m, n1);
        let before = pending_upto(q, n1);
        if collide_upto(p, q, n1) {
            let k = choose|k: int| 0 <= k < n1 && #[trigger] p.slots[k] is Some && q.slots[k] is Some;
            assert(0 <= k < n && p.slots[k] is Some && q.slots[k] is Some);
        }
        match q.slots[n - 1] {
            None => {
                assert(overlay_upto(p, q, n).slots =~= overlay_upto(p, q, n1).slots);
                if collide_upto(p, q, n) {
                    let k = choose|k: int| 0 <= k < n && #[trigger] p.slots[k] is Some && q.slots[k] is Some;
                    assert(0 <= k < n1 && p.slots[k] is Some && q.slots[k] is Some);
                }
            },
            Some(r) => {
                let rows = before.push(r);
                assert(rows.drop_last() =~= before);
                assert(rows.last() == r);
                if !collide_upto(p, q, n1) {
                    let o = overlay_upto(p, q, n1);
                    assert(o.slot(r.zoom as int) == p.slots[n - 1]);
                    if p.slots[n - 1] is Some {
                        assert(collide_upto(p, q, n));
                        assert(offer_error(o, r) == Some(DataInvariantError::OutOfOrder));
                    } else {
                        assert(o.with_slot(r.zoom as int, Some(r)).slots =~= overlay_upto(
                            p,
                            q,
                            n,
                        ).slots);
                        if collide_upto(p, q, n) {
                            let k = choose|k: int| 0 <= k < n && #[trigger] p.slots[k] is Some && q.slots[k] is Some;
                            assert(0 <= k < n1 && p.slots[k] is Some && q.slots[k] is Some);
                        }
                        assert(Seq::<TileRow<C>>::empty() + Seq::<TileRow<C>>::empty() =~= Seq::<
                            TileRow<C>,
                        >::empty());
                    }
                }
            },
        }
    }
}

/// Parallel reduction equals sequential execution.
///
/// Take two consecutive ranges of rows, `a` and then `b`, such that
/// aggregating `a` alone leaves no row pending at a zoom at which `b`,
/// aggregated alone, offers a row: be it a row of `b` or a row merged from
/// rows of `b`.  Then one aggregator fed with `a` and then `b` ends in the
/// state, and produces the merged rows, of two private aggregators whose
/// states are combined afterwards; and to combine is to feed the rows left
/// pending by the second into the first, coarsest zoom first.
pub proof fn lemma_parallel_is_sequential<C>(
    min_zoom: nat,
    base_zoom: nat,
    a: Seq<TileRow<C>>,
    b: Seq<TileRow<C>>,
    m: spec_fn(Option<TileRow<C>>, Option<TileRow<C>>) -> TileRow<C>,
)
    requires
        min_zoom <= base_zoom,
        feed_all(empty_pyramid(min_zoom, base_zoom), a, m) is Ok,
        feed_all(empty_pyramid(min_zoom, base_zoom), b, m) is Ok,
        apart(feed_all(empty_pyramid(min_zoom, base_zoom), a, m)->Ok_0.pyramid, b),
        apart(
            feed_all(empty_pyramid(min_zoom, base_zoom), a, m)->Ok_0.pyramid,
            feed_all(empty_pyramid(min_zoom, base_zoom), b, m)->Ok_0.produced,
        ),
    ensures
        ({
            let e = empty_pyramid::<C>(min_zoom, base_zoom);
            let ra = feed_all(e, a, m)->Ok_0;
            let rb = feed_all(e, b, m)->Ok_0;
            &&& feed_all(e, a + b, m) == Ok::<Run<C>, DataInvariantError>(
                Run { pyramid: overlay(ra.pyramid, rb.pyramid), produced: ra.produced + rb.produced },
            )
            &&& !collide(ra.pyramid, rb.pyramid)
            &&& rb.pyramid.wf() ==> feed_all(ra.pyramid, pending_rows(rb.pyramid), m) == Ok::<
                Run<C>,
                DataInvariantError,
            >(Run { pyramid: overlay(ra.pyramid, rb.pyramid), produced: Seq::empty() })
        }),
{
    let e = empty_pyramid::<C>(min_zoom, base_zoom);
    let ra = feed_all(e, a, m)->Ok_0;
    let rb = feed_all(e, b, m)->Ok_0;
    lemma_feed_split(e, a, b, m);
    lemma_feed_levels(e, a, m);
    lemma_feed_levels(e, b, m);
    assert(overlay(ra.pyramid, e).slots =~= ra.pyramid.slots);
    assert(overlay(ra.pyramid, e) == ra.pyramid);
    lemma_feed_frame(ra.pyramid, e, b, m);
    lemma_feed_pending_zooms(e, b, m);
    if collide(ra.pyramid, rb.pyramid) {
        let k = choose|k: int|
            0 <= k < ra.pyramid.slots.len() && #[trigger] ra.pyramid.slots[k] is Some
                && rb.pyramid.slots[k] is Some;
        assert(e.slots[k] is None);
        assert(offered_at(b, rb.produced, min_zoom + k));
        if exists|i: int| 0 <= i < b.len() && (#[trigger] b[i]).zoom == min_zoom + k {
            let i = choose|i: int| 0 <= i < b.len() && (#[trigger] b[i]).zoom == min_zoom + k;
            assert(free_at(ra.pyramid, b[i].zoom as int));
        } else {
            let i = choose|i: int|
                0 <= i < rb.produced.len() && (#[trigger] rb.produced[i]).zoom == min_zoom + k;
            assert(free_at(ra.pyramid, rb.produced[i].zoom as int));
        }
        assert(false);
    }
    if rb.pyramid.wf() {
        lemma_feed_pending(ra.pyramid, rb.pyramid, m);
    }
}

/// Feeding rows keeps the zoom levels of the state.
pub proof fn lemma_feed_levels<C>(
    p: Pyramid<C>,
    rows: Seq<TileRow<C>>,
    m: spec_fn(Option<TileRow<C>>, Option<TileRow<C>>) -> TileRow<C>,
)
    requires
        feed_all(p, rows, m) is Ok,
    ensures
        same_levels(p, feed_all(p, rows, m)->Ok_0.pyramid),
    decreases rows.len(),
{
    if rows.len() > 0 {
        lemma_feed_levels(p, rows.drop_last(), m);
        lemma_cascade_levels(feed_all(p, rows.drop_last(), m)->Ok_0.pyramid, rows.last(), m);
    }
}

/// A row of `rows` or of `produced` is at zoom `z`.
pub open spec fn offered_at<C>(rows: Seq<TileRow<C>>, produced: Seq<TileRow<C>>, z: int) -> bool {
    (exists|i: int| 0 <= i < rows.len() && (#[trigger] rows[i]).zoom == z) || (exists|i: int|
        0 <= i < produced.len() && (#[trigger] produced[i]).zoom == z)
}

/// A row that a cascade leaves pending was pending before, or is the row
/// offered or a row merged from it.
pub proof fn lemma_cascade_pending_zooms<C>(
    p: Pyramid<C>,
    row: TileRow<C>,
    m: spec_fn(Option<TileRow<C>>, Option<TileRow<C>>) -> TileRow<C>,
)
    requires
        cascade(p, row, m) is Ok,
    ensures
        forall|k: int|
            0 <= k < p.slots.len() && (#[trigger] cascade(p, row, m)->Ok_0.pyramid.slots[k]) is Some
                ==> p.slots[k] is Some || offered_at(
                seq![row],
                cascade(p, row, m)->Ok_0.produced,
                p.min_zoom + k,
            ),
    decreases row.zoom,
{
    let z = row.zoom as int;
    let after = cascade(p, row, m)->Ok_0;
    if offer_error(p, row) is None && row.zoom != p.min_zoom {
        if row.y % 2 == 0 {
            assert forall|k: int| 0 <= k < p.slots.len() && (#[trigger] after.pyramid.slots[k]) is Some implies p.slots[k] is Some
                || offered_at(seq![row], after.produced, p.min_zoom + k) by {
                if k == z - p.min_zoom {
                    assert(seq![row][0].zoom == p.min_zoom + k);
                }
            }
        } else {
            let out = m(p.slot(z), Some(row));
            let rest = p.with_slot(z, None);
            if out.zoom + 1 == row.zoom {
                lemma_cascade_pending_zooms(rest, out, m);
                let r = cascade(rest, out, m)->Ok_0;
                assert(after.produced == seq![out] + r.produced);
                assert forall|k: int| 0 <= k < p.slots.len() && (#[trigger] after.pyramid.slots[k]) is Some implies p.slots[k] is Some
                    || offered_at(seq![row], after.produced, p.min_zoom + k) by {
                    assert(r.pyramid.slots[k] is Some);
                    if rest.slots[k] is Some {
                        assert(p.slots[k] is Some);
                    } else {
                        assert(offered_at(seq![out], r.produced, p.min_zoom + k));
                        if exists|i: int| 0 <= i < 1 && (#[trigger] seq![out][i]).zoom == p.min_zoom + k {
                            assert(after.produced[0] == out);
                        } else {
                            let i = choose|i: int|
                                0 <= i < r.produced.len() && (#[trigger] r.produced[i]).zoom
                                    == p.min_zoom + k;
                            assert(after.produced[i + 1] == r.produced[i]);
                        }
                    }
                }
            }
        }
    }
}

/// A row that is left pending after rows were fed was pending before, or
/// is one of the rows or a row merged from them.
pub proof fn lemma_feed_pending_zooms<C>(
    p: Pyramid<C>,
    rows: Seq<TileRow<C>>,
    m: spec_fn(Option<TileRow<C>>, Option<TileRow<C>>) -> TileRow<C>,
)
    requires
        feed_all(p, rows, m) is Ok,
    ensures
        forall|k: int|
            0 <= k < p.slots.len() && (#[trigger] feed_all(p, rows, m)->Ok_0.pyramid.slots[k]) is Some
                ==> p.slots[k] is Some || offered_at(
                rows,
                feed_all(p, rows, m)->Ok_0.produced,
                p.min_zoom + k,
            ),
    decreases rows.len(),
{
    if rows.len() > 0 {
        let r1 = feed_all(p, rows.drop_last(), m)->Ok_0;
        let r2 = cascade(r1.pyramid, rows.last(), m)->Ok_0;
        let whole = feed_all(p, rows, m)->Ok_0;
        lemma_feed_pending_zooms(p, rows.drop_last(), m);
        lemma_feed_levels(p, rows.drop_last(), m);
        lemma_cascade_pending_zooms(r1.pyramid, rows.last(), m);
        assert(whole.produced == r1.produced + r2.produced);
        assert forall|k: int| 0 <= k < p.slots.len() && (#[trigger] whole.pyramid.slots[k]) is Some implies p.slots[k] is Some
            || offered_at(rows, whole.produced, p.min_zoom + k) by {
            let z = p.min_zoom + k;
            assert(r2.pyramid.slots[k] is Some);
            if r1.pyramid.slots[k] is Some {
                if p.slots[k] is None {
                    assert(offered_at(rows.drop_last(), r1.produced, z));
                    if exists|i: int| 0 <= i < rows.drop_last().len() && (#[trigger] rows.drop_last()[i]).zoom == z {
                        let i = choose|i: int|
                            0 <= i < rows.drop_last().len() && (#[trigger] rows.drop_last()[i]).zoom
                                == z;
                        assert(rows[i].zoom == z);
                    } else {
                        let i = choose|i: int|
                            0 <= i < r1.produced.len() && (#[trigger] r1.produced[i]).zoom == z;
                        assert(whole.produced[i] == r1.produced[i]);
                    }
                }
            } else {
                assert(offered_at(seq![rows.last()], r2.produced, z));
                if exists|i: int| 0 <= i < 1 && (#[trigger] seq![rows.last()][i]).zoom == z {
                    assert(rows[rows.len() - 1].zoom == z);
                } else {
                    let i = choose|i: int|
                        0 <= i < r2.produced.len() && (#[trigger] r2.produced[i]).zoom == z;
                    assert(whole.produced[r1.produced.len() + i] == r2.produced[i]);
                }
            }
        }
    }
}

/// The results of `average` are determined by its arguments.
pub open spec fn is_function<C, F: Fn(C, C, C, C) -> C>(average: &F) -> bool {
    forall|a: C, b: C, c: C, d: C, r1: C, r2: C|
        #![trigger average.ensures((a, b, c, d), r1), average.ensures((a, b, c, d), r2)]
        average.ensures((a, b, c, d), r1) && average.ensures((a, b, c, d), r2) ==> r1 == r2
}

/// With such an `average`, a quad-merge has one result.
pub proof fn lemma_quad_merge_unique<C, F: Fn(C, C, C, C) -> C>(
    corners: Seq<Option<TileView<C>>>,
    absent: C,
    average: &F,
    o1: TileView<C>,
    o2: TileView<C>,
)
    requires
        is_function(average),
        is_quad_merge(corners, absent, average, o1),
        is_quad_merge(corners, absent, average, o2),
    ensures
        o1 == o2,
{
    assert forall|r: int, c: int| 0 <= r < o1.rows && 0 <= c < o1.cols implies o1.at(r, c)
        == o2.at(r, c) by {
        let v1 = o1.at(r, c);
        let v2 = o2.at(r, c);
        assert(is_quad_cell(corners, absent, average, o1.rows as int, o1.cols as int, r, c, v1));
        assert(is_quad_cell(corners, absent, average, o2.rows as int, o2.cols as int, r, c, v2));
        let (k, sr, sc) = quad_source(o1.rows as int, o1.cols as int, r, c);
        match corners[k] {
            None => {},
            Some(t) => {
                let args = (t.at(sr, sc), t.at(sr + 1, sc), t.at(sr, sc + 1), t.at(sr + 1, sc + 1));
                assert(average.ensures(args, v1) && average.ensures(args, v2));
            },
        }
    }
    lemma_tile_view_ext(o1, o2);
}

/// With such an `average`, a merge of two rows has one result.
pub proof fn lemma_row_merge_unique<C, F: Fn(C, C, C, C) -> C>(
    top: Option<TileRow<C>>,
    bottom: Option<TileRow<C>>,
    absent: C,
    average: &F,
    o1: TileRow<C>,
    o2: TileRow<C>,
)
    requires
        is_function(average),
        is_row_merge(top, bottom, absent, average, o1),
        is_row_merge(top, bottom, absent, average, o2),
    ensures
        o1 == o2,
{
    assert forall|i: int| 0 <= i < o1.tiles.len() implies o1.tiles[i] == o2.tiles[i] by {
        lemma_quad_merge_unique(
            block_corners(top, bottom, o1.left + i),
            absent,
            average,
            o1.tiles[i],
            o2.tiles[i],
        );
    }
    assert(o1.tiles =~= o2.tiles);
}

/// The merge of two rows as a function, for sample operations whose
/// results are determined by their arguments.
pub open spec fn merge_of<C, F: Fn(C, C, C, C) -> C>(absent: C, average: &F) -> spec_fn(
    Option<TileRow<C>>,
    Option<TileRow<C>>,
) -> TileRow<C> {
    |top: Option<TileRow<C>>, bottom: Option<TileRow<C>>|
        choose|out: TileRow<C>| is_row_merge(top, bottom, absent, average, out)
}

/// What `offer` hands back is what `merge_of` names.
pub proof fn lemma_merge_of<C, F: Fn(C, C, C, C) -> C>(
    top: Option<TileRow<C>>,
    bottom: Option<TileRow<C>>,
    absent: C,
    average: &F,
    out: TileRow<C>,
)
    requires
        is_function(average),
        is_row_merge(top, bottom, absent, average, out),
    ensures
        merge_of(absent, average)(top, bottom) == out,
{
    let picked = merge_of(absent, average)(top, bottom);
    assert(is_row_merge(top, bottom, absent, average, picked));
    lemma_row_merge_unique(top, bottom, absent, average, picked, out);
}

/// One call of `offer` is one step of `cascade`: where a row is refused,
/// done or stored the cascade ends there, and where it is merged the cascade
/// goes on with the merged row in the state that the call left.
pub proof fn lemma_offer_is_cascade_step<C, F: Fn(C, C, C, C) -> C>(
    pre: Pyramid<C>,
    row: TileRow<C>,
    absent: C,
    average: &F,
    post: Pyramid<C>,
    res: Result<Step<C>, DataInvariantError>,
)
    requires
        pre.wf(),
        is_function(average),
        is_offer(pre, row, absent, average, post, res),
    ensures
        ({
            let m = merge_of(absent, average);
            match res {
                Err(e) => cascade(pre, row, m) == Err::<Run<C>, DataInvariantError>(e),
                Ok(Step::Merged(out)) => {
                    &&& out@ == m(pre.slot(row.zoom as int), Some(row))
                    &&& cascade(pre, row, m) == (match cascade(post, out@, m) {
                        Ok(r) => Ok::<Run<C>, DataInvariantError>(
                            Run { pyramid: r.pyramid, produced: seq![out@] + r.produced },
                        ),
                        Err(e) => Err(e),
                    })
                },
                Ok(_) => cascade(pre, row, m) == Ok::<Run<C>, DataInvariantError>(
                    Run { pyramid: post, produced: Seq::empty() },
                ),
            }
        }),
{
    let m = merge_of(absent, average);
    match res {
        Ok(Step::Merged(out)) => {
            lemma_merge_of(pre.slot(row.zoom as int), Some(row), absent, average, out@);
            let k = row.zoom - pre.min_zoom;
            assert(pre.slots[k] matches Some(t) ==> t.zoom == row.zoom);
        },
        _ => {},
    }
}

/// `m` merges rows as a merge must: where its arguments can be merged, the
/// result is a well-formed row one zoom up, at half the row index, over
/// the halved range, of tiles of the same size.
pub open spec fn is_merge<C>(
    m: spec_fn(Option<TileRow<C>>, Option<TileRow<C>>) -> TileRow<C>,
) -> bool {
    forall|top: Option<TileRow<C>>, bottom: Option<TileRow<C>>|
        #![trigger m(top, bottom)]
        can_merge_rows(top, bottom) ==> {
            let out = m(top, bottom);
            let lead = lead_row(top, bottom);
            &&& out.wf()
            &&& out.zoom == lead.zoom - 1
            &&& out.y == lead.y / 2
            &&& out.left == lead.left / 2
            &&& out.right == (lead.right - 1) / 2 + 1
            &&& out.tiles[0].rows == lead.tiles[0].rows
            &&& out.tiles[0].cols == lead.tiles[0].cols
        }
}

/// Where every pair of rows that can be merged has a merge under `absent`
/// and `average`, `merge_of` merges rows as a merge must.
pub proof fn lemma_merge_of_is_merge<C, F: Fn(C, C, C, C) -> C>(absent: C, average: &F)
    requires
        forall|top: Option<TileRow<C>>, bottom: Option<TileRow<C>>|
            can_merge_rows(top, bottom) ==> exists|out: TileRow<C>| #[trigger]
                is_row_merge(top, bottom, absent, average, out),
    ensures
        is_merge(merge_of(absent, average)),
{
    let m = merge_of(absent, average);
    assert forall|top: Option<TileRow<C>>, bottom: Option<TileRow<C>>|
        #![trigger m(top, bottom)]
        can_merge_rows(top, bottom) implies {
        let out = m(top, bottom);
        let lead = lead_row(top, bottom);
        &&& out.wf()
        &&& out.zoom == lead.zoom - 1
        &&& out.y == lead.y / 2
        &&& out.left == lead.left / 2
        &&& out.right == (lead.right - 1) / 2 + 1
        &&& out.tiles[0].rows == lead.tiles[0].rows
        &&& out.tiles[0].cols == lead.tiles[0].cols
    } by {
        let some = choose|out: TileRow<C>| #[trigger]
            is_row_merge(top, bottom, absent, average, out);
        assert(is_row_merge(top, bottom, absent, average, m(top, bottom)));
    }
}

/// Winding a pyramid up: as long as a row is pending, the one at the finest
/// zoom is merged alone, its lower neighbour counting as absent, and the
/// merged row is offered one zoom up with its cascade.  At most `fuel` rows
/// are taken.
pub open spec fn wind_up<C>(
    p: Pyramid<C>,
    m: spec_fn(Option<TileRow<C>>, Option<TileRow<C>>) -> TileRow<C>,
    fuel: nat,
) -> Result<Run<C>, DataInvariantError>
    decreases fuel,
{
    if fuel == 0 || p.is_empty() {
        Ok(Run { pyramid: p, produced: Seq::empty() })
    } else {
        let z = p.finest_pending();
        let out = m(p.slot(z), None);
        match cascade(p.with_slot(z, None), out, m) {
            Err(e) => Err(e),
            Ok(r) => match wind_up(r.pyramid, m, (fuel - 1) as nat) {
                Err(e) => Err(e),
                Ok(r2) => Ok(
                    Run { pyramid: r2.pyramid, produced: seq![out] + r.produced + r2.produced },
                ),
            },
        }
    }
}

/// No row is pending at a zoom finer than `z`.
pub open spec fn clear_beyond<C>(p: Pyramid<C>, z: int) -> bool {
    forall|k: int| 0 <= k < p.slots.len() && p.min_zoom + k > z ==> #[trigger] p.slots[k] is None
}

/// The finest pending row of a state that has one: it is pending, nothing
/// finer is, and it lies above `min_zoom`.
pub proof fn lemma_finest_pending<C>(p: Pyramid<C>)
    requires
        p.wf(),
        !p.is_empty(),
    ensures
        p.min_zoom < p.finest_pending() <= p.base_zoom(),
        p.slot(p.finest_pending()) is Some,
        clear_beyond(p, p.finest_pending()),
    decreases p.slots.len(),
{
    let n = p.slots.len() as int;
    if p.slots.last() is Some {
        assert(p.slots[n - 1] is Some);
    } else {
        let q = Pyramid { min_zoom: p.min_zoom, slots: p.slots.drop_last() };
        assert(!q.is_empty()) by {
            if q.is_empty() {
                assert forall|k: int| 0 <= k < p.slots.len() implies #[trigger] p.slots[k] is None by {
                    if k < n - 1 {
                        assert(q.slots[k] is None);
                    }
                }
            }
        }
        assert(q.wf()) by {
            assert(q.slots[0] == p.slots[0]);
            assert forall|k: int| 0 <= k < q.slots.len() implies (#[trigger] q.slots[k] matches Some(
                r,
            ) ==> r.wf() && r.zoom == q.min_zoom + k && r.y % 2 == 0) by {
                assert(q.slots[k] == p.slots[k]);
            }
        }
        lemma_finest_pending(q);
        assert(q.slot(q.finest_pending()) == p.slot(p.finest_pending()));
        assert forall|k: int|
            0 <= k < p.slots.len() && p.min_zoom + k > p.finest_pending() implies #[trigger] p.slots[k] is None by {
            if k < n - 1 {
                assert(q.slots[k] is None);
            }
        }
    }
}

/// A cascade keeps a state well formed and leaves the zooms finer than its
/// row alone.
pub proof fn lemma_cascade_keeps<C>(
    p: Pyramid<C>,
    row: TileRow<C>,
    m: spec_fn(Option<TileRow<C>>, Option<TileRow<C>>) -> TileRow<C>,
)
    requires
        p.wf(),
        row.wf(),
        is_merge(m),
        cascade(p, row, m) is Ok,
    ensures
        cascade(p, row, m)->Ok_0.pyramid.wf(),
        same_levels(p, cascade(p, row, m)->Ok_0.pyramid),
        forall|k: int|
            0 <= k < p.slots.len() && p.min_zoom + k > row.zoom ==> cascade(
                p,
                row,
                m,
            )->Ok_0.pyramid.slots[k] == #[trigger] p.slots[k],
    decreases row.zoom,
{
    let z = row.zoom as int;
    if offer_error(p, row) is None && row.zoom != p.min_zoom {
        let k = z - p.min_zoom;
        if row.y % 2 == 0 {
            let q = p.with_slot(z, Some(row));
            assert(q.slots[0] == p.slots[0]);
        } else {
            let top = p.slot(z);
            assert(p.slots[k] matches Some(t) ==> t.wf() && t.zoom == z && t.y % 2 == 0);
            assert(can_merge_rows(top, Some(row)));
            let out = m(top, Some(row));
            let rest = p.with_slot(z, None);
            assert(rest.wf()) by {
                assert(rest.slots[0] is None);
            }
            assert(out.zoom + 1 == row.zoom);
            lemma_cascade_keeps(rest, out, m);
            let after = cascade(rest, out, m)->Ok_0.pyramid;
            assert(cascade(p, row, m)->Ok_0.pyramid == after);
            assert forall|i: int|
                0 <= i < p.slots.len() && p.min_zoom + i > row.zoom implies after.slots[i]
                    == #[trigger] p.slots[i] by {
                assert(after.slots[i] == rest.slots[i]);
            }
        }
    }
}

/// Winding up empties the pyramid: with fuel for one row per zoom level, no
/// row is left pending.
pub proof fn lemma_wind_up_empties<C>(
    p: Pyramid<C>,
    m: spec_fn(Option<TileRow<C>>, Option<TileRow<C>>) -> TileRow<C>,
    fuel: nat,
)
    requires
        p.wf(),
        is_merge(m),
        wind_up(p, m, fuel) is Ok,
        p.is_empty() || fuel >= p.finest_pending() - p.min_zoom,
    ensures
        wind_up(p, m, fuel)->Ok_0.pyramid.is_empty(),
        wind_up(p, m, fuel)->Ok_0.pyramid.wf(),
    decreases fuel,
{
    if !p.is_empty() {
        lemma_finest_pending(p);
        let z = p.finest_pending();
        let k = z - p.min_zoom;
        assert(p.slots[k] matches Some(t) ==> t.wf() && t.zoom == z && t.y % 2 == 0);
        assert(can_merge_rows(p.slot(z), None));
        let out = m(p.slot(z), None);
        let rest = p.with_slot(z, None);
        assert(rest.wf()) by {
            assert(rest.slots[0] is None);
        }
        lemma_cascade_keeps(rest, out, m);
        let r = cascade(rest, out, m)->Ok_0;
        // nothing is pending at zoom z or finer any more
        assert(clear_beyond(r.pyramid, z - 1)) by {
            assert forall|i: int|
                0 <= i < r.pyramid.slots.len() && r.pyramid.min_zoom + i > z - 1 implies #[trigger] r.pyramid.slots[i] is None by {
                assert(r.pyramid.slots[i] == rest.slots[i]);
                if i != k {
                    assert(p.slots[i] is None);
                }
            }
        }
        if !r.pyramid.is_empty() {
            lemma_finest_pending(r.pyramid);
            let z2 = r.pyramid.finest_pending();
            assert(z2 <= z - 1) by {
                if z2 > z - 1 {
                    assert(r.pyramid.slots[z2 - r.pyramid.min_zoom] is None);
                }
            }
        }
        lemma_wind_up_empties(r.pyramid, m, (fuel - 1) as nat);
    }
}

/// One call of `flush_next` is one step of winding up: it takes the row
/// pending at the finest zoom and hands back what `m` makes of it alone.
pub proof fn lemma_flush_is_wind_up_step<C, F: Fn(C, C, C, C) -> C>(
    p: Pyramid<C>,
    absent: C,
    average: &F,
    out: TileRow<C>,
    fuel: nat,
)
    requires
        p.wf(),
        !p.is_empty(),
        is_function(average),
        is_row_merge(p.slot(p.finest_pending()), None, absent, average, out),
        fuel > 0,
    ensures
        ({
            let m = merge_of(absent, average);
            let rest = p.with_slot(p.finest_pending(), None);
            &&& out == m(p.slot(p.finest_pending()), None)
            &&& wind_up(p, m, fuel) == (match cascade(rest, out, m) {
                Err(e) => Err::<Run<C>, DataInvariantError>(e),
                Ok(r) => match wind_up(r.pyramid, m, (fuel - 1) as nat) {
                    Err(e) => Err(e),
                    Ok(r2) => Ok(
                        Run {
                            pyramid: r2.pyramid,
                            produced: seq![out] + r.produced + r2.produced,
                        },
                    ),
                },
            })
        }),
{
    lemma_merge_of(p.slot(p.finest_pending()), None, absent, average, out);
}

} // verus!
