//! The spatial index of a pyramid: which tiles were written, and what the
//! codec recorded of each.

use std::collections::HashMap;
use vstd::prelude::*;

verus! {

broadcast use vstd::std_specs::hash::group_hash_axioms;

/// The tiles of one tile row: tile column to what was recorded of the tile.
pub struct YIndex<S> {
    y: usize,
    index: HashMap<usize, S>,
}

impl<S: Copy> YIndex<S> {
    /// The tile row.
    pub closed spec fn row(&self) -> usize {
        self.y
    }

    /// Tile column to record.
    pub closed spec fn entries(&self) -> Map<usize, S> {
        self.index@
    }

    /// The empty index of tile row `y`.
    pub fn new(y: usize) -> (idx: Self)
        ensures
            idx.row() == y,
            idx.entries() == Map::<usize, S>::empty(),
    {
        YIndex { y, index: HashMap::new() }
    }

    /// The tile row.
    pub fn y(&self) -> (y: usize)
        ensures
            y == self.row(),
    {
        self.y
    }

    /// The record of tile column `x`, if there is one.
    pub fn get(&self, x: usize) -> (s: Option<S>)
        ensures
            s == (if self.entries().contains_key(x) {
                Some(self.entries()[x])
            } else {
                None
            }),
    {
        match self.index.get(&x) {
            Some(s) => Some(*s),
            None => None,
        }
    }

    /// Records `cfg` for tile column `x`, in place of what was there.
    pub fn add_to_index(&mut self, x: usize, cfg: S)
        ensures
            final(self).row() == old(self).row(),
            final(self).entries() == old(self).entries().insert(x, cfg),
    {
        self.index.insert(x, cfg);
    }

    /// Takes over every record of `other`, an index of the same tile row;
    /// where both have a record of a column, that of `other` stays.
    pub fn combine(&mut self, other: &YIndex<S>)
        requires
            old(self).row() == other.row(),
        ensures
            final(self).row() == old(self).row(),
            final(self).entries() == old(self).entries().union_prefer_right(other.entries()),
    {
        let ghost before = self.index@;
        let ghost mut seen: Set<usize> = Set::empty();
        for k in it: other.index.keys()
            invariant
                self.y == old(self).y,
                before == old(self).index@,
                it.seq().unref().to_set() == other.index@.dom(),
                forall|x: usize|
                    seen.contains(x) <==> exists|j: int|
                        0 <= j < it.index() && #[trigger] it.seq().unref()[j] == x,
                it.index() == it.seq().len() ==> forall|x: usize|
                    seen.contains(x) == other.index@.contains_key(x),
                forall|x: usize|
                    #![trigger self.index@.contains_key(x)]
                    #![trigger seen.contains(x)]
                    #![trigger before.contains_key(x)]
                    self.index@.contains_key(x) <==> before.contains_key(x) || seen.contains(x),
                forall|x: usize| #[trigger]
                    self.index@.contains_key(x) ==> self.index@[x] == (if seen.contains(x) {
                        other.index@[x]
                    } else {
                        before[x]
                    }),
        {
            let ghost i = it.index();
            let ghost keys = it.seq().unref();
            let ghost held = self.index@;
            assert(keys[i] == *k);
            assert(keys.to_set().contains(*k));
            assert(other.index@.contains_key(*k));
            let s = *other.index.get(k).unwrap();
            self.index.insert(*k, s);
            let ghost earlier = seen;
            proof {
                seen = seen.insert(*k);
                assert(self.index@ == held.insert(*k, s));
                assert forall|x: usize|
                    self.index@.contains_key(x) <==> before.contains_key(x) || seen.contains(x) by {
                    assert(held.contains_key(x) <==> before.contains_key(x) || earlier.contains(x));
                }
                assert forall|x: usize| #[trigger] self.index@.contains_key(x) implies self.index@[x] == (
                if seen.contains(x) {
                    other.index@[x]
                } else {
                    before[x]
                }) by {
                    if x != *k {
                        assert(held.contains_key(x));
                    }
                }
            }
            proof {
                assert forall|x: usize|
                    seen.contains(x) <==> exists|j: int| 0 <= j < i + 1 && #[trigger] keys[j] == x by {
                    if x == *k {
                    } else if earlier.contains(x) {
                        let j = choose|j: int| 0 <= j < i && #[trigger] keys[j] == x;
                        assert(0 <= j < i + 1 && keys[j] == x);
                    } else if exists|j: int| 0 <= j < i + 1 && #[trigger] keys[j] == x {
                        let j = choose|j: int| 0 <= j < i + 1 && #[trigger] keys[j] == x;
                        assert(j < i);
                    }
                }
                assert forall|x: usize| i + 1 == keys.len() implies seen.contains(x)
                    == other.index@.contains_key(x) by {
                    if other.index@.contains_key(x) {
                        assert(keys.to_set().contains(x));
                        assert(keys.contains(x));
                    }
                    if seen.contains(x) {
                        let j = choose|j: int| 0 <= j < i + 1 && #[trigger] keys[j] == x;
                        assert(keys.contains(x));
                        assert(keys.to_set().contains(x));
                    }
                }
            }
        }
        proof {
            let joined = before.union_prefer_right(other.index@);
            assert forall|x: usize| self.index@.contains_key(x) == joined.contains_key(x) by {
                assert(seen.contains(x) == other.index@.contains_key(x));
            }
            assert forall|x: usize| #[trigger] self.index@.contains_key(x) implies self.index@[x]
                == joined[x] by {
                assert(seen.contains(x) == other.index@.contains_key(x));
            }
            assert(self.index@ =~= joined);
        }
    }
}

/// The keys of a map, each once, in no particular order.
pub fn key_list<V>(m: &HashMap<usize, V>) -> (keys: Vec<usize>)
    ensures
        keys@.no_duplicates(),
        forall|x: usize| keys@.contains(x) <==> m@.contains_key(x),
{
    let mut keys: Vec<usize> = Vec::new();
    for k in it: m.keys()
        invariant
            it.seq().unref().to_set() == m@.dom(),
            it.seq().no_duplicates(),
            keys@ == it.seq().unref().take(it.index()),
            keys@.no_duplicates(),
            it.index() == it.seq().len() ==> forall|x: usize|
                keys@.contains(x) <==> m@.contains_key(x),
    {
        let ghost all = it.seq().unref();
        let ghost i = it.index();
        let ghost before = keys@;
        assert(all[i] == *k);
        keys.push(*k);
        proof {
            assert(all.take(i + 1) =~= all.take(i).push(*k));
            assert forall|p: int, q: int| 0 <= p < keys@.len() && 0 <= q < keys@.len() && p != q implies keys@[p]
                != keys@[q] by {
                assert(keys@[p] == all[p] && keys@[q] == all[q]);
                assert(it.seq()[p] != it.seq()[q]);
            }
            assert forall|x: usize| i + 1 == all.len() implies (keys@.contains(x) <==> m@.contains_key(
                x,
            )) by {
                assert(keys@ =~= all);
                if keys@.contains(x) {
                    assert(all.to_set().contains(x));
                }
                if m@.contains_key(x) {
                    assert(all.to_set().contains(x));
                    assert(all.contains(x));
                }
            }
        }
    }
    keys
}

/// The index of a pyramid: zoom to tile row to the index of that row.
pub struct Index<S> {
    index: HashMap<usize, HashMap<usize, YIndex<S>>>,
}

/// The rows of one zoom level as a map from tile row to tile column to
/// record.
pub open spec fn level_entries<S: Copy>(level: HashMap<usize, YIndex<S>>) -> Map<
    usize,
    Map<usize, S>,
> {
    Map::new(|y: usize| level@.contains_key(y), |y: usize| level@[y].entries())
}

/// What an index holds after it took over another: at each zoom the rows
/// of both, a row of the other replacing the same row here.
pub open spec fn merged_entries<S>(
    a: Map<usize, Map<usize, Map<usize, S>>>,
    b: Map<usize, Map<usize, Map<usize, S>>>,
) -> Map<usize, Map<usize, Map<usize, S>>> {
    Map::new(
        |z: usize| a.contains_key(z) || b.contains_key(z),
        |z: usize|
            if a.contains_key(z) && b.contains_key(z) {
                a[z].union_prefer_right(b[z])
            } else if b.contains_key(z) {
                b[z]
            } else {
                a[z]
            },
    )
}

impl<S: Copy> YIndex<S> {
    /// A copy with the same tile row and records.
    pub fn duplicate(&self) -> (idx: Self)
        ensures
            idx.row() == self.row(),
            idx.entries() == self.entries(),
    {
        let mut idx = YIndex::new(self.y);
        idx.combine(self);
        assert(idx.entries() =~= self.entries());
        idx
    }

    /// The tile columns that have a record, each once.
    pub fn columns(&self) -> (xs: Vec<usize>)
        ensures
            xs@.no_duplicates(),
            forall|x: usize| xs@.contains(x) <==> self.entries().contains_key(x),
    {
        key_list(&self.index)
    }
}

impl<S: Copy> Index<S> {
    /// Zoom to tile row to tile column to record.
    pub closed spec fn entries(&self) -> Map<usize, Map<usize, Map<usize, S>>> {
        Map::new(
            |z: usize| self.index@.contains_key(z),
            |z: usize| level_entries(self.index@[z]),
        )
    }

    /// The empty index.
    pub fn new() -> (idx: Self)
        ensures
            idx.entries() == Map::<usize, Map<usize, Map<usize, S>>>::empty(),
    {
        let idx = Index { index: HashMap::new() };
        assert(idx.entries() =~= Map::<usize, Map<usize, Map<usize, S>>>::empty());
        idx
    }

    /// Files the index of one tile row under `zoom`, in place of what was
    /// filed there for that row.
    pub fn update_index(&mut self, zoom: usize, idx: YIndex<S>)
        ensures
            final(self).entries() == old(self).entries().insert(
                zoom,
                (if old(self).entries().contains_key(zoom) {
                    old(self).entries()[zoom]
                } else {
                    Map::empty()
                }).insert(idx.row(), idx.entries()),
            ),
    {
        let y = idx.y();
        self.file_row(zoom, y, idx);
    }

    /// Files `idx` as tile row `y` of `zoom`.
    fn file_row(&mut self, zoom: usize, y: usize, idx: YIndex<S>)
        ensures
            final(self).entries() == old(self).entries().insert(
                zoom,
                (if old(self).entries().contains_key(zoom) {
                    old(self).entries()[zoom]
                } else {
                    Map::empty()
                }).insert(y, idx.entries()),
            ),
    {
        let ghost before = self.index@;
        let mut level = match self.index.remove(&zoom) {
            Some(level) => level,
            None => HashMap::new(),
        };
        let ghost lower = level_entries(level);
        assert(lower =~= (if before.contains_key(zoom) {
            level_entries(before[zoom])
        } else {
            Map::empty()
        }));
        level.insert(y, idx);
        assert(level_entries(level) =~= lower.insert(y, idx.entries()));
        self.index.insert(zoom, level);
        assert(self.entries() =~= old(self).entries().insert(zoom, lower.insert(y, idx.entries())));
    }

    /// The zoom levels that have rows, each once.
    pub fn zooms(&self) -> (zs: Vec<usize>)
        ensures
            zs@.no_duplicates(),
            forall|z: usize| zs@.contains(z) <==> self.entries().contains_key(z),
    {
        key_list(&self.index)
    }

    /// The tile rows filed under `zoom`, each once.
    pub fn rows(&self, zoom: usize) -> (ys: Vec<usize>)
        ensures
            !self.entries().contains_key(zoom) ==> ys@.len() == 0,
            self.entries().contains_key(zoom) ==> ys@.no_duplicates() && forall|y: usize|
                ys@.contains(y) <==> self.entries()[zoom].contains_key(y),
    {
        match self.index.get(&zoom) {
            Some(level) => key_list(level),
            None => Vec::new(),
        }
    }

    /// The index of tile row `y` at `zoom`, if one is filed.
    pub fn row(&self, zoom: usize, y: usize) -> (idx: Option<&YIndex<S>>)
        ensures
            idx is Some <==> self.entries().contains_key(zoom) && self.entries()[zoom].contains_key(y),
            idx matches Some(i) ==> i.entries() == self.entries()[zoom][y],
    {
        match self.index.get(&zoom) {
            Some(level) => level.get(&y),
            None => None,
        }
    }

    /// Takes over the rows of one zoom level: those of `level` are added to
    /// the rows filed under `zoom`, replacing the rows they share.
    fn merge_level(&mut self, zoom: usize, level: &HashMap<usize, YIndex<S>>)
        ensures
            final(self).entries() == old(self).entries().insert(
                zoom,
                (if old(self).entries().contains_key(zoom) {
                    old(self).entries()[zoom]
                } else {
                    Map::empty()
                }).union_prefer_right(level_entries(*level)),
            ),
    {
        let ghost before = self.index@;
        let mut mine = match self.index.remove(&zoom) {
            Some(mine) => mine,
            None => HashMap::new(),
        };
        let ghost start = level_entries(mine);
        let ghost add = level_entries(*level);
        assert(start =~= (if before.contains_key(zoom) {
            level_entries(before[zoom])
        } else {
            Map::empty()
        }));
        let ys = key_list(level);
        let mut j: usize = 0;
        while j < ys.len()
            invariant
                j <= ys.len(),
                add == level_entries(*level),
                forall|y: usize| ys@.contains(y) <==> level@.contains_key(y),
                forall|y: usize|
                    #![trigger level_entries(mine).contains_key(y)]
                    level_entries(mine).contains_key(y) <==> start.contains_key(y) || ys@.take(
                        j as int,
                    ).contains(y),
                forall|y: usize| #[trigger]
                    level_entries(mine).contains_key(y) ==> level_entries(mine)[y] == (if ys@.take(
                        j as int,
                    ).contains(y) {
                        add[y]
                    } else {
                        start[y]
                    }),
            decreases ys.len() - j,
        {
            let y = ys[j];
            assert(ys@.contains(y));
            let ghost seen = ys@.take(j as int);
            let ghost held = level_entries(mine);
            let copy = level.get(&y).unwrap().duplicate();
            mine.insert(y, copy);
            proof {
                let next = ys@.take(j + 1);
                assert(next =~= seen.push(y));
                assert(level_entries(mine) =~= held.insert(y, add[y]));
                assert forall|q: usize| next.contains(q) <==> seen.contains(q) || q == y by {
                    if seen.contains(q) {
                        let k = choose|k: int| 0 <= k < seen.len() && seen[k] == q;
                        assert(next[k] == q);
                    }
                    if q == y {
                        assert(next[j as int] == y);
                    }
                    if next.contains(q) {
                        let k = choose|k: int| 0 <= k < next.len() && next[k] == q;
                        if k < j {
                            assert(seen[k] == q);
                        }
                    }
                }
                assert forall|q: usize|
                    #![trigger level_entries(mine).contains_key(q)]
                    level_entries(mine).contains_key(q) <==> start.contains_key(q) || next.contains(
                        q,
                    ) by {
                    assert(held.contains_key(q) <==> start.contains_key(q) || seen.contains(q));
                }
                assert forall|q: usize| #[trigger]
                    level_entries(mine).contains_key(q) implies level_entries(mine)[q] == (
                if next.contains(q) {
                    add[q]
                } else {
                    start[q]
                }) by {
                    if q != y {
                        assert(held.contains_key(q));
                    }
                }
            }
            j += 1;
        }
        proof {
            assert(ys@.take(ys.len() as int) =~= ys@);
            assert(level_entries(mine) =~= start.union_prefer_right(add));
        }
        let ghost joined = level_entries(mine);
        self.index.insert(zoom, mine);
        assert(self.entries() =~= old(self).entries().insert(zoom, joined));
    }

    /// Takes over every row of `rhs`: at each zoom the rows of both are
    /// kept, and a row of `rhs` replaces the same row here.
    pub fn merge(&mut self, rhs: &Index<S>)
        ensures
            final(self).entries() == merged_entries(old(self).entries(), rhs.entries()),
    {
        let ghost a = self.entries();
        let ghost b = rhs.entries();
        let zs = key_list(&rhs.index);
        let mut i: usize = 0;
        while i < zs.len()
            invariant
                i <= zs.len(),
                a == old(self).entries(),
                b == rhs.entries(),
                zs@.no_duplicates(),
                forall|z: usize| zs@.contains(z) <==> rhs.index@.contains_key(z),
                forall|z: usize|
                    #![trigger self.entries().contains_key(z)]
                    self.entries().contains_key(z) <==> a.contains_key(z) || zs@.take(
                        i as int,
                    ).contains(z),
                forall|z: usize| #[trigger]
                    self.entries().contains_key(z) ==> self.entries()[z] == (if zs@.take(
                        i as int,
                    ).contains(z) {
                        merged_entries(a, b)[z]
                    } else {
                        a[z]
                    }),
            decreases zs.len() - i,
        {
            let z = zs[i];
            assert(zs@.contains(z));
            let ghost done = zs@.take(i as int);
            assert(!done.contains(z)) by {
                if done.contains(z) {
                    let j = choose|j: int| 0 <= j < done.len() && done[j] == z;
                    assert(zs@[j] == z && zs@[i as int] == z);
                }
            }
            let ghost held = self.entries();
            self.merge_level(z, rhs.index.get(&z).unwrap());
            proof {
                let next = zs@.take(i + 1);
                assert(next =~= done.push(z));
                assert(b.contains_key(z));
                assert(held.contains_key(z) <==> a.contains_key(z));
                assert(self.entries()[z] =~= merged_entries(a, b)[z]);
                assert forall|q: usize| next.contains(q) <==> done.contains(q) || q == z by {
                    if done.contains(q) {
                        let k = choose|k: int| 0 <= k < done.len() && done[k] == q;
                        assert(next[k] == q);
                    }
                    if q == z {
                        assert(next[i as int] == z);
                    }
                    if next.contains(q) {
                        let k = choose|k: int| 0 <= k < next.len() && next[k] == q;
                        if k < i {
                            assert(done[k] == q);
                        }
                    }
                }
                assert forall|q: usize|
                    #![trigger self.entries().contains_key(q)]
                    self.entries().contains_key(q) <==> a.contains_key(q) || next.contains(q) by {
                    assert(held.contains_key(q) <==> a.contains_key(q) || done.contains(q));
                }
                assert forall|q: usize| #[trigger]
                    self.entries().contains_key(q) implies self.entries()[q] == (if next.contains(q) {
                    merged_entries(a, b)[q]
                } else {
                    a[q]
                }) by {
                    if q != z {
                        assert(held.contains_key(q));
                    }
                }
            }
            i += 1;
        }
        proof {
            assert(zs@.take(zs.len() as int) =~= zs@);
            assert forall|z: usize| self.entries().contains_key(z) == merged_entries(
                a,
                b,
            ).contains_key(z) by {
                assert(zs@.contains(z) <==> b.contains_key(z));
            }
            assert(self.entries() =~= merged_entries(a, b));
        }
    }
}

} // verus!
