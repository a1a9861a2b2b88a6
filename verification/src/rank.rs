//! Rows of units ("ranks"), with the level that each unit was last placed at.

use vstd::prelude::*;
use crate::handles::UnitHandle;
use crate::unit_map::UnitMap;
use crate::seqs::{first_index, lemma_first_index, without};

verus! {

/// Copies a row of units.
pub fn copy_row(row: &Vec<UnitHandle>) -> (r: Vec<UnitHandle>)
    ensures
        r@ == row@,
{
    let r = row.clone();
    proof { assert(r@ =~= row@); }
    r
}

/// The view of a list of rows: a sequence of sequences.
pub open spec fn rows_view(rows: Seq<Vec<UnitHandle>>) -> Seq<Seq<UnitHandle>> {
    rows.map_values(|r: Vec<UnitHandle>| r@)
}

/// The length of the longest row, 0 when there is none.
pub open spec fn max_row_len(rows: Seq<Seq<UnitHandle>>) -> nat
    decreases rows.len(),
{
    if rows.len() == 0 {
        0
    } else {
        let rest = max_row_len(rows.drop_last());
        if rows.last().len() > rest {
            rows.last().len()
        } else {
            rest
        }
    }
}

pub proof fn lemma_max_row_len(rows: Seq<Seq<UnitHandle>>)
    ensures
        forall|i: int| 0 <= i < rows.len() ==> #[trigger] rows[i].len() <= max_row_len(rows),
        rows.len() > 0 ==> exists|i: int| 0 <= i < rows.len() && #[trigger] rows[i].len() == max_row_len(rows),
    decreases rows.len(),
{
    if rows.len() > 0 {
        lemma_max_row_len(rows.drop_last());
        let rest = rows.drop_last();
        assert forall|i: int| 0 <= i < rows.len() implies #[trigger] rows[i].len() <= max_row_len(rows) by {
            if i < rows.len() - 1 {
                assert(rows[i] == rest[i]);
            }
        }
        if rows.last().len() <= max_row_len(rest) && rest.len() > 0 {
            let k = choose|k: int| 0 <= k < rest.len() && #[trigger] rest[k].len() == max_row_len(rest);
            assert(rows[k] == rest[k]);
        } else {
            assert(rows[rows.len() - 1].len() == max_row_len(rows));
        }
    }
}

/// The ordering of units along the x-axis, level by level, and the level
/// that each unit was placed at.
#[derive(Debug)]
pub struct TraverseRank {
    pub(crate) ranks: Vec<Vec<UnitHandle>>,
    pub(crate) levels: UnitMap<usize>,
}

impl Clone for TraverseRank {
    fn clone(&self) -> (r: Self)
        ensures
            r.rows() == self.rows(),
            r.level_map() == self.level_map(),
    {
        self.duplicate()
    }
}

impl TraverseRank {
    /// The rows, top level first.
    pub open(crate) spec fn rows(&self) -> Seq<Seq<UnitHandle>> {
        rows_view(self.ranks@)
    }

    /// The level recorded for each unit.
    pub open(crate) spec fn level_map(&self) -> Map<UnitHandle, usize> {
        self.levels@
    }

    pub fn height(&self) -> (r: usize)
        ensures
            r == self.rows().len(),
    {
        self.ranks.len()
    }

    pub fn width(&self) -> (r: usize)
        ensures
            r == max_row_len(self.rows()),
    {
        if self.ranks.len() == 0 {
            return 0;
        }
        let mut best: usize = 0;
        let mut i: usize = 0;
        while i < self.ranks.len()
            invariant
                i <= self.ranks.len(),
                best == max_row_len(self.rows().take(i as int)),
            decreases self.ranks.len() - i,
        {
            proof {
                let t = self.rows().take(i as int + 1);
                assert(t.drop_last() =~= self.rows().take(i as int));
                assert(t.last() == self.ranks@[i as int]@);
            }
            if self.ranks[i].len() > best {
                best = self.ranks[i].len();
            }
            i = i + 1;
        }
        proof { assert(self.rows().take(i as int) =~= self.rows()); }
        best
    }

    pub fn push_row(&mut self, row: Vec<UnitHandle>)
        ensures
            final(self).rows() == old(self).rows().push(row@),
            final(self).level_map() == old(self).level_map(),
    {
        self.ranks.push(row);
        proof { assert(self.rows() =~= old(self).rows().push(row@)); }
    }

    pub fn new() -> (r: Self)
        ensures
            r.rows() == Seq::<Seq<UnitHandle>>::empty(),
            r.level_map() == Map::<UnitHandle, usize>::empty(),
    {
        let r = TraverseRank { ranks: Vec::new(), levels: UnitMap::new() };
        proof { assert(r.rows() =~= Seq::<Seq<UnitHandle>>::empty()); }
        r
    }

    pub fn clear(&mut self)
        ensures
            final(self).rows() == Seq::<Seq<UnitHandle>>::empty(),
            final(self).level_map() == Map::<UnitHandle, usize>::empty(),
    {
        self.ranks.clear();
        self.levels.clear();
        proof { assert(self.rows() =~= Seq::<Seq<UnitHandle>>::empty()); }
    }

    /// The rows in order, top level first.
    pub fn iter(&self) -> (r: std::slice::Iter<'_, Vec<UnitHandle>>)
        ensures
            rows_view(vstd::std_specs::iter::IteratorSpec::remaining(&r).unref()) == self.rows(),
    {
        let r = self.ranks.iter();
        proof { assert(vstd::std_specs::iter::IteratorSpec::remaining(&r).unref() =~= self.ranks@); }
        r
    }

    /// An independent copy of the rows and levels.
    pub fn duplicate(&self) -> (r: Self)
        ensures
            r.rows() == self.rows(),
            r.level_map() == self.level_map(),
    {
        let mut ranks: Vec<Vec<UnitHandle>> = Vec::new();
        let mut i: usize = 0;
        while i < self.ranks.len()
            invariant
                i <= self.ranks.len(),
                ranks@.len() == i,
                forall|k: int| 0 <= k < i ==> #[trigger] ranks@[k]@ == self.ranks@[k]@,
            decreases self.ranks.len() - i,
        {
            let c = copy_row(&self.ranks[i]);
            ranks.push(c);
            i = i + 1;
        }
        proof { assert(rows_view(ranks@) =~= self.rows()); }
        TraverseRank { ranks, levels: self.levels.duplicate() }
    }

    pub fn row(&self, idx: usize) -> (r: &Vec<UnitHandle>)
        requires
            idx < self.rows().len(),
        ensures
            r@ == self.rows()[idx as int],
    {
        &self.ranks[idx]
    }

    pub fn row_mut(&mut self, idx: usize) -> (r: &mut Vec<UnitHandle>)
        requires
            idx < old(self).rows().len(),
        ensures
            r@ == old(self).rows()[idx as int],
            final(self).rows() == old(self).rows().update(idx as int, final(r)@),
            final(self).level_map() == old(self).level_map(),
    {
        proof { assert(old(self).rows().update(idx as int, old(self).ranks@[idx as int]@) =~= old(self).rows()); }
        &mut self.ranks[idx]
    }

    pub fn level(&self, handle: UnitHandle) -> (r: usize)
        requires
            self.level_map().contains_key(handle),
        ensures
            r == self.level_map()[handle],
    {
        self.levels.get(handle).unwrap()
    }

    pub fn push(&mut self, level: usize, handle: UnitHandle, prepend: bool)
        requires
            level < old(self).rows().len(),
        ensures
            final(self).rows() == old(self).rows().update(
                level as int,
                if prepend {
                    seq![handle] + old(self).rows()[level as int]
                } else {
                    old(self).rows()[level as int].push(handle)
                },
            ),
            final(self).level_map() == old(self).level_map().insert(handle, level),
    {
        let ghost old_rows = self.rows();
        if prepend {
            self.ranks[level].insert(0, handle);
        } else {
            self.ranks[level].push(handle);
        }
        self.levels.insert(handle, level);
        proof {
            let want = if prepend { seq![handle] + old_rows[level as int] } else { old_rows[level as int].push(handle) };
            assert(self.rows()[level as int] =~= want);
            assert(self.rows() =~= old_rows.update(level as int, want));
        }
    }

    /// Takes `handle` out of every row; the levels stay as they are.
    pub fn take_out(&mut self, handle: UnitHandle)
        ensures
            final(self).rows() == old(self).rows().map_values(|r: Seq<UnitHandle>| without(r, handle)),
            final(self).level_map() == old(self).level_map(),
    {
        let ghost old_rows = self.rows();
        let mut i: usize = 0;
        while i < self.ranks.len()
            invariant
                i <= self.ranks@.len(),
                self.ranks@.len() == old_rows.len(),
                old_rows == old(self).rows(),
                self.level_map() == old(self).level_map(),
                forall|k: int| 0 <= k < i ==> #[trigger] self.rows()[k] == without(old_rows[k], handle),
                forall|k: int| i <= k < old_rows.len() ==> #[trigger] self.rows()[k] == old_rows[k],
            decreases old_rows.len() - i,
        {
            let mut kept: Vec<UnitHandle> = Vec::new();
            let ghost row = old_rows[i as int];
            let n = self.ranks[i].len();
            proof {
                assert(row.take(0) =~= Seq::<UnitHandle>::empty());
                assert(self.rows()[i as int] == self.ranks@[i as int]@);
            }
            let mut j: usize = 0;
            while j < n
                invariant
                    i < self.ranks@.len(),
                    row == self.rows()[i as int],
                    n == row.len(),
                    j <= n,
                    kept@ == without(row.take(j as int), handle),
                decreases n - j,
            {
                let x = self.ranks[i][j];
                proof {
                    let t = row.take(j as int + 1);
                    assert(t.drop_last() =~= row.take(j as int));
                    assert(t.last() == row[j as int]);
                }
                if x != handle {
                    kept.push(x);
                }
                j = j + 1;
            }
            proof { assert(row.take(n as int) =~= row); }
            let ghost prev = self.rows();
            self.ranks.set(i, kept);
            proof {
                assert forall|k: int| 0 <= k < old_rows.len() && k != i implies #[trigger] self.rows()[k] == prev[k] by {}
            }
            i = i + 1;
        }
        proof {
            assert(self.rows() =~= old_rows.map_values(|r: Seq<UnitHandle>| without(r, handle)));
        }
    }

    /// The level recorded last for a unit is the one that `level` reads
    /// back: `push` and `insert_before` record the level they place at.
    pub proof fn lemma_level_reads_back(&self, before: &TraverseRank, handle: UnitHandle, level: usize)
        requires
            self.level_map() == before.level_map().insert(handle, level),
        ensures
            self.level_map().contains_key(handle),
            self.level_map()[handle] == level,
    {
    }

    pub fn insert_before(&mut self, level: usize, handle: UnitHandle, marker: UnitHandle, prepend: bool)
        requires
            level < old(self).rows().len(),
            old(self).rows()[level as int].contains(marker),
        ensures
            ({
                let row = old(self).rows()[level as int];
                let i = first_index(row, marker);
                let at = if prepend { i } else { i + 1 };
                final(self).rows() == old(self).rows().update(level as int, row.insert(at, handle))
            }),
            final(self).level_map() == old(self).level_map().insert(handle, level),
    {
        let ghost old_rows = self.rows();
        let ghost row = old_rows[level as int];
        let mut i: usize = 0;
        let n = self.ranks[level].len();
        while i < n
            invariant
                n == row.len(),
                i <= n,
                row == old_rows[level as int],
                old_rows == self.rows(),
                old_rows == old(self).rows(),
                self.level_map() == old(self).level_map(),
                level < self.rows().len(),
                row.contains(marker),
                forall|j: int| 0 <= j < i ==> row[j] != marker,
            decreases n - i,
        {
            if self.ranks[level][i] == marker {
                proof { lemma_first_index(row, marker, i as int); }
                if prepend {
                    self.ranks[level].insert(i, handle);
                } else {
                    self.ranks[level].insert(i + 1, handle);
                }
                self.levels.insert(handle, level);
                proof {
                    let at = if prepend { i as int } else { i + 1 };
                    assert(self.rows()[level as int] =~= row.insert(at, handle));
                    assert(self.rows() =~= old_rows.update(level as int, row.insert(at, handle)));
                }
                return;
            }
            i = i + 1;
        }
        proof {
            let k = choose|k: int| 0 <= k < row.len() && row[k] == marker;
            assert(row[k] == marker);
        }
    }
}

} // verus!
