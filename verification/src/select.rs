//! Row selection: laying a column out over another index, narrowing an index
//! by a boolean column, and slicing by integer-position ranges.

use vstd::prelude::*;

use crate::index::{Index, index_equiv};
use crate::series::Series;
use crate::storage::{BitVecStorage, VecStorage, reindexed_valid, reindexed_value};
use crate::strings::StringStorage;

verus! {

/// The "present" bits an index takes when narrowed by a boolean column: the
/// column is laid out over the index first, and a row stays present exactly
/// where the condition holds and is not missing.
pub open spec fn filter_exists(idx: Index, c: &Series<BitVecStorage>) -> Seq<bool> {
    if index_equiv(&c.idx(), &idx) {
        Seq::new(idx.labels().len(), |i: int| c.dat().valid()[i] && c.dat().values()[i])
    } else {
        Seq::new(
            idx.labels().len(),
            |i: int|
                reindexed_valid(&c.idx(), c.dat().valid(), idx.labels()[i]) && reindexed_value(
                    &c.idx(),
                    c.dat().valid(),
                    c.dat().values(),
                    idx.labels()[i],
                    false,
                ),
        )
    }
}

impl Index {
    /// Narrows the index by a boolean column: a row stays present exactly
    /// where the condition holds and is not missing. Labels are unchanged.
    pub fn filter(self, cond: Series<BitVecStorage>) -> (r: Index)
        requires
            self.wf(),
            cond.wf(),
        ensures
            r.wf(),
            r.labels() == self.labels(),
            r.exists_seq() == filter_exists(self, &cond),
    {
        let ghost gc = cond;
        let (ci, cd) = cond.into_inner();
        let d = cd.reindex(&ci, &self);
        let ct = d.as_vec(false);
        proof {
            assert(ct@ =~= filter_exists(self, &gc));
        }
        self.with_exists(ct)
    }
}

impl Series<VecStorage> {
    /// Lays the column out over `index`: each slot takes the value of the
    /// first present occurrence of its label in the old index where that slot
    /// is valid, and is invalid otherwise. An equal index returns the column
    /// unchanged.
    pub fn reindex(self, index: Index) -> (r: Series<VecStorage>)
        requires
            self.wf(),
            index.wf(),
        ensures
            r.wf(),
            r.idx() == index,
            index_equiv(&self.idx(), &index) ==> r.dat() == self.dat(),
            !index_equiv(&self.idx(), &index) ==> {
                &&& r.dat().len_spec() == index.labels().len()
                &&& forall|i: int|
                    0 <= i < index.labels().len() ==> r.dat().valid()[i] == reindexed_valid(
                        &self.idx(),
                        self.dat().valid(),
                        index.labels()[i],
                    )
                &&& forall|i: int|
                    0 <= i < index.labels().len() ==> r.dat().values()[i] == reindexed_value(
                        &self.idx(),
                        self.dat().valid(),
                        self.dat().values(),
                        index.labels()[i],
                        0i64,
                    )
            },
    {
        let (prev, data) = self.into_parts();
        let data = data.reindex(&prev, &index);
        Series::<VecStorage>::from_parts(index, data)
    }

    /// Narrows the rows by a boolean column; the storage is untouched.
    pub fn filter(self, cond: Series<BitVecStorage>) -> (r: Series<VecStorage>)
        requires
            self.wf(),
            cond.wf(),
        ensures
            r.wf(),
            r.idx().labels() == self.idx().labels(),
            r.idx().exists_seq() == filter_exists(self.idx(), &cond),
            r.dat() == self.dat(),
    {
        let (index, data) = self.into_parts();
        Series::<VecStorage>::from_parts(index.filter(cond), data)
    }

    /// Narrows the rows by a condition computed from the column itself.
    pub fn filter_with<F: FnOnce(Series<VecStorage>) -> Series<BitVecStorage>>(self, f: F) -> (r:
        Series<VecStorage>)
        requires
            self.wf(),
            call_requires(f, (self,)),
            forall|x: Series<VecStorage>, c: Series<BitVecStorage>|
                #[trigger] call_ensures(f, (x,), c) ==> c.wf(),
        ensures
            r.wf(),
            r.idx().labels() == self.idx().labels(),
            r.dat().values() == self.dat().values(),
            r.dat().valid() == self.dat().valid(),
            exists|c: Series<BitVecStorage>|
                #[trigger] call_ensures(f, (self,), c) && r.idx().exists_seq() == filter_exists(
                    self.idx(),
                    &c,
                ),
    {
        let copy = self.duplicate();
        let ghost g = self;
        let cond = f(self);
        let ghost gc = cond;
        let (index, data) = copy.into_parts();
        let ghost gi = index;
        let out = Series::<VecStorage>::from_parts(index.filter(cond), data);
        proof {
            assert(gi.labels() == g.idx().labels());
            assert(gi.exists_seq() == g.idx().exists_seq());
            assert(filter_exists(gi, &gc) =~= filter_exists(g.idx(), &gc));
        }
        out
    }

    /// Keeps the same labels, with only the integer positions in `[lo, hi)`
    /// left present.
    pub fn loc_range(self, lo: usize, hi: usize) -> (r: Series<VecStorage>)
        requires
            self.wf(),
        ensures
            r.wf(),
            r.idx().labels() == self.idx().labels(),
            r.idx().exists_seq().len() == self.idx().labels().len(),
            forall|i: int|
                0 <= i < self.idx().labels().len() ==> r.idx().exists_seq()[i]
                    == crate::index::in_pos_range(self.idx().labels()[i], lo, hi),
            r.dat() == self.dat(),
    {
        let (index, data) = self.into_parts();
        let index = index.loc_range(lo, hi);
        Series::<VecStorage>::from_parts(index, data)
    }
}

impl Series<BitVecStorage> {
    /// As the integer column's `reindex`.
    pub fn reindex(self, index: Index) -> (r: Series<BitVecStorage>)
        requires
            self.wf(),
            index.wf(),
        ensures
            r.wf(),
            r.idx() == index,
            index_equiv(&self.idx(), &index) ==> r.dat() == self.dat(),
            !index_equiv(&self.idx(), &index) ==> {
                &&& r.dat().len_spec() == index.labels().len()
                &&& forall|i: int|
                    0 <= i < index.labels().len() ==> r.dat().valid()[i] == reindexed_valid(
                        &self.idx(),
                        self.dat().valid(),
                        index.labels()[i],
                    )
                &&& forall|i: int|
                    0 <= i < index.labels().len() ==> r.dat().values()[i] == reindexed_value(
                        &self.idx(),
                        self.dat().valid(),
                        self.dat().values(),
                        index.labels()[i],
                        false,
                    )
            },
    {
        let (prev, data) = self.into_parts();
        let data = data.reindex(&prev, &index);
        Series::<BitVecStorage>::from_parts(index, data)
    }

    /// Narrows the rows by a boolean column; the storage is untouched.
    pub fn filter(self, cond: Series<BitVecStorage>) -> (r: Series<BitVecStorage>)
        requires
            self.wf(),
            cond.wf(),
        ensures
            r.wf(),
            r.idx().labels() == self.idx().labels(),
            r.idx().exists_seq() == filter_exists(self.idx(), &cond),
            r.dat() == self.dat(),
    {
        let (index, data) = self.into_parts();
        Series::<BitVecStorage>::from_parts(index.filter(cond), data)
    }
}

impl Series<StringStorage> {
    /// As the integer column's `reindex`; the default row is empty.
    pub fn reindex(self, index: Index) -> (r: Series<StringStorage>)
        requires
            self.wf(),
            index.wf(),
        ensures
            r.wf(),
            r.idx() == index,
            index_equiv(&self.idx(), &index) ==> r.dat() == self.dat(),
            !index_equiv(&self.idx(), &index) ==> {
                &&& r.dat().len_spec() == index.labels().len()
                &&& forall|i: int|
                    0 <= i < index.labels().len() ==> r.dat().valid()[i] == reindexed_valid(
                        &self.idx(),
                        self.dat().valid(),
                        index.labels()[i],
                    )
                &&& forall|i: int|
                    0 <= i < index.labels().len() ==> r.dat().value_at(i) == reindexed_value(
                        &self.idx(),
                        self.dat().valid(),
                        self.dat().values(),
                        index.labels()[i],
                        Seq::<u8>::empty(),
                    )
            },
    {
        let (prev, data) = self.into_parts();
        let data = data.reindex(&prev, &index);
        Series::<StringStorage>::from_parts(index, data)
    }

    /// Narrows the rows by a boolean column; the storage is untouched.
    pub fn filter(self, cond: Series<BitVecStorage>) -> (r: Series<StringStorage>)
        requires
            self.wf(),
            cond.wf(),
        ensures
            r.wf(),
            r.idx().labels() == self.idx().labels(),
            r.idx().exists_seq() == filter_exists(self.idx(), &cond),
            r.dat() == self.dat(),
    {
        let (index, data) = self.into_parts();
        Series::<StringStorage>::from_parts(index.filter(cond), data)
    }
}

} // verus!
