//! Column storage: a typed packed buffer beside a validity bitmap. The
//! numeric family holds 64-bit integers in a plain vector; the boolean family
//! holds its data as a second bitmap. Both support `reindex`, which lays a
//! storage out over a new row index.

use vstd::prelude::*;

use crate::bits::{BitOp, BitVec};
use crate::index::{Index, Loc};

verus! {

/// Whether a reindexed slot carries a value: the label must resolve in the
/// previous index and the slot it resolves to must be valid.
pub open spec fn reindexed_valid(prev: &Index, prev_valid: Seq<bool>, loc: Loc) -> bool {
    match prev.get_spec(loc) {
        Some(p) => prev_valid[p],
        None => false,
    }
}

/// The value a reindexed slot carries: the previous value where one resolves,
/// the element default elsewhere.
pub open spec fn reindexed_value<T>(
    prev: &Index,
    prev_valid: Seq<bool>,
    prev_vals: Seq<T>,
    loc: Loc,
    default: T,
) -> T {
    match prev.get_spec(loc) {
        Some(p) => if prev_valid[p] {
            prev_vals[p]
        } else {
            default
        },
        None => default,
    }
}

/// A shared true/false to hand out by reference.
pub fn as_ref(b: bool) -> (r: &'static bool)
    ensures
        *r == b,
{
    if b {
        &true
    } else {
        &false
    }
}

/// Packed 64-bit integer storage with a validity bitmap.
pub struct VecStorage {
    data: Vec<i64>,
    exists: BitVec,
}

impl VecStorage {
    /// The packed values, one per slot, defaults standing in for absent ones.
    pub closed spec fn values(&self) -> Seq<i64> {
        self.data@
    }

    /// The validity bitmap.
    pub closed spec fn exists_bv(&self) -> BitVec {
        self.exists
    }

    /// The validity bit of each slot.
    pub open spec fn valid(&self) -> Seq<bool> {
        self.exists_bv()@
    }

    pub open spec fn wf(&self) -> bool {
        &&& self.exists_bv().wf()
        &&& self.valid().len() == self.values().len()
    }

    pub open spec fn len_spec(&self) -> int {
        self.values().len() as int
    }

    pub fn new(data: Vec<i64>, exists: BitVec) -> (r: VecStorage)
        requires
            exists.wf(),
            exists@.len() == data@.len(),
        ensures
            r.wf(),
            r.values() == data@,
            r.valid() == exists@,
    {
        VecStorage { data, exists }
    }

    /// Storage over the given values, every slot valid.
    pub fn from_values(data: Vec<i64>) -> (r: VecStorage)
        ensures
            r.wf(),
            r.values() == data@,
            r.valid().len() == data@.len(),
            forall|i: int| 0 <= i < data@.len() ==> r.valid()[i],
    {
        let exists = BitVec::from_elem(data.len(), true);
        VecStorage { data, exists }
    }

    pub fn len(&self) -> (n: usize)
        requires
            self.wf(),
        ensures
            n == self.len_spec(),
    {
        self.data.len()
    }

    /// The packed values and the validity bitmap, side by side.
    pub fn as_vec_mask(&self) -> (r: (&Vec<i64>, &BitVec))
        ensures
            r.0@ == self.values(),
            *r.1 == self.exists_bv(),
    {
        (&self.data, &self.exists)
    }

    /// The packed values and the validity bitmap, consumed.
    pub fn into_parts(self) -> (r: (Vec<i64>, BitVec))
        ensures
            r.0@ == self.values(),
            r.1 == self.exists_bv(),
    {
        (self.data, self.exists)
    }

    /// The value at a slot, if the slot is valid.
    pub fn get(&self, offset: usize) -> (r: Option<i64>)
        requires
            self.wf(),
            offset < self.len_spec(),
        ensures
            r == (if self.valid()[offset as int] {
                Some(self.values()[offset as int])
            } else {
                None::<i64>
            }),
    {
        if self.exists.get(offset) {
            Some(self.data[offset])
        } else {
            None
        }
    }

    /// A copy of the storage.
    pub fn duplicate(&self) -> (r: VecStorage)
        requires
            self.wf(),
        ensures
            r.wf(),
            r.values() == self.values(),
            r.valid() == self.valid(),
    {
        let data = self.data.clone();
        proof {
            assert forall|i: int| 0 <= i < data@.len() implies data@[i] == self.data@[i] by {
                assert(cloned::<i64>(self.data@[i], data@[i]));
            }
            assert(data@ =~= self.data@);
        }
        VecStorage { data, exists: self.exists.duplicate() }
    }

    /// Lays the storage out over `index`. Slots take the value of the first
    /// present occurrence of their label in `prev_index` where that slot is
    /// valid; all other slots are invalid and hold zero. When the two indexes
    /// are equal the storage is returned unchanged.
    pub fn reindex(self, prev_index: &Index, index: &Index) -> (r: VecStorage)
        requires
            self.wf(),
            prev_index.wf(),
            index.wf(),
            self.len_spec() == prev_index.labels().len(),
        ensures
            r.wf(),
            crate::index::index_equiv(prev_index, index) ==> r == self,
            !crate::index::index_equiv(prev_index, index) ==> {
                &&& r.len_spec() == index.labels().len()
                &&& forall|i: int|
                    0 <= i < index.labels().len() ==> r.valid()[i] == reindexed_valid(
                        prev_index,
                        self.valid(),
                        index.labels()[i],
                    )
                &&& forall|i: int|
                    0 <= i < index.labels().len() ==> r.values()[i] == reindexed_value(
                        prev_index,
                        self.valid(),
                        self.values(),
                        index.labels()[i],
                        0i64,
                    )
            },
    {
        if prev_index.same_as(index) {
            return self;
        }
        let (labels, _mask) = index.as_vec_mask();
        let n = labels.len();
        let mut data: Vec<i64> = Vec::new();
        let mut exists = BitVec::new();
        let mut i: usize = 0;
        while i < n
            invariant
                self.wf(),
                prev_index.wf(),
                self.len_spec() == prev_index.labels().len(),
                n == index.labels().len(),
                labels@ == index.labels(),
                i <= n,
                exists.wf(),
                data@.len() == i,
                exists@.len() == i,
                forall|j: int|
                    0 <= j < i ==> exists@[j] == reindexed_valid(
                        prev_index,
                        self.valid(),
                        index.labels()[j],
                    ),
                forall|j: int|
                    0 <= j < i ==> data@[j] == reindexed_value(
                        prev_index,
                        self.valid(),
                        self.values(),
                        index.labels()[j],
                        0i64,
                    ),
            decreases n - i,
        {
            match prev_index.get(&labels[i]) {
                Some(p) => {
                    if self.exists.get(p) {
                        data.push(self.data[p]);
                        exists.push(true);
                    } else {
                        data.push(0i64);
                        exists.push(false);
                    }
                },
                None => {
                    data.push(0i64);
                    exists.push(false);
                },
            }
            i = i + 1;
        }
        VecStorage { data, exists }
    }
}

/// Boolean storage: a data bitmap beside a validity bitmap.
pub struct BitVecStorage {
    data: BitVec,
    exists: BitVec,
}

impl BitVecStorage {
    /// The data bitmap.
    pub closed spec fn data_bv(&self) -> BitVec {
        self.data
    }

    /// The validity bitmap.
    pub closed spec fn exists_bv(&self) -> BitVec {
        self.exists
    }

    /// The packed values, one per slot.
    pub open spec fn values(&self) -> Seq<bool> {
        self.data_bv()@
    }

    /// The validity bit of each slot.
    pub open spec fn valid(&self) -> Seq<bool> {
        self.exists_bv()@
    }

    pub open spec fn wf(&self) -> bool {
        &&& self.data_bv().wf()
        &&& self.exists_bv().wf()
        &&& self.valid().len() == self.values().len()
    }

    pub open spec fn len_spec(&self) -> int {
        self.values().len() as int
    }

    pub fn new(data: BitVec, exists: BitVec) -> (r: BitVecStorage)
        requires
            data.wf(),
            exists.wf(),
            exists@.len() == data@.len(),
        ensures
            r.wf(),
            r.values() == data@,
            r.valid() == exists@,
    {
        BitVecStorage { data, exists }
    }

    /// Storage over the given bits, every slot valid.
    pub fn from_values(data: Vec<bool>) -> (r: BitVecStorage)
        ensures
            r.wf(),
            r.values().len() == data@.len(),
            forall|i: int| 0 <= i < data@.len() ==> r.values()[i] == data@[i],
            r.valid().len() == data@.len(),
            forall|i: int| 0 <= i < data@.len() ==> r.valid()[i],
    {
        let n = data.len();
        let mut bits = BitVec::new();
        let mut i: usize = 0;
        while i < n
            invariant
                bits.wf(),
                n == data@.len(),
                i <= n,
                bits@.len() == i,
                forall|j: int| 0 <= j < i ==> bits@[j] == data@[j],
            decreases n - i,
        {
            bits.push(data[i]);
            i = i + 1;
        }
        let exists = BitVec::from_elem(n, true);
        BitVecStorage { data: bits, exists }
    }

    pub fn len(&self) -> (n: usize)
        requires
            self.wf(),
        ensures
            n == self.len_spec(),
    {
        self.data.len()
    }

    /// The two bitmaps, data then validity.
    pub fn as_vec_mask(&self) -> (r: (&BitVec, &BitVec))
        ensures
            *r.0 == self.data_bv(),
            *r.1 == self.exists_bv(),
    {
        (&self.data, &self.exists)
    }

    /// The two bitmaps, consumed.
    pub fn into_inner(self) -> (r: (BitVec, BitVec))
        ensures
            r.0 == self.data_bv(),
            r.1 == self.exists_bv(),
    {
        (self.data, self.exists)
    }

    /// The value at a slot, if the slot is valid.
    pub fn get(&self, offset: usize) -> (r: Option<bool>)
        requires
            self.wf(),
            offset < self.len_spec(),
        ensures
            r == (if self.valid()[offset as int] {
                Some(self.values()[offset as int])
            } else {
                None::<bool>
            }),
    {
        if self.exists.get(offset) {
            Some(self.data.get(offset))
        } else {
            None
        }
    }

    /// One bitmap with `default` standing in for the missing slots: the data
    /// where a slot is valid, `default` where it is not.
    pub fn as_vec(&self, default: bool) -> (r: BitVec)
        requires
            self.wf(),
        ensures
            r.wf(),
            r@.len() == self.len_spec(),
            forall|i: int|
                0 <= i < self.len_spec() ==> r@[i] == (if self.valid()[i] {
                    self.values()[i]
                } else {
                    default
                }),
    {
        let mut r = self.data.duplicate();
        if default {
            r.combine(&self.exists, BitOp::OrNot);
        } else {
            r.combine(&self.exists, BitOp::And);
        }
        r
    }

    /// A copy of the storage.
    pub fn duplicate(&self) -> (r: BitVecStorage)
        requires
            self.wf(),
        ensures
            r.wf(),
            r.values() == self.values(),
            r.valid() == self.valid(),
    {
        BitVecStorage { data: self.data.duplicate(), exists: self.exists.duplicate() }
    }

    /// Lays the storage out over `index`, as [`VecStorage::reindex`] does;
    /// the default for absent slots is `false`.
    pub fn reindex(self, prev_index: &Index, index: &Index) -> (r: BitVecStorage)
        requires
            self.wf(),
            prev_index.wf(),
            index.wf(),
            self.len_spec() == prev_index.labels().len(),
        ensures
            r.wf(),
            crate::index::index_equiv(prev_index, index) ==> r == self,
            !crate::index::index_equiv(prev_index, index) ==> {
                &&& r.len_spec() == index.labels().len()
                &&& forall|i: int|
                    0 <= i < index.labels().len() ==> r.valid()[i] == reindexed_valid(
                        prev_index,
                        self.valid(),
                        index.labels()[i],
                    )
                &&& forall|i: int|
                    0 <= i < index.labels().len() ==> r.values()[i] == reindexed_value(
                        prev_index,
                        self.valid(),
                        self.values(),
                        index.labels()[i],
                        false,
                    )
            },
    {
        if prev_index.same_as(index) {
            return self;
        }
        let (labels, _mask) = index.as_vec_mask();
        let n = labels.len();
        let mut data = BitVec::new();
        let mut exists = BitVec::new();
        let mut i: usize = 0;
        while i < n
            invariant
                self.wf(),
                prev_index.wf(),
                self.len_spec() == prev_index.labels().len(),
                n == index.labels().len(),
                labels@ == index.labels(),
                i <= n,
                data.wf(),
                exists.wf(),
                data@.len() == i,
                exists@.len() == i,
                forall|j: int|
                    0 <= j < i ==> exists@[j] == reindexed_valid(
                        prev_index,
                        self.valid(),
                        index.labels()[j],
                    ),
                forall|j: int|
                    0 <= j < i ==> data@[j] == reindexed_value(
                        prev_index,
                        self.valid(),
                        self.values(),
                        index.labels()[j],
                        false,
                    ),
            decreases n - i,
        {
            match prev_index.get(&labels[i]) {
                Some(p) => {
                    if self.exists.get(p) {
                        data.push(self.data.get(p));
                        exists.push(true);
                    } else {
                        data.push(false);
                        exists.push(false);
                    }
                },
                None => {
                    data.push(false);
                    exists.push(false);
                },
            }
            i = i + 1;
        }
        BitVecStorage { data, exists }
    }
}

} // verus!
