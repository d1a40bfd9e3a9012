//! Boolean columns: bitmap-backed storage with element-wise logic and the
//! three reductions `any`, `all` and `none`, computed a block at a time.

use vstd::prelude::*;

use crate::bits::{BitOp, BitVec, bit_op, masked_all, masked_any};
use crate::index::{Index, Loc};
use crate::series::{Series, al_valid, al_values, masked_opts, masked_vals, u_exists, u_labels};
use crate::storage::BitVecStorage;

verus! {

/// Where the condition is decidedly true after aligning a boolean column
/// with it: a missing condition counts as "not true".
pub open spec fn bool_cond_true(s: &Series<BitVecStorage>, c: &Series<BitVecStorage>) -> Seq<
    bool,
> {
    let cv = al_valid(c.idx(), c.dat().valid(), s.idx(), c.idx());
    let cx = al_values(c.idx(), c.dat().valid(), c.dat().values(), s.idx(), c.idx(), false);
    Seq::new(u_labels(s.idx(), c.idx()).len(), |i: int| cv[i] && cx[i])
}

impl Series<BitVecStorage> {
    pub open spec fn wf(&self) -> bool {
        &&& self.idx().wf()
        &&& self.dat().wf()
        &&& self.dat().len_spec() == self.idx().labels().len()
    }

    /// Value visible at `offset`: present iff the row is present in the index
    /// and the slot is valid.
    pub open spec fn val_opt(&self, i: int) -> Option<bool> {
        if self.idx().exists_seq()[i] && self.dat().valid()[i] {
            Some(self.dat().values()[i])
        } else {
            None
        }
    }

    pub fn new(index: Index, data: BitVecStorage) -> (r: Series<BitVecStorage>)
        requires
            index.wf(),
            data.wf(),
            data.len_spec() == index.labels().len(),
        ensures
            r.wf(),
            r.idx() == index,
            r.dat() == data,
    {
        let (i, d) = (index, data);
        Series::<BitVecStorage>::from_parts(i, d)
    }

    /// A column of the given bits over the positional index `0..n`.
    pub fn from_values(vals: Vec<bool>) -> (r: Series<BitVecStorage>)
        ensures
            r.wf(),
            r.idx().labels().len() == vals@.len(),
            forall|i: int|
                0 <= i < vals@.len() ==> r.idx().labels()[i] == Loc::Pos(i as usize),
            forall|i: int| 0 <= i < vals@.len() ==> r.idx().exists_seq()[i],
            forall|i: int| 0 <= i < vals@.len() ==> r.dat().values()[i] == vals@[i],
            forall|i: int| 0 <= i < vals@.len() ==> r.dat().valid()[i],
    {
        let n = vals.len();
        let index = Index::from_range(0, n);
        let data = BitVecStorage::from_values(vals);
        Series::<BitVecStorage>::from_parts(index, data)
    }

    /// A column over the positional index with one optional bit per row.
    pub fn from_options(vals: Vec<Option<bool>>) -> (r: Series<BitVecStorage>)
        ensures
            r.wf(),
            r.idx().labels().len() == vals@.len(),
            forall|i: int|
                0 <= i < vals@.len() ==> r.idx().labels()[i] == Loc::Pos(i as usize),
            forall|i: int| 0 <= i < vals@.len() ==> r.idx().exists_seq()[i],
            forall|i: int| 0 <= i < vals@.len() ==> r.val_opt(i) == vals@[i],
    {
        let n = vals.len();
        let index = Index::from_range(0, n);
        let mut data = BitVec::new();
        let mut exists = BitVec::new();
        let mut i: usize = 0;
        while i < n
            invariant
                n == vals@.len(),
                i <= n,
                data.wf(),
                exists.wf(),
                data@.len() == i,
                exists@.len() == i,
                forall|j: int| 0 <= j < i ==> exists@[j] == (vals@[j] is Some),
                forall|j: int|
                    0 <= j < i && vals@[j] is Some ==> data@[j] == vals@[j]->0,
            decreases n - i,
        {
            match vals[i] {
                Some(v) => {
                    data.push(v);
                    exists.push(true);
                },
                None => {
                    data.push(false);
                    exists.push(false);
                },
            }
            i = i + 1;
        }
        let data = BitVecStorage::new(data, exists);
        Series::<BitVecStorage>::from_parts(index, data)
    }

    /// The index and the storage, consumed.
    pub fn into_inner(self) -> (r: (Index, BitVecStorage))
        ensures
            r.0 == self.idx(),
            r.1 == self.dat(),
    {
        self.into_parts()
    }

    pub fn len(&self) -> (n: usize)
        requires
            self.wf(),
        ensures
            n == self.idx().labels().len(),
    {
        let (_index, data) = self.parts();
        data.len()
    }

    /// The value at an offset: `Some` iff the row is present in the index and
    /// the slot is valid.
    pub fn get(&self, offset: usize) -> (r: Option<bool>)
        requires
            self.wf(),
            offset < self.idx().labels().len(),
        ensures
            r == self.val_opt(offset as int),
    {
        let (index, data) = self.parts();
        let (_labels, mask) = index.as_vec_mask();
        if mask.get(offset) {
            data.get(offset)
        } else {
            None
        }
    }

    /// The visible bits, `default` standing in for invalid slots; hidden rows
    /// are dropped.
    pub fn to_vec(&self, default: bool) -> (r: Vec<bool>)
        requires
            self.wf(),
        ensures
            r@ == masked_vals(
                self.idx().exists_seq(),
                self.dat().valid(),
                self.dat().values(),
                default,
                self.idx().labels().len() as int,
            ),
    {
        let (index, data) = self.parts();
        let n = data.len();
        let (_labels, mask) = index.as_vec_mask();
        let mut r: Vec<bool> = Vec::new();
        let mut i: usize = 0;
        while i < n
            invariant
                self.wf(),
                n == self.idx().labels().len(),
                i <= n,
                *mask == self.idx().exists_bv(),
                *data == self.dat(),
                r@ == masked_vals(
                    self.idx().exists_seq(),
                    self.dat().valid(),
                    self.dat().values(),
                    default,
                    i as int,
                ),
            decreases n - i,
        {
            if mask.get(i) {
                match data.get(i) {
                    Some(v) => r.push(v),
                    None => r.push(default),
                }
            }
            i = i + 1;
        }
        r
    }

    /// The visible bits as options; hidden rows are dropped.
    pub fn to_option_vec(&self) -> (r: Vec<Option<bool>>)
        requires
            self.wf(),
        ensures
            r@ == masked_opts(
                self.idx().exists_seq(),
                self.dat().valid(),
                self.dat().values(),
                self.idx().labels().len() as int,
            ),
    {
        let (index, data) = self.parts();
        let n = data.len();
        let (_labels, mask) = index.as_vec_mask();
        let mut r: Vec<Option<bool>> = Vec::new();
        let mut i: usize = 0;
        while i < n
            invariant
                self.wf(),
                n == self.idx().labels().len(),
                i <= n,
                *mask == self.idx().exists_bv(),
                *data == self.dat(),
                r@ == masked_opts(
                    self.idx().exists_seq(),
                    self.dat().valid(),
                    self.dat().values(),
                    i as int,
                ),
            decreases n - i,
        {
            if mask.get(i) {
                r.push(data.get(i));
            }
            i = i + 1;
        }
        r
    }

    /// A copy of the column.
    pub fn duplicate(&self) -> (r: Series<BitVecStorage>)
        requires
            self.wf(),
        ensures
            r.wf(),
            r.idx().labels() == self.idx().labels(),
            r.idx().exists_seq() == self.idx().exists_seq(),
            r.dat().values() == self.dat().values(),
            r.dat().valid() == self.dat().valid(),
    {
        let (index, data) = self.parts();
        Series::<BitVecStorage>::from_parts(index.duplicate(), data.duplicate())
    }

    /// Aligns the column with `other`, as the integer column does.
    pub fn into_aligned(self, other: Series<BitVecStorage>) -> (r: (
        Index,
        BitVecStorage,
        BitVecStorage,
    ))
        requires
            self.wf(),
            other.wf(),
            self.idx().labels().len() + other.idx().labels().len() <= usize::MAX,
        ensures
            r.0.wf(),
            r.1.wf(),
            r.2.wf(),
            r.0.labels() == u_labels(self.idx(), other.idx()),
            r.0.exists_seq() == u_exists(self.idx(), other.idx()),
            r.1.len_spec() == r.0.labels().len(),
            r.2.len_spec() == r.0.labels().len(),
            r.1.valid() == al_valid(self.idx(), self.dat().valid(), self.idx(), other.idx()),
            r.1.values() == al_values(
                self.idx(),
                self.dat().valid(),
                self.dat().values(),
                self.idx(),
                other.idx(),
                false,
            ),
            r.2.valid() == al_valid(other.idx(), other.dat().valid(), self.idx(), other.idx()),
            r.2.values() == al_values(
                other.idx(),
                other.dat().valid(),
                other.dat().values(),
                self.idx(),
                other.idx(),
                false,
            ),
    {
        let ghost a = self.idx();
        let ghost b = other.idx();
        let (si, sd) = self.into_inner();
        let (oi, od) = other.into_inner();
        if si.same_as(&oi) {
            return (si, sd, od);
        }
        let u = si.duplicate().union(&oi);
        proof {
            assert(u.exists_seq() =~= u_exists(a, b));
        }
        let d1 = sd.reindex(&si, &u);
        let d2 = od.reindex(&oi, &u);
        proof {
            if !crate::index::index_equiv(&si, &u) {
                assert forall|i: int| 0 <= i < u_labels(a, b).len() implies d1.valid()[i]
                    == crate::storage::reindexed_valid(&a, self.dat().valid(), u_labels(a, b)[i])
                    by {
                    assert(d1.valid()[i] == crate::storage::reindexed_valid(
                        &si,
                        self.dat().valid(),
                        u.labels()[i],
                    ));
                }
                assert(d1.valid() =~= al_valid(a, self.dat().valid(), a, b));
                assert(d1.values() =~= al_values(
                    a,
                    self.dat().valid(),
                    self.dat().values(),
                    a,
                    b,
                    false,
                ));
            }
            if !crate::index::index_equiv(&oi, &u) {
                assert forall|i: int| 0 <= i < u_labels(a, b).len() implies d2.valid()[i]
                    == crate::storage::reindexed_valid(&b, other.dat().valid(), u_labels(a, b)[i])
                    by {
                    assert(d2.valid()[i] == crate::storage::reindexed_valid(
                        &oi,
                        other.dat().valid(),
                        u.labels()[i],
                    ));
                }
                assert(d2.valid() =~= al_valid(b, other.dat().valid(), a, b));
                assert(d2.values() =~= al_values(
                    b,
                    other.dat().valid(),
                    other.dat().values(),
                    a,
                    b,
                    false,
                ));
            }
        }
        (u, d1, d2)
    }

    /// Element-wise conjunction or disjunction with another boolean column,
    /// aligned first and computed a block at a time. Valid where both slots
    /// are valid and the row is present; invalid slots hold `false`.
    pub fn bool_op(self, op: BitOp, rhs: Series<BitVecStorage>) -> (r: Series<BitVecStorage>)
        requires
            self.wf(),
            rhs.wf(),
            op is And || op is Or,
            self.idx().labels().len() + rhs.idx().labels().len() <= usize::MAX,
        ensures
            r.wf(),
            r.idx().labels() == u_labels(self.idx(), rhs.idx()),
            r.idx().exists_seq() == u_exists(self.idx(), rhs.idx()),
            r.dat().valid().len() == u_labels(self.idx(), rhs.idx()).len(),
            forall|i: int|
                0 <= i < u_labels(self.idx(), rhs.idx()).len() ==> r.dat().valid()[i] == (al_valid(
                    self.idx(),
                    self.dat().valid(),
                    self.idx(),
                    rhs.idx(),
                )[i] && al_valid(rhs.idx(), rhs.dat().valid(), self.idx(), rhs.idx())[i] && u_exists(
                    self.idx(),
                    rhs.idx(),
                )[i]),
            forall|i: int|
                0 <= i < u_labels(self.idx(), rhs.idx()).len() ==> r.dat().values()[i] == (
                r.dat().valid()[i] && bit_op(
                    op,
                    al_values(
                        self.idx(),
                        self.dat().valid(),
                        self.dat().values(),
                        self.idx(),
                        rhs.idx(),
                        false,
                    )[i],
                    al_values(
                        rhs.idx(),
                        rhs.dat().valid(),
                        rhs.dat().values(),
                        self.idx(),
                        rhs.idx(),
                        false,
                    )[i],
                )),
    {
        let ghost gs = self;
        let ghost gr = rhs;
        let (u, d1, d2) = self.into_aligned(rhs);
        let (da, va) = d1.into_inner();
        let (db, vb) = d2.into_inner();
        let mut valid = va;
        valid.combine(&vb, BitOp::And);
        {
            let (_labels, ie) = u.as_vec_mask();
            valid.combine(ie, BitOp::And);
        }
        let mut data = da;
        data.combine(&db, op);
        data.combine(&valid, BitOp::And);
        let d = BitVecStorage::new(data, valid);
        Series::<BitVecStorage>::from_parts(u, d)
    }

    /// Element-wise negation: validity unchanged, every valid bit flipped;
    /// invalid slots hold `false`.
    pub fn not(self) -> (r: Series<BitVecStorage>)
        requires
            self.wf(),
        ensures
            r.wf(),
            r.idx().labels() == self.idx().labels(),
            r.idx().exists_seq() == self.idx().exists_seq(),
            r.dat().valid() == self.dat().valid(),
            r.dat().values().len() == self.dat().values().len(),
            forall|i: int|
                0 <= i < self.dat().values().len() ==> r.dat().values()[i] == (self.dat().valid()[i]
                    && !self.dat().values()[i]),
    {
        let (index, d) = self.into_inner();
        let (data, va) = d.into_inner();
        let mut flipped = BitVec::from_elem(data.len(), false);
        flipped.combine(&data, BitOp::OrNot);
        flipped.combine(&va, BitOp::And);
        let d = BitVecStorage::new(flipped, va);
        Series::<BitVecStorage>::from_parts(index, d)
    }

    /// Keeps the column's bits where the condition is true and not missing;
    /// everywhere else the slot turns invalid. Values are untouched.
    pub fn where_(self, cond: Series<BitVecStorage>) -> (r: Series<BitVecStorage>)
        requires
            self.wf(),
            cond.wf(),
            self.idx().labels().len() + cond.idx().labels().len() <= usize::MAX,
        ensures
            r.wf(),
            r.idx().labels() == u_labels(self.idx(), cond.idx()),
            r.idx().exists_seq() == u_exists(self.idx(), cond.idx()),
            r.dat().values() == al_values(
                self.idx(),
                self.dat().valid(),
                self.dat().values(),
                self.idx(),
                cond.idx(),
                false,
            ),
            r.dat().valid().len() == u_labels(self.idx(), cond.idx()).len(),
            forall|i: int|
                0 <= i < u_labels(self.idx(), cond.idx()).len() ==> r.dat().valid()[i] == (al_valid(
                    self.idx(),
                    self.dat().valid(),
                    self.idx(),
                    cond.idx(),
                )[i] && bool_cond_true(&self, &cond)[i]),
    {
        let ghost gs = self;
        let ghost gc = cond;
        let (u, sd, cd) = self.into_aligned(cond);
        let ct = cd.as_vec(false);
        let (sx, sv) = sd.into_inner();
        let mut sv = sv;
        sv.combine(&ct, BitOp::And);
        let d = BitVecStorage::new(sx, sv);
        proof {
            assert forall|i: int| 0 <= i < u_labels(gs.idx(), gc.idx()).len() implies d.valid()[i]
                == (al_valid(gs.idx(), gs.dat().valid(), gs.idx(), gc.idx())[i] && bool_cond_true(
                &gs,
                &gc,
            )[i]) by {}
        }
        Series::<BitVecStorage>::new(u, d)
    }

    /// Keeps the column's bits where the condition is false or missing;
    /// everywhere else the slot turns invalid. Values are untouched.
    pub fn mask(self, cond: Series<BitVecStorage>) -> (r: Series<BitVecStorage>)
        requires
            self.wf(),
            cond.wf(),
            self.idx().labels().len() + cond.idx().labels().len() <= usize::MAX,
        ensures
            r.wf(),
            r.idx().labels() == u_labels(self.idx(), cond.idx()),
            r.idx().exists_seq() == u_exists(self.idx(), cond.idx()),
            r.dat().values() == al_values(
                self.idx(),
                self.dat().valid(),
                self.dat().values(),
                self.idx(),
                cond.idx(),
                false,
            ),
            r.dat().valid().len() == u_labels(self.idx(), cond.idx()).len(),
            forall|i: int|
                0 <= i < u_labels(self.idx(), cond.idx()).len() ==> r.dat().valid()[i] == (al_valid(
                    self.idx(),
                    self.dat().valid(),
                    self.idx(),
                    cond.idx(),
                )[i] && !bool_cond_true(&self, &cond)[i]),
    {
        let ghost gs = self;
        let ghost gc = cond;
        let (u, sd, cd) = self.into_aligned(cond);
        let ct = cd.as_vec(false);
        let (sx, sv) = sd.into_inner();
        let mut sv = sv;
        sv.combine(&ct, BitOp::Diff);
        let d = BitVecStorage::new(sx, sv);
        proof {
            assert forall|i: int| 0 <= i < u_labels(gs.idx(), gc.idx()).len() implies d.valid()[i]
                == (al_valid(gs.idx(), gs.dat().valid(), gs.idx(), gc.idx())[i] && !bool_cond_true(
                &gs,
                &gc,
            )[i]) by {}
        }
        Series::<BitVecStorage>::new(u, d)
    }

    /// Keeps the column's bits where the condition is true and not missing;
    /// everywhere else the scalar steps in as a valid bit, blended in a block
    /// at a time.
    pub fn where_or_scalar(self, cond: Series<BitVecStorage>, k: bool) -> (r: Series<
        BitVecStorage,
    >)
        requires
            self.wf(),
            cond.wf(),
            self.idx().labels().len() + cond.idx().labels().len() <= usize::MAX,
        ensures
            r.wf(),
            r.idx().labels() == u_labels(self.idx(), cond.idx()),
            r.idx().exists_seq() == u_exists(self.idx(), cond.idx()),
            r.dat().valid().len() == u_labels(self.idx(), cond.idx()).len(),
            forall|i: int|
                0 <= i < u_labels(self.idx(), cond.idx()).len() ==> r.dat().valid()[i] == (
                bool_cond_true(&self, &cond)[i] ==> al_valid(
                    self.idx(),
                    self.dat().valid(),
                    self.idx(),
                    cond.idx(),
                )[i]),
            forall|i: int|
                0 <= i < u_labels(self.idx(), cond.idx()).len() ==> r.dat().values()[i] == (if
                bool_cond_true(&self, &cond)[i] && al_valid(
                    self.idx(),
                    self.dat().valid(),
                    self.idx(),
                    cond.idx(),
                )[i] {
                    al_values(
                        self.idx(),
                        self.dat().valid(),
                        self.dat().values(),
                        self.idx(),
                        cond.idx(),
                        false,
                    )[i]
                } else {
                    k
                }),
    {
        let ghost gs = self;
        let ghost gc = cond;
        let (u, sd, cd) = self.into_aligned(cond);
        let ct = cd.as_vec(false);
        let (sx, sv) = sd.into_inner();
        let mut keep = sv.duplicate();
        keep.combine(&ct, BitOp::And);
        let broadcast = BitVec::from_elem(sx.len(), k);
        let mut data = sx;
        data.blend(&keep, &broadcast);
        let mut valid = sv;
        valid.combine(&ct, BitOp::OrNot);
        let d = BitVecStorage::new(data, valid);
        proof {
            assert forall|i: int| 0 <= i < u_labels(gs.idx(), gc.idx()).len() implies
                d.valid()[i] == (bool_cond_true(&gs, &gc)[i] ==> al_valid(
                gs.idx(),
                gs.dat().valid(),
                gs.idx(),
                gc.idx(),
            )[i]) by {}
        }
        Series::<BitVecStorage>::new(u, d)
    }

    /// Keeps the column's bits where the condition is false or missing;
    /// everywhere else the scalar steps in as a valid bit.
    pub fn mask_or_scalar(self, cond: Series<BitVecStorage>, k: bool) -> (r: Series<BitVecStorage>)
        requires
            self.wf(),
            cond.wf(),
            self.idx().labels().len() + cond.idx().labels().len() <= usize::MAX,
        ensures
            r.wf(),
            r.idx().labels() == u_labels(self.idx(), cond.idx()),
            r.idx().exists_seq() == u_exists(self.idx(), cond.idx()),
            r.dat().valid().len() == u_labels(self.idx(), cond.idx()).len(),
            forall|i: int|
                0 <= i < u_labels(self.idx(), cond.idx()).len() ==> r.dat().valid()[i] == (
                !bool_cond_true(&self, &cond)[i] ==> al_valid(
                    self.idx(),
                    self.dat().valid(),
                    self.idx(),
                    cond.idx(),
                )[i]),
            forall|i: int|
                0 <= i < u_labels(self.idx(), cond.idx()).len() ==> r.dat().values()[i] == (if
                !bool_cond_true(&self, &cond)[i] && al_valid(
                    self.idx(),
                    self.dat().valid(),
                    self.idx(),
                    cond.idx(),
                )[i] {
                    al_values(
                        self.idx(),
                        self.dat().valid(),
                        self.dat().values(),
                        self.idx(),
                        cond.idx(),
                        false,
                    )[i]
                } else {
                    k
                }),
    {
        let ghost gs = self;
        let ghost gc = cond;
        let (u, sd, cd) = self.into_aligned(cond);
        let ct0 = cd.as_vec(false);
        let mut ct = BitVec::from_elem(ct0.len(), false);
        ct.combine(&ct0, BitOp::OrNot);
        let (sx, sv) = sd.into_inner();
        let mut keep = sv.duplicate();
        keep.combine(&ct, BitOp::And);
        let broadcast = BitVec::from_elem(sx.len(), k);
        let mut data = sx;
        data.blend(&keep, &broadcast);
        let mut valid = sv;
        valid.combine(&ct, BitOp::OrNot);
        let d = BitVecStorage::new(data, valid);
        proof {
            assert forall|i: int| 0 <= i < u_labels(gs.idx(), gc.idx()).len() implies ct@[i] == (
            !bool_cond_true(&gs, &gc)[i]) by {}
        }
        Series::<BitVecStorage>::new(u, d)
    }

    /// True iff some present row holds a valid `true`.
    pub fn any(&self) -> (r: bool)
        requires
            self.wf(),
        ensures
            r <==> exists|i: int|
                0 <= i < self.idx().labels().len() && self.idx().exists_seq()[i]
                    && self.dat().valid()[i] && self.dat().values()[i],
    {
        let (index, d) = self.parts();
        let (data, valid) = d.as_vec_mask();
        let (_labels, ie) = index.as_vec_mask();
        masked_any(data, valid, ie)
    }

    /// True iff every present, valid row holds `true`.
    pub fn all(&self) -> (r: bool)
        requires
            self.wf(),
        ensures
            r <==> forall|i: int|
                0 <= i < self.idx().labels().len() && self.idx().exists_seq()[i]
                    && self.dat().valid()[i] ==> self.dat().values()[i],
    {
        let (index, d) = self.parts();
        let (data, valid) = d.as_vec_mask();
        let (_labels, ie) = index.as_vec_mask();
        masked_all(data, valid, ie)
    }

    /// True iff no present row holds a valid `true`.
    pub fn none(&self) -> (r: bool)
        requires
            self.wf(),
        ensures
            r <==> !(exists|i: int|
                0 <= i < self.idx().labels().len() && self.idx().exists_seq()[i]
                    && self.dat().valid()[i] && self.dat().values()[i]),
    {
        !self.any()
    }
}

} // verus!
