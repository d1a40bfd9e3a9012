//! Selection and replacement: `where_` keeps a column's values where a
//! boolean condition holds and drops the rest; `mask` is its complement;
//! `where_or` and `mask_or` take the other side's value instead of dropping.
//! A missing condition counts as "not true", so the else branch runs.

use vstd::prelude::*;

use crate::bits::{BitOp, BitVec};
use crate::index::{
    Index, Loc, index_equiv, lemma_equiv_has, lemma_union_absorbed, loc_eq, seq_union,
};
use crate::series::{Series, al_valid, al_values, u_exists, u_labels};
use crate::storage::{BitVecStorage, VecStorage, reindexed_valid, reindexed_value};

verus! {

/// Labels of the frame three columns are aligned to.
pub open spec fn u3_labels(a: Index, c: Index, o: Index) -> Seq<Loc> {
    if index_equiv(&a, &c) && index_equiv(&a, &o) {
        a.labels()
    } else {
        seq_union(seq_union(a.labels(), c.labels()), o.labels())
    }
}

/// "Present" bits of the three-way frame.
pub open spec fn u3_exists(a: Index, c: Index, o: Index) -> Seq<bool> {
    if index_equiv(&a, &c) && index_equiv(&a, &o) {
        a.exists_seq()
    } else {
        Seq::new(u3_labels(a, c, o).len(), |i: int| true)
    }
}

/// True iff index `x` already equals the three-way frame.
pub open spec fn equiv_to_u3(x: Index, a: Index, c: Index, o: Index) -> bool {
    &&& x.labels().len() == u3_labels(a, c, o).len()
    &&& forall|i: int| 0 <= i < x.labels().len() ==> loc_eq(x.labels()[i], u3_labels(a, c, o)[i])
    &&& x.exists_seq() == u3_exists(a, c, o)
}

/// Validity of one side after the three-way alignment.
pub open spec fn al3_valid(x: Index, xv: Seq<bool>, a: Index, c: Index, o: Index) -> Seq<bool> {
    if index_equiv(&a, &c) && index_equiv(&a, &o) || equiv_to_u3(x, a, c, o) {
        xv
    } else {
        Seq::new(u3_labels(a, c, o).len(), |i: int| reindexed_valid(&x, xv, u3_labels(a, c, o)[i]))
    }
}

/// Values of one side after the three-way alignment.
pub open spec fn al3_values<T>(
    x: Index,
    xv: Seq<bool>,
    xvals: Seq<T>,
    a: Index,
    c: Index,
    o: Index,
    default: T,
) -> Seq<T> {
    if index_equiv(&a, &c) && index_equiv(&a, &o) || equiv_to_u3(x, a, c, o) {
        xvals
    } else {
        Seq::new(
            u3_labels(a, c, o).len(),
            |i: int| reindexed_value(&x, xv, xvals, u3_labels(a, c, o)[i], default),
        )
    }
}

/// Where the condition is decidedly true after the three-way alignment: a
/// missing condition counts as "not true".
pub open spec fn cond_true3(
    s: &Series<VecStorage>,
    c: &Series<BitVecStorage>,
    o: &Series<VecStorage>,
) -> Seq<bool> {
    let cv = al3_valid(c.idx(), c.dat().valid(), s.idx(), c.idx(), o.idx());
    let cx = al3_values(c.idx(), c.dat().valid(), c.dat().values(), s.idx(), c.idx(), o.idx(), false);
    Seq::new(u3_labels(s.idx(), c.idx(), o.idx()).len(), |i: int| cv[i] && cx[i])
}

/// Validity of `where_or(s, c, o)`: the kept side's validity, slot by slot.
pub open spec fn where_or_valid(
    s: &Series<VecStorage>,
    c: &Series<BitVecStorage>,
    o: &Series<VecStorage>,
) -> Seq<bool> {
    let ct = cond_true3(s, c, o);
    let sv = al3_valid(s.idx(), s.dat().valid(), s.idx(), c.idx(), o.idx());
    let ov = al3_valid(o.idx(), o.dat().valid(), s.idx(), c.idx(), o.idx());
    Seq::new(
        u3_labels(s.idx(), c.idx(), o.idx()).len(),
        |i: int|
            if ct[i] {
                sv[i]
            } else {
                ov[i]
            },
    )
}

/// Values of `where_or(s, c, o)`: the kept side's value where it is valid,
/// the element default elsewhere.
pub open spec fn where_or_values(
    s: &Series<VecStorage>,
    c: &Series<BitVecStorage>,
    o: &Series<VecStorage>,
) -> Seq<i64> {
    let ct = cond_true3(s, c, o);
    let sv = al3_valid(s.idx(), s.dat().valid(), s.idx(), c.idx(), o.idx());
    let ov = al3_valid(o.idx(), o.dat().valid(), s.idx(), c.idx(), o.idx());
    let sx = al3_values(s.idx(), s.dat().valid(), s.dat().values(), s.idx(), c.idx(), o.idx(), 0i64);
    let ox = al3_values(o.idx(), o.dat().valid(), o.dat().values(), s.idx(), c.idx(), o.idx(), 0i64);
    Seq::new(
        u3_labels(s.idx(), c.idx(), o.idx()).len(),
        |i: int|
            if ct[i] && sv[i] {
                sx[i]
            } else if !ct[i] && ov[i] {
                ox[i]
            } else {
                0i64
            },
    )
}

/// Validity of `mask_or(s2, c, o2)`, read from the mask side: keep `s2`
/// where the condition is not true, take `o2` where it is. The frame is the
/// one `where_or(o2, c, s2)` aligns to.
pub open spec fn mask_or_valid(
    s2: &Series<VecStorage>,
    c: &Series<BitVecStorage>,
    o2: &Series<VecStorage>,
) -> Seq<bool> {
    let ct = cond_true3(o2, c, s2);
    let kv = al3_valid(s2.idx(), s2.dat().valid(), o2.idx(), c.idx(), s2.idx());
    let tv = al3_valid(o2.idx(), o2.dat().valid(), o2.idx(), c.idx(), s2.idx());
    Seq::new(
        u3_labels(o2.idx(), c.idx(), s2.idx()).len(),
        |i: int|
            if !ct[i] {
                kv[i]
            } else {
                tv[i]
            },
    )
}

/// Values of `mask_or(s2, c, o2)`, read from the mask side.
pub open spec fn mask_or_values(
    s2: &Series<VecStorage>,
    c: &Series<BitVecStorage>,
    o2: &Series<VecStorage>,
) -> Seq<i64> {
    let ct = cond_true3(o2, c, s2);
    let kv = al3_valid(s2.idx(), s2.dat().valid(), o2.idx(), c.idx(), s2.idx());
    let tv = al3_valid(o2.idx(), o2.dat().valid(), o2.idx(), c.idx(), s2.idx());
    let kx = al3_values(
        s2.idx(),
        s2.dat().valid(),
        s2.dat().values(),
        o2.idx(),
        c.idx(),
        s2.idx(),
        0i64,
    );
    let tx = al3_values(
        o2.idx(),
        o2.dat().valid(),
        o2.dat().values(),
        o2.idx(),
        c.idx(),
        s2.idx(),
        0i64,
    );
    Seq::new(
        u3_labels(o2.idx(), c.idx(), s2.idx()).len(),
        |i: int|
            if !ct[i] && kv[i] {
                kx[i]
            } else if ct[i] && tv[i] {
                tx[i]
            } else {
                0i64
            },
    )
}

/// Where the condition is decidedly true after a two-way alignment with the
/// condition column.
pub open spec fn cond_true2(s: &Series<VecStorage>, c: &Series<BitVecStorage>) -> Seq<bool> {
    let cv = al_valid(c.idx(), c.dat().valid(), s.idx(), c.idx());
    let cx = al_values(c.idx(), c.dat().valid(), c.dat().values(), s.idx(), c.idx(), false);
    Seq::new(u_labels(s.idx(), c.idx()).len(), |i: int| cv[i] && cx[i])
}

proof fn lemma_reindex_is_aligned3(x: &Index, u: &Index, a: Index, c: Index, o: Index)
    requires
        !(index_equiv(&a, &c) && index_equiv(&a, &o)),
        u.labels() == u3_labels(a, c, o),
        u.exists_seq() == u3_exists(a, c, o),
    ensures
        index_equiv(x, u) == equiv_to_u3(*x, a, c, o),
{
}

impl Series<VecStorage> {
    /// Aligns the column with a boolean condition column.
    pub fn into_aligned_cond(self, cond: Series<BitVecStorage>) -> (r: (
        Index,
        VecStorage,
        BitVecStorage,
    ))
        requires
            self.wf(),
            cond.wf(),
            self.idx().labels().len() + cond.idx().labels().len() <= usize::MAX,
        ensures
            r.0.wf(),
            r.1.wf(),
            r.2.wf(),
            r.0.labels() == u_labels(self.idx(), cond.idx()),
            r.0.exists_seq() == u_exists(self.idx(), cond.idx()),
            r.1.len_spec() == r.0.labels().len(),
            r.2.len_spec() == r.0.labels().len(),
            r.1.valid() == al_valid(self.idx(), self.dat().valid(), self.idx(), cond.idx()),
            r.1.values() == al_values(
                self.idx(),
                self.dat().valid(),
                self.dat().values(),
                self.idx(),
                cond.idx(),
                0i64,
            ),
            r.2.valid() == al_valid(cond.idx(), cond.dat().valid(), self.idx(), cond.idx()),
            r.2.values() == al_values(
                cond.idx(),
                cond.dat().valid(),
                cond.dat().values(),
                self.idx(),
                cond.idx(),
                false,
            ),
    {
        let ghost a = self.idx();
        let ghost b = cond.idx();
        let (si, sd) = self.into_parts();
        let (ci, cd) = cond.into_parts();
        if si.same_as(&ci) {
            return (si, sd, cd);
        }
        let u = si.duplicate().union(&ci);
        proof {
            assert(u.exists_seq() =~= u_exists(a, b));
        }
        let d1 = sd.reindex(&si, &u);
        let d2 = cd.reindex(&ci, &u);
        proof {
            if !index_equiv(&si, &u) {
                assert forall|i: int| 0 <= i < u_labels(a, b).len() implies d1.valid()[i]
                    == reindexed_valid(&a, self.dat().valid(), u_labels(a, b)[i]) by {
                    assert(d1.valid()[i] == reindexed_valid(
                        &si,
                        self.dat().valid(),
                        u.labels()[i],
                    ));
                }
                assert(d1.valid() =~= al_valid(a, self.dat().valid(), a, b));
                assert(d1.values() =~= al_values(
                    a,
                    self.dat().valid(),
                    self.dat().values(),
                    a,
                    b,
                    0i64,
                ));
            }
            if !index_equiv(&ci, &u) {
                assert forall|i: int| 0 <= i < u_labels(a, b).len() implies d2.valid()[i]
                    == reindexed_valid(&b, cond.dat().valid(), u_labels(a, b)[i]) by {
                    assert(d2.valid()[i] == reindexed_valid(&ci, cond.dat().valid(), u.labels()[i]));
                }
                assert(d2.valid() =~= al_valid(b, cond.dat().valid(), a, b));
                assert(d2.values() =~= al_values(
                    b,
                    cond.dat().valid(),
                    cond.dat().values(),
                    a,
                    b,
                    false,
                ));
            }
        }
        (u, d1, d2)
    }

    /// Aligns the column, a condition, and an alternative column to their
    /// common frame.
    pub fn into_aligned3(self, cond: Series<BitVecStorage>, other: Series<VecStorage>) -> (r: (
        Index,
        VecStorage,
        BitVecStorage,
        VecStorage,
    ))
        requires
            self.wf(),
            cond.wf(),
            other.wf(),
            self.idx().labels().len() + cond.idx().labels().len() + other.idx().labels().len()
                <= usize::MAX,
        ensures
            r.0.wf(),
            r.1.wf(),
            r.2.wf(),
            r.3.wf(),
            r.0.labels() == u3_labels(self.idx(), cond.idx(), other.idx()),
            r.0.exists_seq() == u3_exists(self.idx(), cond.idx(), other.idx()),
            r.1.len_spec() == r.0.labels().len(),
            r.2.len_spec() == r.0.labels().len(),
            r.3.len_spec() == r.0.labels().len(),
            r.1.valid() == al3_valid(
                self.idx(),
                self.dat().valid(),
                self.idx(),
                cond.idx(),
                other.idx(),
            ),
            r.1.values() == al3_values(
                self.idx(),
                self.dat().valid(),
                self.dat().values(),
                self.idx(),
                cond.idx(),
                other.idx(),
                0i64,
            ),
            r.2.valid() == al3_valid(
                cond.idx(),
                cond.dat().valid(),
                self.idx(),
                cond.idx(),
                other.idx(),
            ),
            r.2.values() == al3_values(
                cond.idx(),
                cond.dat().valid(),
                cond.dat().values(),
                self.idx(),
                cond.idx(),
                other.idx(),
                false,
            ),
            r.3.valid() == al3_valid(
                other.idx(),
                other.dat().valid(),
                self.idx(),
                cond.idx(),
                other.idx(),
            ),
            r.3.values() == al3_values(
                other.idx(),
                other.dat().valid(),
                other.dat().values(),
                self.idx(),
                cond.idx(),
                other.idx(),
                0i64,
            ),
    {
        let ghost a = self.idx();
        let ghost c = cond.idx();
        let ghost o = other.idx();
        let (si, sd) = self.into_parts();
        let (ci, cd) = cond.into_parts();
        let (oi, od) = other.into_parts();
        let eq_c = si.same_as(&ci);
        let eq_o = si.same_as(&oi);
        if eq_c && eq_o {
            return (si, sd, cd, od);
        }
        let u1 = si.duplicate().union(&ci);
        proof {
            if index_equiv(&si, &ci) {
                lemma_equiv_has(a.labels(), c.labels());
                lemma_union_absorbed(a.labels(), c.labels());
                assert(u1.labels() == seq_union(a.labels(), c.labels()));
            }
            crate::index::lemma_seq_union_len(a.labels(), c.labels());
        }
        let u = u1.union(&oi);
        proof {
            if index_equiv(&u1, &oi) {
                lemma_equiv_has(u1.labels(), o.labels());
                lemma_union_absorbed(u1.labels(), o.labels());
                assert(u.labels() == u3_labels(a, c, o));
                if index_equiv(&si, &ci) {
                    // The first union kept the receiver's "present" bits, but
                    // the two indexes cannot both equal the receiver's here.
                    assert(index_equiv(&a, &o));
                    assert(false);
                }
                assert(u.exists_seq() =~= u3_exists(a, c, o));
            } else {
                assert(u.labels() == u3_labels(a, c, o));
                assert(u.exists_seq() =~= u3_exists(a, c, o));
            }
        }
        let d1 = sd.reindex(&si, &u);
        let d2 = cd.reindex(&ci, &u);
        let d3 = od.reindex(&oi, &u);
        proof {
            lemma_reindex_is_aligned3(&si, &u, a, c, o);
            lemma_reindex_is_aligned3(&ci, &u, a, c, o);
            lemma_reindex_is_aligned3(&oi, &u, a, c, o);
            if !index_equiv(&si, &u) {
                assert forall|i: int| 0 <= i < u3_labels(a, c, o).len() implies d1.valid()[i]
                    == reindexed_valid(&a, self.dat().valid(), u3_labels(a, c, o)[i]) by {
                    assert(d1.valid()[i] == reindexed_valid(
                        &si,
                        self.dat().valid(),
                        u.labels()[i],
                    ));
                }
                assert(d1.valid() =~= al3_valid(a, self.dat().valid(), a, c, o));
                assert(d1.values() =~= al3_values(
                    a,
                    self.dat().valid(),
                    self.dat().values(),
                    a,
                    c,
                    o,
                    0i64,
                ));
            }
            if !index_equiv(&ci, &u) {
                assert forall|i: int| 0 <= i < u3_labels(a, c, o).len() implies d2.valid()[i]
                    == reindexed_valid(&c, cond.dat().valid(), u3_labels(a, c, o)[i]) by {
                    assert(d2.valid()[i] == reindexed_valid(&ci, cond.dat().valid(), u.labels()[i]));
                }
                assert(d2.valid() =~= al3_valid(c, cond.dat().valid(), a, c, o));
                assert(d2.values() =~= al3_values(
                    c,
                    cond.dat().valid(),
                    cond.dat().values(),
                    a,
                    c,
                    o,
                    false,
                ));
            }
            if !index_equiv(&oi, &u) {
                assert forall|i: int| 0 <= i < u3_labels(a, c, o).len() implies d3.valid()[i]
                    == reindexed_valid(&o, other.dat().valid(), u3_labels(a, c, o)[i]) by {
                    assert(d3.valid()[i] == reindexed_valid(
                        &oi,
                        other.dat().valid(),
                        u.labels()[i],
                    ));
                }
                assert(d3.valid() =~= al3_valid(o, other.dat().valid(), a, c, o));
                assert(d3.values() =~= al3_values(
                    o,
                    other.dat().valid(),
                    other.dat().values(),
                    a,
                    c,
                    o,
                    0i64,
                ));
            }
        }
        (u, d1, d2, d3)
    }

    /// Keeps the column's values where the condition is true and not
    /// missing; everywhere else the slot turns invalid. Values are untouched.
    pub fn where_(self, cond: Series<BitVecStorage>) -> (r: Series<VecStorage>)
        requires
            self.wf(),
            cond.wf(),
            self.idx().labels().len() + cond.idx().labels().len() <= usize::MAX,
        ensures
            r.wf(),
            r.idx().labels() == u_labels(self.idx(), cond.idx()),
            r.idx().exists_seq() == u_exists(self.idx(), cond.idx()),
            r.dat().values() == al_values(
                self.idx(),
                self.dat().valid(),
                self.dat().values(),
                self.idx(),
                cond.idx(),
                0i64,
            ),
            r.dat().valid().len() == u_labels(self.idx(), cond.idx()).len(),
            forall|i: int|
                0 <= i < u_labels(self.idx(), cond.idx()).len() ==> r.dat().valid()[i] == (al_valid(
                    self.idx(),
                    self.dat().valid(),
                    self.idx(),
                    cond.idx(),
                )[i] && cond_true2(&self, &cond)[i]),
    {
        let ghost gs = self;
        let ghost gc = cond;
        let (u, sd, cd) = self.into_aligned_cond(cond);
        let ct = cd.as_vec(false);
        let (vals, sv) = sd.into_parts();
        let mut sv = sv;
        sv.combine(&ct, BitOp::And);
        let d = VecStorage::new(vals, sv);
        proof {
            assert forall|i: int| 0 <= i < u_labels(gs.idx(), gc.idx()).len() implies d.valid()[i]
                == (al_valid(gs.idx(), gs.dat().valid(), gs.idx(), gc.idx())[i] && cond_true2(
                &gs,
                &gc,
            )[i]) by {}
        }
        Series::<VecStorage>::new(u, d)
    }

    /// Keeps the column's values where the condition is false or missing;
    /// everywhere else the slot turns invalid. Values are untouched.
    pub fn mask(self, cond: Series<BitVecStorage>) -> (r: Series<VecStorage>)
        requires
            self.wf(),
            cond.wf(),
            self.idx().labels().len() + cond.idx().labels().len() <= usize::MAX,
        ensures
            r.wf(),
            r.idx().labels() == u_labels(self.idx(), cond.idx()),
            r.idx().exists_seq() == u_exists(self.idx(), cond.idx()),
            r.dat().values() == al_values(
                self.idx(),
                self.dat().valid(),
                self.dat().values(),
                self.idx(),
                cond.idx(),
                0i64,
            ),
            r.dat().valid().len() == u_labels(self.idx(), cond.idx()).len(),
            forall|i: int|
                0 <= i < u_labels(self.idx(), cond.idx()).len() ==> r.dat().valid()[i] == (al_valid(
                    self.idx(),
                    self.dat().valid(),
                    self.idx(),
                    cond.idx(),
                )[i] && !cond_true2(&self, &cond)[i]),
    {
        let ghost gs = self;
        let ghost gc = cond;
        let (u, sd, cd) = self.into_aligned_cond(cond);
        let ct = cd.as_vec(false);
        let (vals, sv) = sd.into_parts();
        let mut sv = sv;
        sv.combine(&ct, BitOp::Diff);
        let d = VecStorage::new(vals, sv);
        proof {
            assert forall|i: int| 0 <= i < u_labels(gs.idx(), gc.idx()).len() implies d.valid()[i]
                == (al_valid(gs.idx(), gs.dat().valid(), gs.idx(), gc.idx())[i] && !cond_true2(
                &gs,
                &gc,
            )[i]) by {}
        }
        Series::<VecStorage>::new(u, d)
    }

    /// Keeps the column's values where the condition is true and not
    /// missing; everywhere else the scalar steps in as a valid value.
    pub fn where_or_scalar(self, cond: Series<BitVecStorage>, k: i64) -> (r: Series<VecStorage>)
        requires
            self.wf(),
            cond.wf(),
            self.idx().labels().len() + cond.idx().labels().len() <= usize::MAX,
        ensures
            r.wf(),
            r.idx().labels() == u_labels(self.idx(), cond.idx()),
            r.idx().exists_seq() == u_exists(self.idx(), cond.idx()),
            r.dat().valid().len() == u_labels(self.idx(), cond.idx()).len(),
            forall|i: int|
                0 <= i < u_labels(self.idx(), cond.idx()).len() ==> r.dat().valid()[i] == (
                cond_true2(&self, &cond)[i] ==> al_valid(
                    self.idx(),
                    self.dat().valid(),
                    self.idx(),
                    cond.idx(),
                )[i]),
            forall|i: int|
                0 <= i < u_labels(self.idx(), cond.idx()).len() ==> r.dat().values()[i] == (if
                cond_true2(&self, &cond)[i] && al_valid(
                    self.idx(),
                    self.dat().valid(),
                    self.idx(),
                    cond.idx(),
                )[i] {
                    al_values(
                        self.idx(),
                        self.dat().valid(),
                        self.dat().values(),
                        self.idx(),
                        cond.idx(),
                        0i64,
                    )[i]
                } else {
                    k
                }),
    {
        let ghost gs = self;
        let ghost gc = cond;
        let (u, sd, cd) = self.into_aligned_cond(cond);
        let ct = cd.as_vec(false);
        let d = select_scalar_kernel(sd, &ct, k);
        proof {
            assert forall|i: int| 0 <= i < u_labels(gs.idx(), gc.idx()).len() implies ct@[i]
                == cond_true2(&gs, &gc)[i] by {}
        }
        Series::<VecStorage>::new(u, d)
    }

    /// Keeps the column's values where the condition is false or missing;
    /// everywhere else the scalar steps in as a valid value.
    pub fn mask_or_scalar(self, cond: Series<BitVecStorage>, k: i64) -> (r: Series<VecStorage>)
        requires
            self.wf(),
            cond.wf(),
            self.idx().labels().len() + cond.idx().labels().len() <= usize::MAX,
        ensures
            r.wf(),
            r.idx().labels() == u_labels(self.idx(), cond.idx()),
            r.idx().exists_seq() == u_exists(self.idx(), cond.idx()),
            r.dat().valid().len() == u_labels(self.idx(), cond.idx()).len(),
            forall|i: int|
                0 <= i < u_labels(self.idx(), cond.idx()).len() ==> r.dat().valid()[i] == (
                !cond_true2(&self, &cond)[i] ==> al_valid(
                    self.idx(),
                    self.dat().valid(),
                    self.idx(),
                    cond.idx(),
                )[i]),
            forall|i: int|
                0 <= i < u_labels(self.idx(), cond.idx()).len() ==> r.dat().values()[i] == (if
                !cond_true2(&self, &cond)[i] && al_valid(
                    self.idx(),
                    self.dat().valid(),
                    self.idx(),
                    cond.idx(),
                )[i] {
                    al_values(
                        self.idx(),
                        self.dat().valid(),
                        self.dat().values(),
                        self.idx(),
                        cond.idx(),
                        0i64,
                    )[i]
                } else {
                    k
                }),
    {
        let ghost gs = self;
        let ghost gc = cond;
        let (u, sd, cd) = self.into_aligned_cond(cond);
        let ct0 = cd.as_vec(false);
        let mut ct = BitVec::from_elem(ct0.len(), false);
        ct.combine(&ct0, BitOp::OrNot);
        let d = select_scalar_kernel(sd, &ct, k);
        proof {
            assert forall|i: int| 0 <= i < u_labels(gs.idx(), gc.idx()).len() implies ct@[i] == (
            !cond_true2(&gs, &gc)[i]) by {}
        }
        Series::<VecStorage>::new(u, d)
    }

    /// Keeps the column's values where the condition is true and not
    /// missing; everywhere else the other column's slot steps in.
    pub fn where_or(self, cond: Series<BitVecStorage>, other: Series<VecStorage>) -> (r: Series<
        VecStorage,
    >)
        requires
            self.wf(),
            cond.wf(),
            other.wf(),
            self.idx().labels().len() + cond.idx().labels().len() + other.idx().labels().len()
                <= usize::MAX,
        ensures
            r.wf(),
            r.idx().labels() == u3_labels(self.idx(), cond.idx(), other.idx()),
            r.idx().exists_seq() == u3_exists(self.idx(), cond.idx(), other.idx()),
            r.dat().valid() == where_or_valid(&self, &cond, &other),
            r.dat().values() == where_or_values(&self, &cond, &other),
    {
        let ghost gs = self;
        let ghost gc = cond;
        let ghost go = other;
        let (u, sd, cd, od) = self.into_aligned3(cond, other);
        let ct = cd.as_vec(false);
        let (svals, sv) = sd.into_parts();
        let (ovals, ov) = od.into_parts();
        let n = svals.len();
        let mut vals: Vec<i64> = Vec::new();
        let mut ok = BitVec::new();
        let mut i: usize = 0;
        while i < n
            invariant
                i <= n,
                n == svals@.len(),
                ovals@.len() == n,
                sv.wf(),
                ov.wf(),
                ct.wf(),
                sv@.len() == n,
                ov@.len() == n,
                ct@.len() == n,
                ok.wf(),
                vals@.len() == i,
                ok@.len() == i,
                forall|j: int|
                    0 <= j < i ==> ok@[j] == (if ct@[j] {
                        sv@[j]
                    } else {
                        ov@[j]
                    }),
                forall|j: int|
                    0 <= j < i ==> vals@[j] == (if ct@[j] && sv@[j] {
                        svals@[j]
                    } else if !ct@[j] && ov@[j] {
                        ovals@[j]
                    } else {
                        0i64
                    }),
            decreases n - i,
        {
            let c = ct.get(i);
            if c {
                if sv.get(i) {
                    vals.push(svals[i]);
                    ok.push(true);
                } else {
                    vals.push(0i64);
                    ok.push(false);
                }
            } else {
                if ov.get(i) {
                    vals.push(ovals[i]);
                    ok.push(true);
                } else {
                    vals.push(0i64);
                    ok.push(false);
                }
            }
            i = i + 1;
        }
        let d = VecStorage::new(vals, ok);
        proof {
            assert(d.valid() =~= where_or_valid(&gs, &gc, &go));
            assert(d.values() =~= where_or_values(&gs, &gc, &go));
        }
        Series::<VecStorage>::new(u, d)
    }

    /// Keeps the column's values where the condition is false or missing;
    /// everywhere else the other column's slot steps in. This is exactly
    /// `other.where_or(cond, self)`.
    pub fn mask_or(self, cond: Series<BitVecStorage>, other: Series<VecStorage>) -> (r: Series<
        VecStorage,
    >)
        requires
            self.wf(),
            cond.wf(),
            other.wf(),
            self.idx().labels().len() + cond.idx().labels().len() + other.idx().labels().len()
                <= usize::MAX,
        ensures
            r.wf(),
            r.idx().labels() == u3_labels(other.idx(), cond.idx(), self.idx()),
            r.idx().exists_seq() == u3_exists(other.idx(), cond.idx(), self.idx()),
            r.dat().valid() == mask_or_valid(&self, &cond, &other),
            r.dat().values() == mask_or_values(&self, &cond, &other),
    {
        let ghost gs = self;
        let ghost gc = cond;
        let ghost go = other;
        let r = other.where_or(cond, self);
        proof {
            lemma_where_mask_duality(&go, &gc, &gs);
        }
        r
    }
}

/// Keeps the storage's slots where `ct` is set; elsewhere the scalar steps
/// in as a valid value.
fn select_scalar_kernel(s: VecStorage, ct: &BitVec, k: i64) -> (r: VecStorage)
    requires
        s.wf(),
        ct.wf(),
        ct@.len() == s.len_spec(),
    ensures
        r.wf(),
        r.len_spec() == s.len_spec(),
        forall|i: int|
            0 <= i < s.len_spec() ==> r.valid()[i] == (ct@[i] ==> s.valid()[i]),
        forall|i: int|
            0 <= i < s.len_spec() ==> r.values()[i] == (if ct@[i] && s.valid()[i] {
                s.values()[i]
            } else {
                k
            }),
{
    let (svals, sv) = s.into_parts();
    let n = svals.len();
    let mut vals: Vec<i64> = Vec::new();
    let mut ok = BitVec::new();
    let mut i: usize = 0;
    while i < n
        invariant
            i <= n,
            n == svals@.len(),
            sv.wf(),
            ct.wf(),
            sv@.len() == n,
            ct@.len() == n,
            ok.wf(),
            vals@.len() == i,
            ok@.len() == i,
            forall|j: int| 0 <= j < i ==> ok@[j] == (ct@[j] ==> sv@[j]),
            forall|j: int|
                0 <= j < i ==> vals@[j] == (if ct@[j] && sv@[j] {
                    svals@[j]
                } else {
                    k
                }),
        decreases n - i,
    {
        if ct.get(i) {
            if sv.get(i) {
                vals.push(svals[i]);
                ok.push(true);
            } else {
                vals.push(k);
                ok.push(false);
            }
        } else {
            vals.push(k);
            ok.push(true);
        }
        i = i + 1;
    }
    VecStorage::new(vals, ok)
}

/// Selecting with the condition and selecting against it are two readings of
/// one operation: `mask_or(s, c, o)` shows exactly the column
/// `where_or(o, c, s)` shows.
pub proof fn lemma_where_mask_duality(
    o2: &Series<VecStorage>,
    c: &Series<BitVecStorage>,
    s2: &Series<VecStorage>,
)
    ensures
        mask_or_valid(s2, c, o2) == where_or_valid(o2, c, s2),
        mask_or_values(s2, c, o2) == where_or_values(o2, c, s2),
{
    assert(mask_or_valid(s2, c, o2) =~= where_or_valid(o2, c, s2));
    assert(mask_or_values(s2, c, o2) =~= where_or_values(o2, c, s2));
}

} // verus!
