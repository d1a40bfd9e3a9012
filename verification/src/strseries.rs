//! Byte-string columns: offsets-and-buffer storage behind the same index,
//! alignment and concatenation, and in-place row rewriting.

use vstd::prelude::*;

use crate::bits::{BitOp, BitVec};
use crate::index::{Index, Loc, index_equiv};
use crate::series::{Series, al_valid, al_values, u_exists, u_labels};
use crate::storage::{BitVecStorage, reindexed_valid};
use crate::strings::StringStorage;

verus! {

/// Lexicographic order on byte strings: a proper prefix comes first.
pub open spec fn lex_lt(a: Seq<u8>, b: Seq<u8>) -> bool
    decreases a.len(),
{
    if b.len() == 0 {
        false
    } else if a.len() == 0 {
        true
    } else if a[0] < b[0] {
        true
    } else if a[0] > b[0] {
        false
    } else {
        lex_lt(a.drop_first(), b.drop_first())
    }
}

/// What a comparison means on one pair of byte strings.
pub open spec fn str_cmp_val(op: crate::ops::CmpOp, a: Seq<u8>, b: Seq<u8>) -> bool {
    match op {
        crate::ops::CmpOp::Eq => a == b,
        crate::ops::CmpOp::Ne => a != b,
        crate::ops::CmpOp::Lt => lex_lt(a, b),
        crate::ops::CmpOp::Lte => lex_lt(a, b) || a == b,
        crate::ops::CmpOp::Gt => lex_lt(b, a),
        crate::ops::CmpOp::Gte => lex_lt(b, a) || a == b,
    }
}

proof fn lemma_lex_skip(a: Seq<u8>, b: Seq<u8>, k: int)
    requires
        0 <= k <= a.len(),
        k <= b.len(),
        forall|j: int| 0 <= j < k ==> a[j] == b[j],
    ensures
        lex_lt(a, b) == lex_lt(a.skip(k), b.skip(k)),
    decreases k,
{
    if k > 0 {
        if b.len() > 0 && a.len() > 0 {
            assert forall|j: int| 0 <= j < k - 1 implies a.drop_first()[j] == b.drop_first()[j] by {
                assert(a.drop_first()[j] == a[j + 1]);
            }
            lemma_lex_skip(a.drop_first(), b.drop_first(), k - 1);
            assert(a.drop_first().skip(k - 1) =~= a.skip(k));
            assert(b.drop_first().skip(k - 1) =~= b.skip(k));
        }
    } else {
        assert(a.skip(0) =~= a);
        assert(b.skip(0) =~= b);
    }
}

/// Lexicographic comparison of two byte strings.
fn bytes_lt(a: &Vec<u8>, b: &Vec<u8>) -> (r: bool)
    ensures
        r == lex_lt(a@, b@),
{
    let na = a.len();
    let nb = b.len();
    let min = if na < nb {
        na
    } else {
        nb
    };
    let mut i: usize = 0;
    while i < min
        invariant
            min <= na,
            min <= nb,
            na == a@.len(),
            nb == b@.len(),
            i <= min,
            forall|j: int| 0 <= j < i ==> a@[j] == b@[j],
        decreases min - i,
    {
        if a[i] < b[i] {
            proof {
                lemma_lex_skip(a@, b@, i as int);
            }
            return true;
        }
        if a[i] > b[i] {
            proof {
                lemma_lex_skip(a@, b@, i as int);
            }
            return false;
        }
        i = i + 1;
    }
    proof {
        lemma_lex_skip(a@, b@, min as int);
    }
    na < nb
}

/// Equality of two byte strings.
fn bytes_eq(a: &Vec<u8>, b: &Vec<u8>) -> (r: bool)
    ensures
        r == (a@ == b@),
{
    if a.len() != b.len() {
        return false;
    }
    let n = a.len();
    let mut i: usize = 0;
    while i < n
        invariant
            n == a@.len(),
            n == b@.len(),
            i <= n,
            forall|j: int| 0 <= j < i ==> a@[j] == b@[j],
        decreases n - i,
    {
        if a[i] != b[i] {
            return false;
        }
        i = i + 1;
    }
    proof {
        assert(a@ =~= b@);
    }
    true
}

fn str_cmp_exec(op: crate::ops::CmpOp, a: &Vec<u8>, b: &Vec<u8>) -> (r: bool)
    ensures
        r == str_cmp_val(op, a@, b@),
{
    match op {
        crate::ops::CmpOp::Eq => bytes_eq(a, b),
        crate::ops::CmpOp::Ne => !bytes_eq(a, b),
        crate::ops::CmpOp::Lt => bytes_lt(a, b),
        crate::ops::CmpOp::Lte => bytes_lt(a, b) || bytes_eq(a, b),
        crate::ops::CmpOp::Gt => bytes_lt(b, a),
        crate::ops::CmpOp::Gte => bytes_lt(b, a) || bytes_eq(a, b),
    }
}

/// Where the condition is decidedly true after aligning a byte-string
/// column with it: a missing condition counts as "not true".
pub open spec fn str_cond_true(s: &Series<StringStorage>, c: &Series<BitVecStorage>) -> Seq<
    bool,
> {
    let cv = al_valid(c.idx(), c.dat().valid(), s.idx(), c.idx());
    let cx = al_values(c.idx(), c.dat().valid(), c.dat().values(), s.idx(), c.idx(), false);
    Seq::new(u_labels(s.idx(), c.idx()).len(), |i: int| cv[i] && cx[i])
}

impl Series<StringStorage> {
    pub open spec fn wf(&self) -> bool {
        &&& self.idx().wf()
        &&& self.dat().wf()
        &&& self.dat().len_spec() == self.idx().labels().len()
    }

    /// Value visible at `offset`: present iff the row is present in the index
    /// and the slot is valid.
    pub open spec fn val_opt(&self, i: int) -> Option<Seq<u8>> {
        if self.idx().exists_seq()[i] && self.dat().valid()[i] {
            Some(self.dat().value_at(i))
        } else {
            None
        }
    }

    pub fn new(index: Index, data: StringStorage) -> (r: Series<StringStorage>)
        requires
            index.wf(),
            data.wf(),
            data.len_spec() == index.labels().len(),
        ensures
            r.wf(),
            r.idx() == index,
            r.dat() == data,
    {
        Series::<StringStorage>::from_parts(index, data)
    }

    /// A column over the positional index with one optional byte string per
    /// row; missing rows hold the empty string and are invalid.
    pub fn from_options(vals: Vec<Option<Vec<u8>>>) -> (r: Series<StringStorage>)
        ensures
            r.wf(),
            r.idx().labels().len() == vals@.len(),
            forall|i: int|
                0 <= i < vals@.len() ==> r.idx().labels()[i] == Loc::Pos(i as usize),
            forall|i: int| 0 <= i < vals@.len() ==> r.idx().exists_seq()[i],
            forall|i: int| 0 <= i < vals@.len() ==> r.dat().valid()[i] == (vals@[i] is Some),
            forall|i: int|
                0 <= i < vals@.len() && vals@[i] is Some ==> r.dat().value_at(i) == vals@[i]->0@,
            forall|i: int|
                0 <= i < vals@.len() && vals@[i] is None ==> r.dat().value_at(i) == Seq::<
                    u8,
                >::empty(),
    {
        let n = vals.len();
        let index = Index::from_range(0, n);
        let mut rows: Vec<Vec<u8>> = Vec::new();
        let mut exists = BitVec::new();
        let mut i: usize = 0;
        while i < n
            invariant
                n == vals@.len(),
                i <= n,
                exists.wf(),
                rows@.len() == i,
                exists@.len() == i,
                forall|j: int| 0 <= j < i ==> exists@[j] == (vals@[j] is Some),
                forall|j: int|
                    0 <= j < i && vals@[j] is Some ==> rows@[j]@ == vals@[j]->0@,
                forall|j: int|
                    0 <= j < i && vals@[j] is None ==> rows@[j]@ == Seq::<u8>::empty(),
            decreases n - i,
        {
            let row = &vals[i];
            match row {
                Some(v) => {
                    rows.push(v.clone());
                    exists.push(true);
                    proof {
                        assert(cloned::<Vec<u8>>(vals@[i as int]->0, rows@.last()));
                        assert(rows@.last()@ =~= vals@[i as int]->0@);
                    }
                },
                None => {
                    rows.push(Vec::new());
                    exists.push(false);
                },
            }
            i = i + 1;
        }
        let data = StringStorage::from_rows(rows, exists);
        Series::<StringStorage>::from_parts(index, data)
    }

    /// The index and the storage, consumed.
    pub fn into_inner(self) -> (r: (Index, StringStorage))
        ensures
            r.0 == self.idx(),
            r.1 == self.dat(),
    {
        self.into_parts()
    }

    pub fn len(&self) -> (n: usize)
        requires
            self.wf(),
        ensures
            n == self.idx().labels().len(),
    {
        let (_index, data) = self.parts();
        data.len()
    }

    /// The bytes at an offset: `Some` iff the row is present in the index and
    /// the slot is valid.
    pub fn get(&self, offset: usize) -> (r: Option<Vec<u8>>)
        requires
            self.wf(),
            offset < self.idx().labels().len(),
        ensures
            r is Some <==> self.val_opt(offset as int) is Some,
            r is Some ==> r->0@ == self.val_opt(offset as int)->0,
    {
        let (index, data) = self.parts();
        let (_labels, mask) = index.as_vec_mask();
        if mask.get(offset) {
            data.get(offset)
        } else {
            None
        }
    }

    /// The visible rows' bytes, `default` standing in for invalid slots;
    /// hidden rows are dropped.
    pub fn to_vec(&self, default: Vec<u8>) -> (r: Vec<Vec<u8>>)
        requires
            self.wf(),
        ensures
            ({
                let m = crate::series::masked_vals(
                    self.idx().exists_seq(),
                    self.dat().valid(),
                    self.dat().values(),
                    default@,
                    self.idx().labels().len() as int,
                );
                r@.len() == m.len() && forall|k: int| 0 <= k < m.len() ==> r@[k]@ == m[k]
            }),
    {
        let (index, data) = self.parts();
        let n = data.len();
        let (_labels, mask) = index.as_vec_mask();
        let mut r: Vec<Vec<u8>> = Vec::new();
        let mut i: usize = 0;
        while i < n
            invariant
                self.wf(),
                n == self.idx().labels().len(),
                i <= n,
                *mask == self.idx().exists_bv(),
                *data == self.dat(),
                ({
                    let m = crate::series::masked_vals(
                        self.idx().exists_seq(),
                        self.dat().valid(),
                        self.dat().values(),
                        default@,
                        i as int,
                    );
                    r@.len() == m.len() && forall|k: int| 0 <= k < m.len() ==> r@[k]@ == m[k]
                }),
            decreases n - i,
        {
            if mask.get(i) {
                match data.get(i) {
                    Some(v) => {
                        r.push(v);
                    },
                    None => {
                        let d = default.clone();
                        proof {
                            assert(cloned::<Vec<u8>>(default, d));
                        }
                        r.push(d);
                    },
                }
            }
            i = i + 1;
        }
        r
    }

    /// A copy of the column.
    pub fn duplicate(&self) -> (r: Series<StringStorage>)
        requires
            self.wf(),
        ensures
            r.wf(),
            r.idx().labels() == self.idx().labels(),
            r.idx().exists_seq() == self.idx().exists_seq(),
            r.dat().ends_seq() == self.dat().ends_seq(),
            r.dat().bytes_seq() == self.dat().bytes_seq(),
            r.dat().valid() == self.dat().valid(),
    {
        let (index, data) = self.parts();
        Series::<StringStorage>::from_parts(index.duplicate(), data.duplicate())
    }

    /// Aligns the column with `other`, as the integer column does.
    pub fn into_aligned(self, other: Series<StringStorage>) -> (r: (
        Index,
        StringStorage,
        StringStorage,
    ))
        requires
            self.wf(),
            other.wf(),
            self.idx().labels().len() + other.idx().labels().len() <= usize::MAX,
        ensures
            r.0.wf(),
            r.1.wf(),
            r.2.wf(),
            r.0.labels() == u_labels(self.idx(), other.idx()),
            r.0.exists_seq() == u_exists(self.idx(), other.idx()),
            r.1.len_spec() == r.0.labels().len(),
            r.2.len_spec() == r.0.labels().len(),
            r.1.valid() == al_valid(self.idx(), self.dat().valid(), self.idx(), other.idx()),
            forall|i: int|
                0 <= i < r.0.labels().len() ==> r.1.value_at(i) == al_values(
                    self.idx(),
                    self.dat().valid(),
                    self.dat().values(),
                    self.idx(),
                    other.idx(),
                    Seq::<u8>::empty(),
                )[i],
            r.2.valid() == al_valid(other.idx(), other.dat().valid(), self.idx(), other.idx()),
            forall|i: int|
                0 <= i < r.0.labels().len() ==> r.2.value_at(i) == al_values(
                    other.idx(),
                    other.dat().valid(),
                    other.dat().values(),
                    self.idx(),
                    other.idx(),
                    Seq::<u8>::empty(),
                )[i],
    {
        let ghost a = self.idx();
        let ghost b = other.idx();
        let (si, sd) = self.into_parts();
        let (oi, od) = other.into_parts();
        if si.same_as(&oi) {
            return (si, sd, od);
        }
        let u = si.duplicate().union(&oi);
        proof {
            assert(u.exists_seq() =~= u_exists(a, b));
        }
        let d1 = sd.reindex(&si, &u);
        let d2 = od.reindex(&oi, &u);
        proof {
            if !index_equiv(&si, &u) {
                assert forall|i: int| 0 <= i < u_labels(a, b).len() implies d1.valid()[i]
                    == reindexed_valid(&a, self.dat().valid(), u_labels(a, b)[i]) by {
                    assert(d1.valid()[i] == reindexed_valid(
                        &si,
                        self.dat().valid(),
                        u.labels()[i],
                    ));
                }
                assert(d1.valid() =~= al_valid(a, self.dat().valid(), a, b));
            }
            if !index_equiv(&oi, &u) {
                assert forall|i: int| 0 <= i < u_labels(a, b).len() implies d2.valid()[i]
                    == reindexed_valid(&b, other.dat().valid(), u_labels(a, b)[i]) by {
                    assert(d2.valid()[i] == reindexed_valid(
                        &oi,
                        other.dat().valid(),
                        u.labels()[i],
                    ));
                }
                assert(d2.valid() =~= al_valid(b, other.dat().valid(), a, b));
            }
        }
        (u, d1, d2)
    }

    /// Element-wise concatenation with another column, aligned first. A slot
    /// is valid iff both slots are valid and the row is present; a valid slot
    /// holds `self`'s bytes followed by `other`'s.
    pub fn add(self, other: Series<StringStorage>) -> (r: Series<StringStorage>)
        requires
            self.wf(),
            other.wf(),
            self.idx().labels().len() + other.idx().labels().len() <= usize::MAX,
        ensures
            r.wf(),
            r.idx().labels() == u_labels(self.idx(), other.idx()),
            r.idx().exists_seq() == u_exists(self.idx(), other.idx()),
            r.dat().valid().len() == u_labels(self.idx(), other.idx()).len(),
            forall|i: int|
                0 <= i < u_labels(self.idx(), other.idx()).len() ==> r.dat().valid()[i] == (
                al_valid(self.idx(), self.dat().valid(), self.idx(), other.idx())[i] && al_valid(
                    other.idx(),
                    other.dat().valid(),
                    self.idx(),
                    other.idx(),
                )[i] && u_exists(self.idx(), other.idx())[i]),
            forall|i: int|
                0 <= i < u_labels(self.idx(), other.idx()).len() && r.dat().valid()[i]
                    ==> r.dat().value_at(i) == al_values(
                    self.idx(),
                    self.dat().valid(),
                    self.dat().values(),
                    self.idx(),
                    other.idx(),
                    Seq::<u8>::empty(),
                )[i] + al_values(
                    other.idx(),
                    other.dat().valid(),
                    other.dat().values(),
                    self.idx(),
                    other.idx(),
                    Seq::<u8>::empty(),
                )[i],
    {
        let ghost gs = self;
        let ghost go = other;
        let (u, d1, d2) = self.into_aligned(other);
        let f = |x: Vec<u8>, y: Vec<u8>| -> (out: Vec<u8>)
            ensures
                out@ == x@ + y@,
            {
                let mut out = x;
                let mut yy = y;
                out.append(&mut yy);
                out
            };
        let st = {
            let (_labels, ie) = u.as_vec_mask();
            d1.zip_in_place(ie, &d2, &f)
        };
        let (ends, bytes, ex) = st.into_parts();
        let mut ex = ex;
        {
            let (_labels, ie) = u.as_vec_mask();
            ex.combine(ie, BitOp::And);
        }
        let out = StringStorage::new(ends, bytes, ex);
        Series::<StringStorage>::from_parts(u, out)
    }

    /// Aligns the column with a boolean condition column.
    pub fn into_aligned_cond(self, cond: Series<BitVecStorage>) -> (r: (
        Index,
        StringStorage,
        BitVecStorage,
    ))
        requires
            self.wf(),
            cond.wf(),
            self.idx().labels().len() + cond.idx().labels().len() <= usize::MAX,
        ensures
            r.0.wf(),
            r.1.wf(),
            r.2.wf(),
            r.0.labels() == u_labels(self.idx(), cond.idx()),
            r.0.exists_seq() == u_exists(self.idx(), cond.idx()),
            r.1.len_spec() == r.0.labels().len(),
            r.2.len_spec() == r.0.labels().len(),
            r.1.valid() == al_valid(self.idx(), self.dat().valid(), self.idx(), cond.idx()),
            forall|i: int|
                0 <= i < r.0.labels().len() ==> r.1.value_at(i) == al_values(
                    self.idx(),
                    self.dat().valid(),
                    self.dat().values(),
                    self.idx(),
                    cond.idx(),
                    Seq::<u8>::empty(),
                )[i],
            r.2.valid() == al_valid(cond.idx(), cond.dat().valid(), self.idx(), cond.idx()),
            r.2.values() == al_values(
                cond.idx(),
                cond.dat().valid(),
                cond.dat().values(),
                self.idx(),
                cond.idx(),
                false,
            ),
    {
        let ghost a = self.idx();
        let ghost b = cond.idx();
        let (si, sd) = self.into_parts();
        let (ci, cd) = cond.into_parts();
        if si.same_as(&ci) {
            return (si, sd, cd);
        }
        let u = si.duplicate().union(&ci);
        proof {
            assert(u.exists_seq() =~= u_exists(a, b));
        }
        let d1 = sd.reindex(&si, &u);
        let d2 = cd.reindex(&ci, &u);
        proof {
            if !index_equiv(&si, &u) {
                assert forall|i: int| 0 <= i < u_labels(a, b).len() implies d1.valid()[i]
                    == reindexed_valid(&a, self.dat().valid(), u_labels(a, b)[i]) by {
                    assert(d1.valid()[i] == reindexed_valid(
                        &si,
                        self.dat().valid(),
                        u.labels()[i],
                    ));
                }
                assert(d1.valid() =~= al_valid(a, self.dat().valid(), a, b));
            }
            if !index_equiv(&ci, &u) {
                assert forall|i: int| 0 <= i < u_labels(a, b).len() implies d2.valid()[i]
                    == reindexed_valid(&b, cond.dat().valid(), u_labels(a, b)[i]) by {
                    assert(d2.valid()[i] == reindexed_valid(&ci, cond.dat().valid(), u.labels()[i]));
                }
                assert(d2.valid() =~= al_valid(b, cond.dat().valid(), a, b));
                assert(d2.values() =~= al_values(
                    b,
                    cond.dat().valid(),
                    cond.dat().values(),
                    a,
                    b,
                    false,
                ));
            }
        }
        (u, d1, d2)
    }

    /// Keeps the column's rows where the condition is true and not missing;
    /// everywhere else the slot turns invalid. The buffer is untouched.
    pub fn where_(self, cond: Series<BitVecStorage>) -> (r: Series<StringStorage>)
        requires
            self.wf(),
            cond.wf(),
            self.idx().labels().len() + cond.idx().labels().len() <= usize::MAX,
        ensures
            r.wf(),
            r.idx().labels() == u_labels(self.idx(), cond.idx()),
            r.idx().exists_seq() == u_exists(self.idx(), cond.idx()),
            r.dat().valid().len() == u_labels(self.idx(), cond.idx()).len(),
            forall|i: int|
                0 <= i < u_labels(self.idx(), cond.idx()).len() ==> r.dat().value_at(i) == al_values(
                    self.idx(),
                    self.dat().valid(),
                    self.dat().values(),
                    self.idx(),
                    cond.idx(),
                    Seq::<u8>::empty(),
                )[i],
            forall|i: int|
                0 <= i < u_labels(self.idx(), cond.idx()).len() ==> r.dat().valid()[i] == (al_valid(
                    self.idx(),
                    self.dat().valid(),
                    self.idx(),
                    cond.idx(),
                )[i] && str_cond_true(&self, &cond)[i]),
    {
        let ghost gs = self;
        let ghost gc = cond;
        let (u, sd, cd) = self.into_aligned_cond(cond);
        let ghost gsd = sd;
        let ct = cd.as_vec(false);
        let (ends, bytes, ex) = sd.into_parts();
        let mut ex = ex;
        ex.combine(&ct, BitOp::And);
        let d = StringStorage::new(ends, bytes, ex);
        proof {
            assert forall|i: int| 0 <= i < u_labels(gs.idx(), gc.idx()).len() implies d.valid()[i]
                == (al_valid(gs.idx(), gs.dat().valid(), gs.idx(), gc.idx())[i] && str_cond_true(
                &gs,
                &gc,
            )[i]) by {}
            assert forall|i: int| 0 <= i < u_labels(gs.idx(), gc.idx()).len() implies d.value_at(i)
                == gsd.value_at(i) by {}
        }
        Series::<StringStorage>::new(u, d)
    }

    /// Keeps the column's rows where the condition is false or missing;
    /// everywhere else the slot turns invalid. The buffer is untouched.
    pub fn mask(self, cond: Series<BitVecStorage>) -> (r: Series<StringStorage>)
        requires
            self.wf(),
            cond.wf(),
            self.idx().labels().len() + cond.idx().labels().len() <= usize::MAX,
        ensures
            r.wf(),
            r.idx().labels() == u_labels(self.idx(), cond.idx()),
            r.idx().exists_seq() == u_exists(self.idx(), cond.idx()),
            r.dat().valid().len() == u_labels(self.idx(), cond.idx()).len(),
            forall|i: int|
                0 <= i < u_labels(self.idx(), cond.idx()).len() ==> r.dat().value_at(i) == al_values(
                    self.idx(),
                    self.dat().valid(),
                    self.dat().values(),
                    self.idx(),
                    cond.idx(),
                    Seq::<u8>::empty(),
                )[i],
            forall|i: int|
                0 <= i < u_labels(self.idx(), cond.idx()).len() ==> r.dat().valid()[i] == (al_valid(
                    self.idx(),
                    self.dat().valid(),
                    self.idx(),
                    cond.idx(),
                )[i] && !str_cond_true(&self, &cond)[i]),
    {
        let ghost gs = self;
        let ghost gc = cond;
        let (u, sd, cd) = self.into_aligned_cond(cond);
        let ghost gsd = sd;
        let ct = cd.as_vec(false);
        let (ends, bytes, ex) = sd.into_parts();
        let mut ex = ex;
        ex.combine(&ct, BitOp::Diff);
        let d = StringStorage::new(ends, bytes, ex);
        proof {
            assert forall|i: int| 0 <= i < u_labels(gs.idx(), gc.idx()).len() implies d.valid()[i]
                == (al_valid(gs.idx(), gs.dat().valid(), gs.idx(), gc.idx())[i] && !str_cond_true(
                &gs,
                &gc,
            )[i]) by {}
            assert forall|i: int| 0 <= i < u_labels(gs.idx(), gc.idx()).len() implies d.value_at(i)
                == gsd.value_at(i) by {}
        }
        Series::<StringStorage>::new(u, d)
    }

    /// The element-wise comparison with another byte-string column, aligned
    /// first; the result is a boolean column, valid where both slots are
    /// valid and the row is present.
    pub fn cmp_op(self, op: crate::ops::CmpOp, rhs: Series<StringStorage>) -> (r: Series<
        BitVecStorage,
    >)
        requires
            self.wf(),
            rhs.wf(),
            self.idx().labels().len() + rhs.idx().labels().len() <= usize::MAX,
        ensures
            r.wf(),
            r.idx().labels() == u_labels(self.idx(), rhs.idx()),
            r.idx().exists_seq() == u_exists(self.idx(), rhs.idx()),
            r.dat().valid().len() == u_labels(self.idx(), rhs.idx()).len(),
            forall|i: int|
                0 <= i < u_labels(self.idx(), rhs.idx()).len() ==> r.dat().valid()[i] == (al_valid(
                    self.idx(),
                    self.dat().valid(),
                    self.idx(),
                    rhs.idx(),
                )[i] && al_valid(rhs.idx(), rhs.dat().valid(), self.idx(), rhs.idx())[i] && u_exists(
                    self.idx(),
                    rhs.idx(),
                )[i]),
            forall|i: int|
                0 <= i < u_labels(self.idx(), rhs.idx()).len() ==> r.dat().values()[i] == (
                r.dat().valid()[i] && str_cmp_val(
                    op,
                    al_values(
                        self.idx(),
                        self.dat().valid(),
                        self.dat().values(),
                        self.idx(),
                        rhs.idx(),
                        Seq::<u8>::empty(),
                    )[i],
                    al_values(
                        rhs.idx(),
                        rhs.dat().valid(),
                        rhs.dat().values(),
                        self.idx(),
                        rhs.idx(),
                        Seq::<u8>::empty(),
                    )[i],
                )),
    {
        let ghost gs = self;
        let ghost gr = rhs;
        let (u, d1, d2) = self.into_aligned(rhs);
        let ghost sx = al_values(
            gs.idx(),
            gs.dat().valid(),
            gs.dat().values(),
            gs.idx(),
            gr.idx(),
            Seq::<u8>::empty(),
        );
        let ghost ox = al_values(
            gr.idx(),
            gr.dat().valid(),
            gr.dat().values(),
            gs.idx(),
            gr.idx(),
            Seq::<u8>::empty(),
        );
        let (e1, b1, v1) = d1.as_vec_mask();
        let (e2, b2, v2) = d2.as_vec_mask();
        let (_labels, ie) = u.as_vec_mask();
        let n = e1.len();
        let mut vals = BitVec::new();
        let mut ok = BitVec::new();
        let mut i: usize = 0;
        while i < n
            invariant
                d1.wf(),
                d2.wf(),
                u.wf(),
                e1@ == d1.ends_seq(),
                b1@ == d1.bytes_seq(),
                *v1 == d1.exists_bv(),
                e2@ == d2.ends_seq(),
                b2@ == d2.bytes_seq(),
                *v2 == d2.exists_bv(),
                *ie == u.exists_bv(),
                n == d1.len_spec(),
                d2.len_spec() == n,
                u.labels().len() == n,
                u.exists_seq().len() == n,
                forall|t: int| 0 <= t < n ==> d1.value_at(t) == sx[t],
                forall|t: int| 0 <= t < n ==> d2.value_at(t) == ox[t],
                i <= n,
                vals.wf(),
                ok.wf(),
                vals@.len() == i,
                ok@.len() == i,
                forall|t: int|
                    0 <= t < i ==> ok@[t] == (d1.valid()[t] && d2.valid()[t] && u.exists_seq()[t]),
                forall|t: int|
                    0 <= t < i ==> vals@[t] == (ok@[t] && str_cmp_val(op, sx[t], ox[t])),
            decreases n - i,
        {
            let m = v1.get(i) && v2.get(i) && ie.get(i);
            if m {
                let ra = crate::strings::extract_row(e1, b1, i);
                let rb = crate::strings::extract_row(e2, b2, i);
                vals.push(str_cmp_exec(op, &ra, &rb));
                ok.push(true);
            } else {
                vals.push(false);
                ok.push(false);
            }
            i = i + 1;
        }
        let d = BitVecStorage::new(vals, ok);
        Series::<BitVecStorage>::new(u, d)
    }

    /// Aligns with `other`, intersects validity, and rewrites each present
    /// row that stays valid through `f`, handing it its own bytes and
    /// `other`'s bytes at the same offset.
    pub fn zip_in_place<F: Fn(Vec<u8>, Vec<u8>) -> Vec<u8>>(
        self,
        other: Series<StringStorage>,
        f: &F,
    ) -> (r: Series<StringStorage>)
        requires
            self.wf(),
            other.wf(),
            self.idx().labels().len() + other.idx().labels().len() <= usize::MAX,
            forall|a: Vec<u8>, b: Vec<u8>| call_requires(*f, (a, b)),
        ensures
            r.wf(),
            r.idx().labels() == u_labels(self.idx(), other.idx()),
            r.idx().exists_seq() == u_exists(self.idx(), other.idx()),
            r.dat().valid().len() == u_labels(self.idx(), other.idx()).len(),
            forall|i: int|
                0 <= i < u_labels(self.idx(), other.idx()).len() ==> r.dat().valid()[i] == (
                al_valid(self.idx(), self.dat().valid(), self.idx(), other.idx())[i] && al_valid(
                    other.idx(),
                    other.dat().valid(),
                    self.idx(),
                    other.idx(),
                )[i]),
            forall|i: int|
                0 <= i < u_labels(self.idx(), other.idx()).len() && r.dat().valid()[i] && u_exists(
                    self.idx(),
                    other.idx(),
                )[i] ==> exists|a: Vec<u8>, b: Vec<u8>, out: Vec<u8>|
                    a@ == al_values(
                        self.idx(),
                        self.dat().valid(),
                        self.dat().values(),
                        self.idx(),
                        other.idx(),
                        Seq::<u8>::empty(),
                    )[i] && b@ == al_values(
                        other.idx(),
                        other.dat().valid(),
                        other.dat().values(),
                        self.idx(),
                        other.idx(),
                        Seq::<u8>::empty(),
                    )[i] && #[trigger] call_ensures(*f, (a, b), out) && r.dat().value_at(i) == out@,
            forall|i: int|
                0 <= i < u_labels(self.idx(), other.idx()).len() && !(r.dat().valid()[i] && u_exists(
                    self.idx(),
                    other.idx(),
                )[i]) ==> r.dat().value_at(i) == al_values(
                    self.idx(),
                    self.dat().valid(),
                    self.dat().values(),
                    self.idx(),
                    other.idx(),
                    Seq::<u8>::empty(),
                )[i],
    {
        let (u, d1, d2) = self.into_aligned(other);
        let st = {
            let (_labels, ie) = u.as_vec_mask();
            d1.zip_in_place(ie, &d2, f)
        };
        Series::<StringStorage>::from_parts(u, st)
    }

    /// Rewrites each present, valid row through `f`; validity and hidden
    /// rows are unchanged.
    pub fn map_in_place<F: Fn(Vec<u8>) -> Vec<u8>>(self, f: F) -> (r: Series<StringStorage>)
        requires
            self.wf(),
            forall|a: Vec<u8>| call_requires(f, (a,)),
        ensures
            r.wf(),
            r.idx() == self.idx(),
            r.dat().valid() == self.dat().valid(),
            r.dat().len_spec() == self.dat().len_spec(),
            forall|j: int|
                0 <= j < self.dat().len_spec() && self.dat().valid()[j]
                    && self.idx().exists_seq()[j] ==> exists|a: Vec<u8>, out: Vec<u8>|
                    a@ == self.dat().value_at(j) && #[trigger] call_ensures(f, (a,), out)
                        && r.dat().value_at(j) == out@,
            forall|j: int|
                0 <= j < self.dat().len_spec() && !(self.dat().valid()[j]
                    && self.idx().exists_seq()[j]) ==> r.dat().value_at(j) == self.dat().value_at(
                    j,
                ),
    {
        let (index, data) = self.into_parts();
        let data = {
            let (_labels, ie) = index.as_vec_mask();
            data.map_in_place(ie, &f)
        };
        Series::<StringStorage>::from_parts(index, data)
    }
}

} // verus!
