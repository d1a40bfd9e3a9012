//! A column: a row index beside one storage. Columns over different indexes
//! are aligned to the union index before element-wise work; missing slots
//! propagate as invalid.

use vstd::prelude::*;

use crate::bits::BitVec;
use crate::index::{Index, Loc, index_equiv, loc_eq, seq_union};
use crate::storage::{BitVecStorage, VecStorage, reindexed_valid, reindexed_value};
use crate::strings::StringStorage;

verus! {

/// A typed, nullable column: a row index and a storage of the same length.
pub struct Series<S> {
    index: Index,
    data: S,
}

impl<S> Series<S> {
    /// The row index.
    pub closed spec fn idx(&self) -> Index {
        self.index
    }

    /// The storage.
    pub closed spec fn dat(&self) -> S {
        self.data
    }

    /// The row index and the storage, borrowed side by side.
    pub fn parts(&self) -> (r: (&Index, &S))
        ensures
            *r.0 == self.idx(),
            *r.1 == self.dat(),
    {
        (&self.index, &self.data)
    }

    /// A column from its two parts. The storage must be as long as the
    /// index; constructors with that requirement stated sit on each concrete
    /// column type.
    pub fn from_parts(index: Index, data: S) -> (r: Series<S>)
        ensures
            r.idx() == index,
            r.dat() == data,
    {
        Series { index, data }
    }

    /// The row index and the storage, consumed.
    pub fn into_parts(self) -> (r: (Index, S))
        ensures
            r.0 == self.idx(),
            r.1 == self.dat(),
    {
        (self.index, self.data)
    }
}

/// Labels of the union frame two columns are aligned to: the left index's
/// labels when the indexes are equal, their union otherwise.
pub open spec fn u_labels(a: Index, b: Index) -> Seq<Loc> {
    if index_equiv(&a, &b) {
        a.labels()
    } else {
        seq_union(a.labels(), b.labels())
    }
}

/// "Present" bits of the union frame: the left index's bits when the indexes
/// are equal, all-present otherwise.
pub open spec fn u_exists(a: Index, b: Index) -> Seq<bool> {
    if index_equiv(&a, &b) {
        a.exists_seq()
    } else {
        Seq::new(seq_union(a.labels(), b.labels()).len(), |i: int| true)
    }
}

/// True iff index `x` already equals the union frame of `a` and `b`.
pub open spec fn equiv_to_u(x: Index, a: Index, b: Index) -> bool {
    &&& x.labels().len() == u_labels(a, b).len()
    &&& forall|i: int| 0 <= i < x.labels().len() ==> loc_eq(x.labels()[i], u_labels(a, b)[i])
    &&& x.exists_seq() == u_exists(a, b)
}

/// Validity of one side after aligning `a` and `b`: unchanged where no
/// reindexing happens, resolved through the previous index elsewhere.
pub open spec fn al_valid(x: Index, xv: Seq<bool>, a: Index, b: Index) -> Seq<bool> {
    if index_equiv(&a, &b) || equiv_to_u(x, a, b) {
        xv
    } else {
        Seq::new(u_labels(a, b).len(), |i: int| reindexed_valid(&x, xv, u_labels(a, b)[i]))
    }
}

/// Values of one side after aligning `a` and `b`.
pub open spec fn al_values<T>(x: Index, xv: Seq<bool>, xvals: Seq<T>, a: Index, b: Index, default: T) -> Seq<T> {
    if index_equiv(&a, &b) || equiv_to_u(x, a, b) {
        xvals
    } else {
        Seq::new(
            u_labels(a, b).len(),
            |i: int| reindexed_value(&x, xv, xvals, u_labels(a, b)[i], default),
        )
    }
}

/// The sequence of values the column shows: one entry per present row, the
/// value where the slot is valid and `default` where it is not.
pub open spec fn masked_vals<T>(
    e: Seq<bool>,
    v: Seq<bool>,
    vals: Seq<T>,
    default: T,
    n: int,
) -> Seq<T>
    decreases n,
{
    if n <= 0 {
        Seq::<T>::empty()
    } else {
        masked_vals(e, v, vals, default, n - 1) + if e[n - 1] {
            seq![
                if v[n - 1] {
                    vals[n - 1]
                } else {
                    default
                },
            ]
        } else {
            Seq::<T>::empty()
        }
    }
}

/// The visible rows as label/value pairs: one entry per present row, `None`
/// standing for an invalid slot.
pub open spec fn masked_pairs<T>(
    lab: Seq<Loc>,
    e: Seq<bool>,
    v: Seq<bool>,
    vals: Seq<T>,
    n: int,
) -> Seq<(Loc, Option<T>)>
    decreases n,
{
    if n <= 0 {
        Seq::<(Loc, Option<T>)>::empty()
    } else {
        masked_pairs(lab, e, v, vals, n - 1) + if e[n - 1] {
            seq![
                (
                    lab[n - 1],
                    if v[n - 1] {
                        Some(vals[n - 1])
                    } else {
                        None
                    },
                ),
            ]
        } else {
            Seq::<(Loc, Option<T>)>::empty()
        }
    }
}

/// As [`masked_vals`], with `None` standing for an invalid slot.
pub open spec fn masked_opts<T>(e: Seq<bool>, v: Seq<bool>, vals: Seq<T>, n: int) -> Seq<
    Option<T>,
>
    decreases n,
{
    if n <= 0 {
        Seq::<Option<T>>::empty()
    } else {
        masked_opts(e, v, vals, n - 1) + if e[n - 1] {
            seq![
                if v[n - 1] {
                    Some(vals[n - 1])
                } else {
                    None
                },
            ]
        } else {
            Seq::<Option<T>>::empty()
        }
    }
}

impl Series<VecStorage> {
    pub open spec fn wf(&self) -> bool {
        &&& self.idx().wf()
        &&& self.dat().wf()
        &&& self.dat().len_spec() == self.idx().labels().len()
    }

    /// Value visible at `offset`: present iff the row is present in the index
    /// and the slot is valid.
    pub open spec fn val_opt(&self, i: int) -> Option<i64> {
        if self.idx().exists_seq()[i] && self.dat().valid()[i] {
            Some(self.dat().values()[i])
        } else {
            None
        }
    }

    pub fn new(index: Index, data: VecStorage) -> (r: Series<VecStorage>)
        requires
            index.wf(),
            data.wf(),
            data.len_spec() == index.labels().len(),
        ensures
            r.wf(),
            r.idx() == index,
            r.dat() == data,
    {
        Series { index, data }
    }

    /// A column of the given values over the positional index `0..n`.
    pub fn from_values(vals: Vec<i64>) -> (r: Series<VecStorage>)
        ensures
            r.wf(),
            r.idx().labels().len() == vals@.len(),
            forall|i: int|
                0 <= i < vals@.len() ==> r.idx().labels()[i] == Loc::Pos(i as usize),
            forall|i: int| 0 <= i < vals@.len() ==> r.idx().exists_seq()[i],
            r.dat().values() == vals@,
            forall|i: int| 0 <= i < vals@.len() ==> r.dat().valid()[i],
    {
        let n = vals.len();
        let index = Index::from_range(0, n);
        let data = VecStorage::from_values(vals);
        Series { index, data }
    }

    /// A column over the positional index with one optional value per row.
    pub fn from_options(vals: Vec<Option<i64>>) -> (r: Series<VecStorage>)
        ensures
            r.wf(),
            r.idx().labels().len() == vals@.len(),
            forall|i: int|
                0 <= i < vals@.len() ==> r.idx().labels()[i] == Loc::Pos(i as usize),
            forall|i: int| 0 <= i < vals@.len() ==> r.idx().exists_seq()[i],
            forall|i: int|
                0 <= i < vals@.len() ==> r.val_opt(i) == vals@[i],
    {
        let n = vals.len();
        let index = Index::from_range(0, n);
        let mut data: Vec<i64> = Vec::new();
        let mut exists = BitVec::new();
        let mut i: usize = 0;
        while i < n
            invariant
                n == vals@.len(),
                i <= n,
                exists.wf(),
                data@.len() == i,
                exists@.len() == i,
                forall|j: int| 0 <= j < i ==> exists@[j] == (vals@[j] is Some),
                forall|j: int|
                    0 <= j < i && vals@[j] is Some ==> data@[j] == vals@[j]->0,
            decreases n - i,
        {
            match vals[i] {
                Some(v) => {
                    data.push(v);
                    exists.push(true);
                },
                None => {
                    data.push(0i64);
                    exists.push(false);
                },
            }
            i = i + 1;
        }
        let data = VecStorage::new(data, exists);
        Series { index, data }
    }

    /// The index and the storage, consumed.
    pub fn into_inner(self) -> (r: (Index, VecStorage))
        ensures
            r.0 == self.idx(),
            r.1 == self.dat(),
    {
        (self.index, self.data)
    }

    pub fn len(&self) -> (n: usize)
        requires
            self.wf(),
        ensures
            n == self.idx().labels().len(),
    {
        self.data.len()
    }

    /// The value at an offset: `Some` iff the row is present in the index and
    /// the slot is valid.
    pub fn get(&self, offset: usize) -> (r: Option<i64>)
        requires
            self.wf(),
            offset < self.idx().labels().len(),
        ensures
            r == self.val_opt(offset as int),
            r is Some <==> self.idx().exists_seq()[offset as int] && self.dat().valid()[offset as int],
    {
        let (_labels, mask) = self.index.as_vec_mask();
        if mask.get(offset) {
            self.data.get(offset)
        } else {
            None
        }
    }

    /// The value under a label, through the index.
    pub fn loc(&self, loc: &Loc) -> (r: Option<i64>)
        requires
            self.wf(),
        ensures
            r == (match self.idx().get_spec(*loc) {
                Some(p) => self.val_opt(p),
                None => None::<i64>,
            }),
    {
        match self.index.get(loc) {
            Some(offset) => self.get(offset),
            None => None,
        }
    }

    /// The visible values, `default` standing in for invalid slots; hidden
    /// rows are dropped.
    pub fn to_vec(&self, default: i64) -> (r: Vec<i64>)
        requires
            self.wf(),
        ensures
            r@ == masked_vals(
                self.idx().exists_seq(),
                self.dat().valid(),
                self.dat().values(),
                default,
                self.idx().labels().len() as int,
            ),
    {
        let n = self.data.len();
        let (_labels, mask) = self.index.as_vec_mask();
        let mut r: Vec<i64> = Vec::new();
        let mut i: usize = 0;
        while i < n
            invariant
                self.wf(),
                n == self.idx().labels().len(),
                i <= n,
                *mask == self.idx().exists_bv(),
                r@ == masked_vals(
                    self.idx().exists_seq(),
                    self.dat().valid(),
                    self.dat().values(),
                    default,
                    i as int,
                ),
            decreases n - i,
        {
            if mask.get(i) {
                match self.data.get(i) {
                    Some(v) => r.push(v),
                    None => r.push(default),
                }
            }
            i = i + 1;
        }
        r
    }

    /// The visible values as options; hidden rows are dropped.
    pub fn to_option_vec(&self) -> (r: Vec<Option<i64>>)
        requires
            self.wf(),
        ensures
            r@ == masked_opts(
                self.idx().exists_seq(),
                self.dat().valid(),
                self.dat().values(),
                self.idx().labels().len() as int,
            ),
    {
        let n = self.data.len();
        let (_labels, mask) = self.index.as_vec_mask();
        let mut r: Vec<Option<i64>> = Vec::new();
        let mut i: usize = 0;
        while i < n
            invariant
                self.wf(),
                n == self.idx().labels().len(),
                i <= n,
                *mask == self.idx().exists_bv(),
                r@ == masked_opts(
                    self.idx().exists_seq(),
                    self.dat().valid(),
                    self.dat().values(),
                    i as int,
                ),
            decreases n - i,
        {
            if mask.get(i) {
                r.push(self.data.get(i));
            }
            i = i + 1;
        }
        r
    }

    /// The visible rows as label/value pairs; hidden rows are dropped.
    pub fn to_index_option_vec(&self) -> (r: Vec<(Loc, Option<i64>)>)
        requires
            self.wf(),
        ensures
            r@ == masked_pairs(
                self.idx().labels(),
                self.idx().exists_seq(),
                self.dat().valid(),
                self.dat().values(),
                self.idx().labels().len() as int,
            ),
    {
        let (labels, mask) = self.index.as_vec_mask();
        let n = self.data.len();
        let mut r: Vec<(Loc, Option<i64>)> = Vec::new();
        let mut i: usize = 0;
        while i < n
            invariant
                self.wf(),
                n == self.idx().labels().len(),
                i <= n,
                labels@ == self.idx().labels(),
                *mask == self.idx().exists_bv(),
                r@ == masked_pairs(
                    self.idx().labels(),
                    self.idx().exists_seq(),
                    self.dat().valid(),
                    self.dat().values(),
                    i as int,
                ),
            decreases n - i,
        {
            if mask.get(i) {
                r.push((labels[i].clone(), self.data.get(i)));
            }
            i = i + 1;
        }
        r
    }

    /// The visible rows as label/value pairs, `default` standing in for
    /// invalid slots; hidden rows are dropped.
    pub fn to_index_vec(&self, default: i64) -> (r: Vec<(Loc, i64)>)
        requires
            self.wf(),
        ensures
            ({
                let pairs = masked_pairs(
                    self.idx().labels(),
                    self.idx().exists_seq(),
                    self.dat().valid(),
                    self.dat().values(),
                    self.idx().labels().len() as int,
                );
                r@.len() == pairs.len() && forall|k: int|
                    0 <= k < pairs.len() ==> #[trigger] r@[k] == (
                        pairs[k].0,
                        match pairs[k].1 {
                            Some(v) => v,
                            None => default,
                        },
                    )
            }),
    {
        let pairs = self.to_index_option_vec();
        let n = pairs.len();
        let ghost gp = pairs@;
        let mut r: Vec<(Loc, i64)> = Vec::new();
        let mut i: usize = 0;
        while i < n
            invariant
                gp == pairs@,
                gp.len() == n,
                i <= n,
                r@.len() == i,
                forall|k: int|
                    0 <= k < i ==> #[trigger] r@[k] == (
                        gp[k].0,
                        match gp[k].1 {
                            Some(v) => v,
                            None => default,
                        },
                    ),
            decreases n - i,
        {
            let pair = &pairs[i];
            let loc = pair.0.clone();
            match pair.1 {
                Some(v) => r.push((loc, v)),
                None => r.push((loc, default)),
            }
            i = i + 1;
        }
        r
    }

    /// The visible rows as label/value pairs, in index order; the caller
    /// walks the returned vector in place of an iterator.
    pub fn iter(&self) -> (r: Vec<(Loc, Option<i64>)>)
        requires
            self.wf(),
        ensures
            r@ == masked_pairs(
                self.idx().labels(),
                self.idx().exists_seq(),
                self.dat().valid(),
                self.dat().values(),
                self.idx().labels().len() as int,
            ),
    {
        self.to_index_option_vec()
    }

    /// A copy of the column.
    pub fn duplicate(&self) -> (r: Series<VecStorage>)
        requires
            self.wf(),
        ensures
            r.wf(),
            r.idx().labels() == self.idx().labels(),
            r.idx().exists_seq() == self.idx().exists_seq(),
            r.dat().values() == self.dat().values(),
            r.dat().valid() == self.dat().valid(),
    {
        Series { index: self.index.duplicate(), data: self.data.duplicate() }
    }

    /// Aligns the column with `other`: both storages are laid out over the
    /// union of the two indexes. Equal indexes skip the realignment and keep
    /// both storages, "present" bits included.
    pub fn into_aligned(self, other: Series<VecStorage>) -> (r: (Index, VecStorage, VecStorage))
        requires
            self.wf(),
            other.wf(),
            self.idx().labels().len() + other.idx().labels().len() <= usize::MAX,
        ensures
            r.0.wf(),
            r.1.wf(),
            r.2.wf(),
            r.0.labels() == u_labels(self.idx(), other.idx()),
            r.0.exists_seq() == u_exists(self.idx(), other.idx()),
            r.1.len_spec() == r.0.labels().len(),
            r.2.len_spec() == r.0.labels().len(),
            r.1.valid() == al_valid(self.idx(), self.dat().valid(), self.idx(), other.idx()),
            r.1.values() == al_values(
                self.idx(),
                self.dat().valid(),
                self.dat().values(),
                self.idx(),
                other.idx(),
                0i64,
            ),
            r.2.valid() == al_valid(other.idx(), other.dat().valid(), self.idx(), other.idx()),
            r.2.values() == al_values(
                other.idx(),
                other.dat().valid(),
                other.dat().values(),
                self.idx(),
                other.idx(),
                0i64,
            ),
    {
        let ghost a = self.idx();
        let ghost b = other.idx();
        if self.index.same_as(&other.index) {
            return (self.index, self.data, other.data);
        }
        let u = self.index.duplicate().union(&other.index);
        proof {
            assert(u.labels() == u_labels(a, b));
            assert(u.exists_seq() =~= u_exists(a, b));
        }
        let d1 = self.data.reindex(&self.index, &u);
        let d2 = other.data.reindex(&other.index, &u);
        proof {
            lemma_reindex_is_aligned(&self.index, &u, a, b);
            lemma_reindex_is_aligned(&other.index, &u, a, b);
            assert(!index_equiv(&a, &b));
            if !index_equiv(&self.index, &u) {
                assert(!equiv_to_u(a, a, b));
                assert(d1.len_spec() == u.labels().len());
                assert(d1.valid().len() == u_labels(a, b).len());
                assert forall|i: int| 0 <= i < u_labels(a, b).len() implies d1.valid()[i]
                    == reindexed_valid(&a, self.dat().valid(), u_labels(a, b)[i]) by {
                    assert(d1.valid()[i] == reindexed_valid(
                        &self.index,
                        self.dat().valid(),
                        u.labels()[i],
                    ));
                }
                assert(d1.valid() =~= al_valid(a, self.dat().valid(), a, b));
                assert(d1.values() =~= al_values(
                    a,
                    self.dat().valid(),
                    self.dat().values(),
                    a,
                    b,
                    0i64,
                ));
            }
            if !index_equiv(&other.index, &u) {
                assert(!equiv_to_u(b, a, b));
                assert(d2.valid().len() == u_labels(a, b).len());
                assert forall|i: int| 0 <= i < u_labels(a, b).len() implies d2.valid()[i]
                    == reindexed_valid(&b, other.dat().valid(), u_labels(a, b)[i]) by {
                    assert(d2.valid()[i] == reindexed_valid(
                        &other.index,
                        other.dat().valid(),
                        u.labels()[i],
                    ));
                }
                assert(d2.valid() =~= al_valid(b, other.dat().valid(), a, b));
                assert(d2.values() =~= al_values(
                    b,
                    other.dat().valid(),
                    other.dat().values(),
                    a,
                    b,
                    0i64,
                ));
            }
        }
        (u, d1, d2)
    }
}

impl Series<VecStorage> {
    /// Aligns two columns and returns them as columns again, both over the
    /// union index.
    pub fn align(self, other: Series<VecStorage>) -> (r: (Series<VecStorage>, Series<VecStorage>))
        requires
            self.wf(),
            other.wf(),
            self.idx().labels().len() + other.idx().labels().len() <= usize::MAX,
        ensures
            r.0.wf(),
            r.1.wf(),
            r.0.idx().labels() == u_labels(self.idx(), other.idx()),
            r.0.idx().exists_seq() == u_exists(self.idx(), other.idx()),
            r.1.idx().labels() == u_labels(self.idx(), other.idx()),
            r.1.idx().exists_seq() == u_exists(self.idx(), other.idx()),
            r.0.dat().valid() == al_valid(self.idx(), self.dat().valid(), self.idx(), other.idx()),
            r.0.dat().values() == al_values(
                self.idx(),
                self.dat().valid(),
                self.dat().values(),
                self.idx(),
                other.idx(),
                0i64,
            ),
            r.1.dat().valid() == al_valid(
                other.idx(),
                other.dat().valid(),
                self.idx(),
                other.idx(),
            ),
            r.1.dat().values() == al_values(
                other.idx(),
                other.dat().valid(),
                other.dat().values(),
                self.idx(),
                other.idx(),
                0i64,
            ),
    {
        let (u, d1, d2) = self.into_aligned(other);
        let u2 = u.duplicate();
        proof {
            assert(u2.labels() =~= u.labels());
        }
        (Series::<VecStorage>::new(u, d1), Series::<VecStorage>::new(u2, d2))
    }
}

/// Connects the equality test an aligned reindex makes against the union
/// index with its description over the two original indexes.
proof fn lemma_reindex_is_aligned(x: &Index, u: &Index, a: Index, b: Index)
    requires
        !index_equiv(&a, &b),
        u.labels() == u_labels(a, b),
        u.exists_seq() == u_exists(a, b),
    ensures
        index_equiv(x, u) == equiv_to_u(*x, a, b),
{
}

} // verus!
