//! The dataframe: an ordered set of named, type-tagged columns sharing one
//! row index. Inserting a column unions its index into the frame and lays
//! every storage out over the union; filtering narrows the shared index and
//! leaves every storage untouched.

use vstd::prelude::*;

use crate::bits::count_trues;
use crate::index::{Index, Loc, find_in, find_loc, has_loc, index_equiv};
use crate::series::{Series, u_exists, u_labels};
use crate::storage::{BitVecStorage, VecStorage, reindexed_valid, reindexed_value};
use crate::strings::StringStorage;

verus! {

/// Offset of the first column label that is the name `nm`.
pub open spec fn find_name(s: Seq<Loc>, nm: Seq<char>) -> Option<int>
    decreases s.len(),
{
    if s.len() == 0 {
        None
    } else if match s[0] {
        Loc::Name(x) => x@ == nm,
        _ => false,
    } {
        Some(0int)
    } else {
        match find_name(s.drop_first(), nm) {
            Some(i) => Some(i + 1),
            None => None,
        }
    }
}

pub proof fn lemma_find_name_is_find_loc(s: Seq<Loc>, nm: String)
    ensures
        find_name(s, nm@) == find_loc(s, Loc::Name(nm)),
    decreases s.len(),
{
    if s.len() > 0 {
        lemma_find_name_is_find_loc(s.drop_first(), nm);
    }
}

/// One column's storage, the element type carried as a tag.
pub enum AnyStorage {
    I64(VecStorage),
    Bool(BitVecStorage),
    Str(StringStorage),
}

/// Same tag and the same visible content.
pub open spec fn any_eq_view(a: AnyStorage, b: AnyStorage) -> bool {
    match (a, b) {
        (AnyStorage::I64(x), AnyStorage::I64(y)) => x.values() == y.values() && x.valid()
            == y.valid(),
        (AnyStorage::Bool(x), AnyStorage::Bool(y)) => x.values() == y.values() && x.valid()
            == y.valid(),
        (AnyStorage::Str(x), AnyStorage::Str(y)) => x.ends_seq() == y.ends_seq() && x.bytes_seq()
            == y.bytes_seq() && x.valid() == y.valid(),
        _ => false,
    }
}

/// `n` is `o` laid out over `u` through `prev`: unchanged where the two
/// indexes are equal, resolved label by label elsewhere.
pub open spec fn vec_reindexed(o: VecStorage, n: VecStorage, prev: &Index, u: &Index) -> bool {
    if index_equiv(prev, u) {
        n.values() == o.values() && n.valid() == o.valid()
    } else {
        &&& n.len_spec() == u.labels().len()
        &&& forall|i: int|
            0 <= i < u.labels().len() ==> n.valid()[i] == reindexed_valid(
                prev,
                o.valid(),
                u.labels()[i],
            )
        &&& forall|i: int|
            0 <= i < u.labels().len() ==> n.values()[i] == reindexed_value(
                prev,
                o.valid(),
                o.values(),
                u.labels()[i],
                0i64,
            )
    }
}

pub open spec fn bool_reindexed(o: BitVecStorage, n: BitVecStorage, prev: &Index, u: &Index) -> bool {
    if index_equiv(prev, u) {
        n.values() == o.values() && n.valid() == o.valid()
    } else {
        &&& n.len_spec() == u.labels().len()
        &&& forall|i: int|
            0 <= i < u.labels().len() ==> n.valid()[i] == reindexed_valid(
                prev,
                o.valid(),
                u.labels()[i],
            )
        &&& forall|i: int|
            0 <= i < u.labels().len() ==> n.values()[i] == reindexed_value(
                prev,
                o.valid(),
                o.values(),
                u.labels()[i],
                false,
            )
    }
}

pub open spec fn str_reindexed(o: StringStorage, n: StringStorage, prev: &Index, u: &Index) -> bool {
    if index_equiv(prev, u) {
        n.ends_seq() == o.ends_seq() && n.bytes_seq() == o.bytes_seq() && n.valid() == o.valid()
    } else {
        &&& n.len_spec() == u.labels().len()
        &&& forall|i: int|
            0 <= i < u.labels().len() ==> n.valid()[i] == reindexed_valid(
                prev,
                o.valid(),
                u.labels()[i],
            )
        &&& forall|i: int|
            0 <= i < u.labels().len() ==> n.value_at(i) == reindexed_value(
                prev,
                o.valid(),
                o.values(),
                u.labels()[i],
                Seq::<u8>::empty(),
            )
    }
}

/// `n` is `o` laid out over `u` through `prev`, whatever the element type.
pub open spec fn any_reindexed(o: AnyStorage, n: AnyStorage, prev: &Index, u: &Index) -> bool {
    match (o, n) {
        (AnyStorage::I64(x), AnyStorage::I64(y)) => vec_reindexed(x, y, prev, u),
        (AnyStorage::Bool(x), AnyStorage::Bool(y)) => bool_reindexed(x, y, prev, u),
        (AnyStorage::Str(x), AnyStorage::Str(y)) => str_reindexed(x, y, prev, u),
        _ => false,
    }
}

/// Reindexing reads only the storage's visible content, so a view-equal
/// storage reindexes to the same result.
proof fn lemma_any_reindexed_compat(
    o1: AnyStorage,
    o2: AnyStorage,
    n: AnyStorage,
    prev: &Index,
    u: &Index,
)
    requires
        any_eq_view(o1, o2),
        any_reindexed(o2, n, prev, u),
    ensures
        any_reindexed(o1, n, prev, u),
{
    match (o1, o2, n) {
        (AnyStorage::I64(x1), AnyStorage::I64(x2), AnyStorage::I64(y)) => {
            assert(vec_reindexed(x1, y, prev, u));
        },
        (AnyStorage::Bool(x1), AnyStorage::Bool(x2), AnyStorage::Bool(y)) => {
            assert(bool_reindexed(x1, y, prev, u));
        },
        (AnyStorage::Str(x1), AnyStorage::Str(x2), AnyStorage::Str(y)) => {
            assert(x1.values() =~= x2.values());
            assert(str_reindexed(x1, y, prev, u));
        },
        _ => {},
    }
}

impl AnyStorage {
    pub open spec fn wf(&self) -> bool {
        match self {
            AnyStorage::I64(s) => s.wf(),
            AnyStorage::Bool(s) => s.wf(),
            AnyStorage::Str(s) => s.wf(),
        }
    }

    pub open spec fn len_spec(&self) -> int {
        match self {
            AnyStorage::I64(s) => s.len_spec(),
            AnyStorage::Bool(s) => s.len_spec(),
            AnyStorage::Str(s) => s.len_spec(),
        }
    }

    pub fn len(&self) -> (n: usize)
        requires
            self.wf(),
        ensures
            n == self.len_spec(),
    {
        match self {
            AnyStorage::I64(s) => s.len(),
            AnyStorage::Bool(s) => s.len(),
            AnyStorage::Str(s) => s.len(),
        }
    }

    /// A copy of the storage.
    pub fn duplicate(&self) -> (r: AnyStorage)
        requires
            self.wf(),
        ensures
            r.wf(),
            r.len_spec() == self.len_spec(),
            any_eq_view(*self, r),
    {
        match self {
            AnyStorage::I64(s) => AnyStorage::I64(s.duplicate()),
            AnyStorage::Bool(s) => AnyStorage::Bool(s.duplicate()),
            AnyStorage::Str(s) => AnyStorage::Str(s.duplicate()),
        }
    }

    /// Lays the storage out over `index`, whatever the element type.
    pub fn reindex(self, prev_index: &Index, index: &Index) -> (r: AnyStorage)
        requires
            self.wf(),
            prev_index.wf(),
            index.wf(),
            self.len_spec() == prev_index.labels().len(),
        ensures
            r.wf(),
            r.len_spec() == index.labels().len(),
            any_reindexed(self, r, prev_index, index),
    {
        match self {
            AnyStorage::I64(s) => AnyStorage::I64(s.reindex(prev_index, index)),
            AnyStorage::Bool(s) => AnyStorage::Bool(s.reindex(prev_index, index)),
            AnyStorage::Str(s) => AnyStorage::Str(s.reindex(prev_index, index)),
        }
    }
}

/// A type-erased column: a row index beside a tagged storage.
pub struct AnySeries {
    index: Index,
    data: AnyStorage,
}

impl AnySeries {
    /// The row index.
    pub closed spec fn aidx(&self) -> Index {
        self.index
    }

    /// The tagged storage.
    pub closed spec fn adat(&self) -> AnyStorage {
        self.data
    }

    pub open spec fn wf(&self) -> bool {
        &&& self.aidx().wf()
        &&& self.adat().wf()
        &&& self.adat().len_spec() == self.aidx().labels().len()
    }

    pub fn new(index: Index, data: AnyStorage) -> (r: AnySeries)
        requires
            index.wf(),
            data.wf(),
            data.len_spec() == index.labels().len(),
        ensures
            r.wf(),
            r.aidx() == index,
            r.adat() == data,
    {
        AnySeries { index, data }
    }

    pub fn into_inner(self) -> (r: (Index, AnyStorage))
        ensures
            r.0 == self.aidx(),
            r.1 == self.adat(),
    {
        (self.index, self.data)
    }

    /// Wraps an integer column.
    pub fn from_series_i64(s: Series<VecStorage>) -> (r: AnySeries)
        requires
            s.wf(),
        ensures
            r.wf(),
            r.aidx() == s.idx(),
            r.adat() == AnyStorage::I64(s.dat()),
    {
        let (index, data) = s.into_inner();
        AnySeries { index, data: AnyStorage::I64(data) }
    }

    /// Wraps a boolean column.
    pub fn from_series_bool(s: Series<BitVecStorage>) -> (r: AnySeries)
        requires
            s.wf(),
        ensures
            r.wf(),
            r.aidx() == s.idx(),
            r.adat() == AnyStorage::Bool(s.dat()),
    {
        let (index, data) = s.into_inner();
        AnySeries { index, data: AnyStorage::Bool(data) }
    }

    /// Wraps a byte-string column.
    pub fn from_series_str(s: Series<StringStorage>) -> (r: AnySeries)
        requires
            s.wf(),
        ensures
            r.wf(),
            r.aidx() == s.idx(),
            r.adat() == AnyStorage::Str(s.dat()),
    {
        let (index, data) = s.into_inner();
        AnySeries { index, data: AnyStorage::Str(data) }
    }

    /// The integer column inside, if the tag matches.
    pub fn into_series_i64(self) -> (r: Option<Series<VecStorage>>)
        requires
            self.wf(),
        ensures
            r is Some <==> self.adat() is I64,
            r is Some ==> (r->0).wf() && (r->0).idx() == self.aidx() && AnyStorage::I64((r->0).dat())
                == self.adat(),
    {
        match self.data {
            AnyStorage::I64(s) => Some(Series::<VecStorage>::new(self.index, s)),
            _ => None,
        }
    }

    /// The boolean column inside, if the tag matches.
    pub fn into_series_bool(self) -> (r: Option<Series<BitVecStorage>>)
        requires
            self.wf(),
        ensures
            r is Some <==> self.adat() is Bool,
            r is Some ==> (r->0).wf() && (r->0).idx() == self.aidx() && AnyStorage::Bool(
                (r->0).dat(),
            ) == self.adat(),
    {
        match self.data {
            AnyStorage::Bool(s) => Some(Series::<BitVecStorage>::new(self.index, s)),
            _ => None,
        }
    }

    /// The byte-string column inside, if the tag matches.
    pub fn into_series_str(self) -> (r: Option<Series<StringStorage>>)
        requires
            self.wf(),
        ensures
            r is Some <==> self.adat() is Str,
            r is Some ==> (r->0).wf() && (r->0).idx() == self.aidx() && AnyStorage::Str((r->0).dat())
                == self.adat(),
    {
        match self.data {
            AnyStorage::Str(s) => Some(Series::<StringStorage>::new(self.index, s)),
            _ => None,
        }
    }
}

/// An ordered set of named columns over one shared row index.
pub struct DataFrame {
    columns: Index,
    index: Index,
    data: Vec<AnyStorage>,
}

impl DataFrame {
    /// The column-name index.
    pub closed spec fn cols(&self) -> Index {
        self.columns
    }

    /// The shared row index.
    pub closed spec fn ridx(&self) -> Index {
        self.index
    }

    /// The column storages, parallel to the column names.
    pub closed spec fn dats(&self) -> Seq<AnyStorage> {
        self.data@
    }

    pub open spec fn wf(&self) -> bool {
        &&& self.cols().wf()
        &&& self.ridx().wf()
        &&& self.dats().len() == self.cols().labels().len()
        &&& forall|i: int| 0 <= i < self.cols().labels().len() ==> self.cols().exists_seq()[i]
        &&& forall|k: int|
            0 <= k < self.dats().len() ==> (#[trigger] self.dats()[k]).wf() && self.dats()[
                k
            ].len_spec() == self.ridx().labels().len()
    }

    /// The empty dataframe: no columns, no rows.
    pub fn new() -> (r: DataFrame)
        ensures
            r.wf(),
            r.cols().labels() == Seq::<Loc>::empty(),
            r.ridx().labels() == Seq::<Loc>::empty(),
            r.dats() == Seq::<AnyStorage>::empty(),
    {
        let r = DataFrame { columns: Index::new(), index: Index::new(), data: Vec::new() };
        proof {
            assert(r.dats() =~= Seq::<AnyStorage>::empty());
        }
        r
    }

    /// The number of present rows.
    pub fn len(&self) -> (n: usize)
        requires
            self.wf(),
        ensures
            n == count_trues(self.ridx().exists_seq()),
    {
        let (_labels, mask) = self.index.as_vec_mask();
        mask.count()
    }

    /// Appends a column under a label, aligning the whole frame to the union
    /// of the column's index and the frame's. A label already in use is
    /// refused, and `None` returned.
    pub fn insert_loc(self, col: Loc, series: AnySeries) -> (r: Option<DataFrame>)
        requires
            self.wf(),
            series.wf(),
            self.cols().labels().len() < usize::MAX,
            series.aidx().labels().len() + self.ridx().labels().len() <= usize::MAX,
        ensures
            r is Some <==> !has_loc(self.cols().labels(), col),
            r is Some ==> {
                let f = r->0;
                &&& f.wf()
                &&& f.cols().labels() == self.cols().labels().push(col)
                &&& f.ridx().labels() == u_labels(series.aidx(), self.ridx())
                &&& f.ridx().exists_seq() == u_exists(series.aidx(), self.ridx())
                &&& f.dats().len() == self.dats().len() + 1
                &&& forall|k: int|
                    0 <= k < self.dats().len() ==> any_reindexed(
                        self.dats()[k],
                        #[trigger] f.dats()[k],
                        &self.ridx(),
                        &f.ridx(),
                    )
                &&& any_reindexed(series.adat(), f.dats().last(), &series.aidx(), &f.ridx())
            },
    {
        let ghost gself = self;
        let ghost gseries = series;
        {
            let (labels, _mask) = self.columns.as_vec_mask();
            if find_in(labels, &col).is_some() {
                proof {
                    crate::index::lemma_find_loc_props(self.cols().labels(), col);
                }
                return None;
            }
        }
        let DataFrame { columns, index, data } = self;
        let (si, sdata) = series.into_inner();
        let new_index = si.duplicate().union(&index);
        proof {
            if !index_equiv(&si, &index) {
                assert(new_index.exists_seq() =~= u_exists(gseries.aidx(), gself.ridx()));
            }
        }
        let n = data.len();
        let mut new_data: Vec<AnyStorage> = Vec::new();
        let mut k: usize = 0;
        while k < n
            invariant
                gself.wf(),
                data@ == gself.dats(),
                n == gself.dats().len(),
                index == gself.ridx(),
                new_index.wf(),
                k <= n,
                new_data@.len() == k,
                forall|t: int|
                    0 <= t < k ==> (#[trigger] new_data@[t]).wf() && new_data@[t].len_spec()
                        == new_index.labels().len() && any_reindexed(
                        gself.dats()[t],
                        new_data@[t],
                        &gself.ridx(),
                        &new_index,
                    ),
            decreases n - k,
        {
            let s0 = data[k].duplicate();
            let ghost gdup = s0;
            let s = s0.reindex(&index, &new_index);
            new_data.push(s);
            proof {
                lemma_any_reindexed_compat(
                    gself.dats()[k as int],
                    gdup,
                    s,
                    &gself.ridx(),
                    &new_index,
                );
            }
            k = k + 1;
        }
        let sdata = sdata.reindex(&si, &new_index);
        new_data.push(sdata);
        let (columns, _off) = columns.insert(col);
        Some(DataFrame { columns, index: new_index, data: new_data })
    }

    /// Appends a column under a name; a name already in use is refused.
    pub fn insert(self, name: String, series: AnySeries) -> (r: Option<DataFrame>)
        requires
            self.wf(),
            series.wf(),
            self.cols().labels().len() < usize::MAX,
            series.aidx().labels().len() + self.ridx().labels().len() <= usize::MAX,
        ensures
            r is Some <==> !has_loc(self.cols().labels(), Loc::Name(name)),
            r is Some ==> {
                let f = r->0;
                &&& f.wf()
                &&& f.cols().labels() == self.cols().labels().push(Loc::Name(name))
                &&& f.ridx().labels() == u_labels(series.aidx(), self.ridx())
                &&& f.ridx().exists_seq() == u_exists(series.aidx(), self.ridx())
                &&& f.dats().len() == self.dats().len() + 1
                &&& forall|k: int|
                    0 <= k < self.dats().len() ==> any_reindexed(
                        self.dats()[k],
                        #[trigger] f.dats()[k],
                        &self.ridx(),
                        &f.ridx(),
                    )
                &&& any_reindexed(series.adat(), f.dats().last(), &series.aidx(), &f.ridx())
            },
    {
        self.insert_loc(Loc::Name(name), series)
    }

    /// Appends a column under a numeric type tag; a tag already in use is
    /// refused.
    pub fn assign(self, tag: u64, series: AnySeries) -> (r: Option<DataFrame>)
        requires
            self.wf(),
            series.wf(),
            self.cols().labels().len() < usize::MAX,
            series.aidx().labels().len() + self.ridx().labels().len() <= usize::MAX,
        ensures
            r is Some <==> !has_loc(self.cols().labels(), Loc::Tag(tag)),
            r is Some ==> {
                let f = r->0;
                &&& f.wf()
                &&& f.cols().labels() == self.cols().labels().push(Loc::Tag(tag))
                &&& f.ridx().labels() == u_labels(series.aidx(), self.ridx())
                &&& f.ridx().exists_seq() == u_exists(series.aidx(), self.ridx())
                &&& f.dats().len() == self.dats().len() + 1
                &&& forall|k: int|
                    0 <= k < self.dats().len() ==> any_reindexed(
                        self.dats()[k],
                        #[trigger] f.dats()[k],
                        &self.ridx(),
                        &f.ridx(),
                    )
                &&& any_reindexed(series.adat(), f.dats().last(), &series.aidx(), &f.ridx())
            },
    {
        self.insert_loc(Loc::Tag(tag), series)
    }

    /// The column under a label, if any: its storage copied, the frame's row
    /// index shared.
    pub fn get_loc(&self, col: &Loc) -> (r: Option<AnySeries>)
        requires
            self.wf(),
        ensures
            match find_loc(self.cols().labels(), *col) {
                Some(k) => r is Some && (r->0).wf() && (r->0).aidx().labels()
                    == self.ridx().labels() && (r->0).aidx().exists_seq()
                    == self.ridx().exists_seq() && any_eq_view(self.dats()[k], (r->0).adat()),
                None => r is None,
            },
    {
        proof {
            crate::index::lemma_find_loc_props(self.cols().labels(), *col);
        }
        match self.columns.get(col) {
            Some(k) => {
                let data = (&self.data[k]).duplicate();
                let index = self.index.duplicate();
                Some(AnySeries { index, data })
            },
            None => None,
        }
    }

    /// The column under a name, if any.
    pub fn get(&self, name: &str) -> (r: Option<AnySeries>)
        requires
            self.wf(),
        ensures
            match find_name(self.cols().labels(), name@) {
                Some(k) => r is Some && (r->0).wf() && (r->0).aidx().labels()
                    == self.ridx().labels() && (r->0).aidx().exists_seq()
                    == self.ridx().exists_seq() && any_eq_view(self.dats()[k], (r->0).adat()),
                None => r is None,
            },
    {
        let owned: String = name.to_owned();
        proof {
            lemma_find_name_is_find_loc(self.cols().labels(), owned);
        }
        self.get_loc(&Loc::Name(owned))
    }

    /// The column under a numeric type tag, if any.
    pub fn col(&self, tag: u64) -> (r: Option<AnySeries>)
        requires
            self.wf(),
        ensures
            match find_loc(self.cols().labels(), Loc::Tag(tag)) {
                Some(k) => r is Some && (r->0).wf() && (r->0).aidx().labels()
                    == self.ridx().labels() && (r->0).aidx().exists_seq()
                    == self.ridx().exists_seq() && any_eq_view(self.dats()[k], (r->0).adat()),
                None => r is None,
            },
    {
        self.get_loc(&Loc::Tag(tag))
    }

    /// Appends a column computed from the frame itself, under a name.
    pub fn insert_with<F: FnOnce(&DataFrame) -> AnySeries>(self, name: String, f: F) -> (r: Option<
        DataFrame,
    >)
        requires
            self.wf(),
            self.cols().labels().len() < usize::MAX,
            call_requires(f, (&self,)),
            forall|x: &DataFrame, s: AnySeries|
                #[trigger] call_ensures(f, (x,), s) ==> s.wf() && s.aidx().labels().len()
                    + self.ridx().labels().len() <= usize::MAX,
        ensures
            exists|s: AnySeries|
                {
                    &&& #[trigger] call_ensures(f, (&self,), s)
                    &&& (r is Some <==> !has_loc(self.cols().labels(), Loc::Name(name)))
                    &&& r is Some ==> {
                        let fr = r->0;
                        &&& fr.wf()
                        &&& fr.cols().labels() == self.cols().labels().push(Loc::Name(name))
                        &&& fr.ridx().labels() == u_labels(s.aidx(), self.ridx())
                        &&& fr.ridx().exists_seq() == u_exists(s.aidx(), self.ridx())
                        &&& fr.dats().len() == self.dats().len() + 1
                        &&& forall|k: int|
                            0 <= k < self.dats().len() ==> any_reindexed(
                                self.dats()[k],
                                #[trigger] fr.dats()[k],
                                &self.ridx(),
                                &fr.ridx(),
                            )
                        &&& any_reindexed(s.adat(), fr.dats().last(), &s.aidx(), &fr.ridx())
                    }
                },
    {
        let series = f(&self);
        self.insert(name, series)
    }

    /// Appends a column computed from the frame itself, under a numeric type
    /// tag.
    pub fn assign_with<F: FnOnce(&DataFrame) -> AnySeries>(self, tag: u64, f: F) -> (r: Option<
        DataFrame,
    >)
        requires
            self.wf(),
            self.cols().labels().len() < usize::MAX,
            call_requires(f, (&self,)),
            forall|x: &DataFrame, s: AnySeries|
                #[trigger] call_ensures(f, (x,), s) ==> s.wf() && s.aidx().labels().len()
                    + self.ridx().labels().len() <= usize::MAX,
        ensures
            exists|s: AnySeries|
                {
                    &&& #[trigger] call_ensures(f, (&self,), s)
                    &&& (r is Some <==> !has_loc(self.cols().labels(), Loc::Tag(tag)))
                    &&& r is Some ==> {
                        let fr = r->0;
                        &&& fr.wf()
                        &&& fr.cols().labels() == self.cols().labels().push(Loc::Tag(tag))
                        &&& fr.ridx().labels() == u_labels(s.aidx(), self.ridx())
                        &&& fr.ridx().exists_seq() == u_exists(s.aidx(), self.ridx())
                        &&& fr.dats().len() == self.dats().len() + 1
                        &&& forall|k: int|
                            0 <= k < self.dats().len() ==> any_reindexed(
                                self.dats()[k],
                                #[trigger] fr.dats()[k],
                                &self.ridx(),
                                &fr.ridx(),
                            )
                        &&& any_reindexed(s.adat(), fr.dats().last(), &s.aidx(), &fr.ridx())
                    }
                },
    {
        let series = f(&self);
        self.assign(tag, series)
    }

    /// Narrows the rows by a condition computed from the frame itself.
    pub fn filter_with<F: FnOnce(&DataFrame) -> Series<BitVecStorage>>(self, f: F) -> (r:
        DataFrame)
        requires
            self.wf(),
            call_requires(f, (&self,)),
            forall|x: &DataFrame, c: Series<BitVecStorage>|
                #[trigger] call_ensures(f, (x,), c) ==> c.wf(),
        ensures
            r.wf(),
            r.cols() == self.cols(),
            r.ridx().labels() == self.ridx().labels(),
            r.dats() == self.dats(),
            exists|c: Series<BitVecStorage>|
                #[trigger] call_ensures(f, (&self,), c) && r.ridx().exists_seq()
                    == crate::select::filter_exists(self.ridx(), &c),
    {
        let cond = f(&self);
        self.filter(cond)
    }

    /// Narrows the shared row index by a boolean column. Every storage is
    /// left untouched; only the "present" bits of the row index change.
    pub fn filter(self, cond: Series<BitVecStorage>) -> (r: DataFrame)
        requires
            self.wf(),
            cond.wf(),
        ensures
            r.wf(),
            r.cols() == self.cols(),
            r.ridx().labels() == self.ridx().labels(),
            r.ridx().exists_seq() == crate::select::filter_exists(self.ridx(), &cond),
            r.dats() == self.dats(),
    {
        let DataFrame { columns, index, data } = self;
        let index = index.filter(cond);
        DataFrame { columns, index, data }
    }
}

/// The empty dataframe.
pub fn empty() -> (r: DataFrame)
    ensures
        r.wf(),
        r.cols().labels() == Seq::<Loc>::empty(),
        r.ridx().labels() == Seq::<Loc>::empty(),
        r.dats() == Seq::<AnyStorage>::empty(),
{
    DataFrame::new()
}

} // verus!
