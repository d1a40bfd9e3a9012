//! Row labels and the row index: an ordered sequence of labels with a
//! per-offset "present" bit. Lookup finds the first offset that carries a
//! label; two indexes can be unioned into a common frame for alignment.

use vstd::prelude::*;

use crate::bits::BitVec;

verus! {

/// A row label: a name, a numeric type tag, or an integer position.
#[derive(Debug)]
pub enum Loc {
    Name(String),
    Tag(u64),
    Pos(usize),
}

/// Label equality: same variant, same carried value. Names compare by their
/// character sequences.
pub open spec fn loc_eq(a: Loc, b: Loc) -> bool {
    match (a, b) {
        (Loc::Name(x), Loc::Name(y)) => x@ == y@,
        (Loc::Tag(x), Loc::Tag(y)) => x == y,
        (Loc::Pos(x), Loc::Pos(y)) => x == y,
        _ => false,
    }
}

impl Clone for Loc {
    fn clone(&self) -> (r: Loc)
        ensures
            r == *self,
    {
        match self {
            Loc::Name(s) => Loc::Name(s.clone()),
            Loc::Tag(t) => Loc::Tag(*t),
            Loc::Pos(p) => Loc::Pos(*p),
        }
    }
}

impl PartialEq for Loc {
    fn eq(&self, other: &Loc) -> (r: bool) {
        match (self, other) {
            (Loc::Name(x), Loc::Name(y)) => x.eq(y),
            (Loc::Tag(x), Loc::Tag(y)) => *x == *y,
            (Loc::Pos(x), Loc::Pos(y)) => *x == *y,
            _ => false,
        }
    }
}

impl vstd::std_specs::cmp::PartialEqSpecImpl for Loc {
    open spec fn obeys_eq_spec() -> bool {
        true
    }

    open spec fn eq_spec(&self, other: &Loc) -> bool {
        loc_eq(*self, *other)
    }
}

/// Offset of the first label equal to `loc`, if any.
pub open spec fn find_loc(s: Seq<Loc>, loc: Loc) -> Option<int>
    decreases s.len(),
{
    if s.len() == 0 {
        None
    } else if loc_eq(s[0], loc) {
        Some(0int)
    } else {
        match find_loc(s.drop_first(), loc) {
            Some(i) => Some(i + 1),
            None => None,
        }
    }
}

/// True iff some label of `s` equals `loc`.
pub open spec fn has_loc(s: Seq<Loc>, loc: Loc) -> bool {
    find_loc(s, loc) is Some
}

pub proof fn lemma_find_loc_props(s: Seq<Loc>, loc: Loc)
    ensures
        match find_loc(s, loc) {
            Some(i) => 0 <= i < s.len() && loc_eq(s[i], loc) && forall|j: int|
                0 <= j < i ==> !loc_eq(s[j], loc),
            None => forall|j: int| 0 <= j < s.len() ==> !loc_eq(s[j], loc),
        },
    decreases s.len(),
{
    if s.len() > 0 && !loc_eq(s[0], loc) {
        lemma_find_loc_props(s.drop_first(), loc);
        assert forall|j: int| 1 <= j < s.len() implies s.drop_first()[j - 1] == s[j] by {}
    }
}

pub proof fn lemma_find_loc_first(s: Seq<Loc>, loc: Loc, i: int)
    requires
        0 <= i < s.len(),
        loc_eq(s[i], loc),
        forall|j: int| 0 <= j < i ==> !loc_eq(s[j], loc),
    ensures
        find_loc(s, loc) == Some(i),
    decreases i,
{
    if i == 0 {
    } else {
        assert forall|j: int| 0 <= j < i - 1 implies !loc_eq(s.drop_first()[j], loc) by {
            assert(s.drop_first()[j] == s[j + 1]);
        }
        assert(s.drop_first()[i - 1] == s[i]);
        lemma_find_loc_first(s.drop_first(), loc, i - 1);
    }
}

/// First offset of each label in a sequence of labels.
pub fn find_in(data: &Vec<Loc>, loc: &Loc) -> (r: Option<usize>)
    ensures
        match r {
            Some(i) => find_loc(data@, *loc) == Some(i as int),
            None => find_loc(data@, *loc) is None,
        },
{
    let n = data.len();
    let mut i: usize = 0;
    while i < n
        invariant
            n == data@.len(),
            i <= n,
            forall|j: int| 0 <= j < i ==> !loc_eq(data@[j], *loc),
        decreases n - i,
    {
        if &data[i] == loc {
            proof {
                lemma_find_loc_first(data@, *loc, i as int);
            }
            return Some(i);
        }
        i = i + 1;
    }
    proof {
        lemma_find_loc_props(data@, *loc);
        if find_loc(data@, *loc) is Some {
            let w = find_loc(data@, *loc).unwrap();
            assert(!loc_eq(data@[w], *loc));
        }
    }
    None
}

/// A union is at least as long as its left side and no longer than both
/// sides together.
pub proof fn lemma_seq_union_len(a: Seq<Loc>, b: Seq<Loc>)
    ensures
        a.len() <= seq_union(a, b).len() <= a.len() + b.len(),
    decreases b.len(),
{
    if b.len() > 0 {
        if has_loc(a, b[0]) {
            lemma_seq_union_len(a, b.drop_first());
        } else {
            lemma_seq_union_len(a.push(b[0]), b.drop_first());
        }
    }
}

/// Labels wholly contained in another sequence add nothing to a union.
pub proof fn lemma_union_absorbed(a: Seq<Loc>, b: Seq<Loc>)
    requires
        forall|j: int| 0 <= j < b.len() ==> has_loc(a, #[trigger] b[j]),
    ensures
        seq_union(a, b) == a,
    decreases b.len(),
{
    if b.len() > 0 {
        assert(has_loc(a, b[0]));
        assert forall|j: int| 0 <= j < b.drop_first().len() implies has_loc(
            a,
            #[trigger] b.drop_first()[j],
        ) by {
            assert(b.drop_first()[j] == b[j + 1]);
        }
        lemma_union_absorbed(a, b.drop_first());
    }
}

/// Every label of a sequence position-wise equal to `a` occurs in `a`.
pub proof fn lemma_equiv_has(a: Seq<Loc>, b: Seq<Loc>)
    requires
        a.len() == b.len(),
        forall|i: int| 0 <= i < a.len() ==> loc_eq(a[i], #[trigger] b[i]),
    ensures
        forall|j: int| 0 <= j < b.len() ==> has_loc(a, #[trigger] b[j]),
{
    assert forall|j: int| 0 <= j < b.len() implies has_loc(a, #[trigger] b[j]) by {
        lemma_find_loc_props(a, b[j]);
        if find_loc(a, b[j]) is None {
            assert(!loc_eq(a[j], b[j]));
        }
    }
}

/// An ordered sequence of row labels with a per-offset "present" bit.
pub struct Index {
    data: Vec<Loc>,
    exists: BitVec,
}

/// The labels of `b` not yet present, appended in order to `a`.
pub open spec fn seq_union(a: Seq<Loc>, b: Seq<Loc>) -> Seq<Loc>
    decreases b.len(),
{
    if b.len() == 0 {
        a
    } else {
        seq_union(
            if has_loc(a, b[0]) {
                a
            } else {
                a.push(b[0])
            },
            b.drop_first(),
        )
    }
}

/// Same labels in the same order, and the same "present" bits.
pub open spec fn index_equiv(a: &Index, b: &Index) -> bool {
    &&& a.labels().len() == b.labels().len()
    &&& forall|i: int| 0 <= i < a.labels().len() ==> loc_eq(a.labels()[i], b.labels()[i])
    &&& a.exists_seq() == b.exists_seq()
}

impl Index {
    /// The ordered labels.
    pub closed spec fn labels(&self) -> Seq<Loc> {
        self.data@
    }

    /// The "present" bitmap.
    pub closed spec fn exists_bv(&self) -> BitVec {
        self.exists
    }

    /// The "present" bit of each offset.
    pub open spec fn exists_seq(&self) -> Seq<bool> {
        self.exists_bv()@
    }

    pub open spec fn wf(&self) -> bool {
        &&& self.exists_bv().wf()
        &&& self.exists_seq().len() == self.labels().len()
    }

    /// Offset that `get` would return for `loc`: the first occurrence, and
    /// only if its "present" bit is set.
    pub open spec fn get_spec(&self, loc: Loc) -> Option<int> {
        match find_loc(self.labels(), loc) {
            Some(i) => if self.exists_seq()[i] {
                Some(i)
            } else {
                None
            },
            None => None,
        }
    }

    /// The empty index.
    pub fn new() -> (r: Index)
        ensures
            r.wf(),
            r.labels() == Seq::<Loc>::empty(),
            r.exists_seq() == Seq::<bool>::empty(),
    {
        let r = Index { data: Vec::new(), exists: BitVec::new() };
        proof {
            assert(r.labels() =~= Seq::<Loc>::empty());
        }
        r
    }

    /// An index over the given labels, all present.
    pub fn from_vec(data: Vec<Loc>) -> (r: Index)
        ensures
            r.wf(),
            r.labels() == data@,
            r.exists_seq().len() == data@.len(),
            forall|i: int| 0 <= i < data@.len() ==> r.exists_seq()[i],
    {
        let exists = BitVec::from_elem(data.len(), true);
        Index { data, exists }
    }

    /// The index of integer positions `lo`, `lo + 1`, ..., `hi - 1`.
    pub fn from_range(lo: usize, hi: usize) -> (r: Index)
        requires
            lo <= hi,
        ensures
            r.wf(),
            r.labels().len() == hi - lo,
            forall|i: int| 0 <= i < hi - lo ==> r.labels()[i] == Loc::Pos((lo + i) as usize),
            forall|i: int| 0 <= i < hi - lo ==> r.exists_seq()[i],
    {
        let mut data: Vec<Loc> = Vec::new();
        let mut p: usize = lo;
        while p < hi
            invariant
                lo <= p <= hi,
                data@.len() == p - lo,
                forall|i: int| 0 <= i < p - lo ==> data@[i] == Loc::Pos((lo + i) as usize),
            decreases hi - p,
        {
            data.push(Loc::Pos(p));
            p = p + 1;
        }
        Index::from_vec(data)
    }

    pub fn len(&self) -> (n: usize)
        requires
            self.wf(),
        ensures
            n == self.labels().len(),
    {
        self.data.len()
    }

    /// The labels and the "present" bitmap, side by side.
    pub fn as_vec_mask(&self) -> (r: (&Vec<Loc>, &BitVec))
        ensures
            r.0@ == self.labels(),
            *r.1 == self.exists_bv(),
    {
        (&self.data, &self.exists)
    }

    /// A copy of the index.
    pub fn duplicate(&self) -> (r: Index)
        requires
            self.wf(),
        ensures
            r.wf(),
            r.labels() == self.labels(),
            r.exists_seq() == self.exists_seq(),
    {
        let data = self.data.clone();
        proof {
            assert forall|i: int| 0 <= i < data@.len() implies data@[i] == self.data@[i] by {
                assert(cloned::<Loc>(self.data@[i], data@[i]));
            }
            assert(data@ =~= self.data@);
        }
        Index { data, exists: self.exists.duplicate() }
    }

    /// True iff the two indexes carry the same labels and "present" bits.
    pub fn same_as(&self, other: &Index) -> (r: bool)
        requires
            self.wf(),
            other.wf(),
        ensures
            r == index_equiv(self, other),
    {
        let n = self.data.len();
        if n != other.data.len() {
            return false;
        }
        if !self.exists.eq_bits(&other.exists) {
            return false;
        }
        let mut i: usize = 0;
        while i < n
            invariant
                self.wf(),
                other.wf(),
                n == self.labels().len(),
                n == other.labels().len(),
                i <= n,
                forall|j: int| 0 <= j < i ==> loc_eq(self.labels()[j], other.labels()[j]),
            decreases n - i,
        {
            if &self.data[i] != &other.data[i] {
                return false;
            }
            i = i + 1;
        }
        true
    }

    /// First present offset of `loc`, if any.
    pub fn get(&self, loc: &Loc) -> (r: Option<usize>)
        requires
            self.wf(),
        ensures
            match r {
                Some(i) => self.get_spec(*loc) == Some(i as int) && i < self.labels().len()
                    && self.exists_seq()[i as int],
                None => self.get_spec(*loc) is None,
            },
    {
        proof {
            lemma_find_loc_props(self.labels(), *loc);
        }
        match find_in(&self.data, loc) {
            Some(i) => {
                if self.exists.get(i) {
                    Some(i)
                } else {
                    None
                }
            },
            None => None,
        }
    }

    /// Returns the offset of `loc`, appending it as a new present row when it
    /// is not yet a label of the index.
    pub fn insert(self, loc: Loc) -> (r: (Index, usize))
        requires
            self.wf(),
            self.labels().len() < usize::MAX,
        ensures
            r.0.wf(),
            match find_loc(self.labels(), loc) {
                Some(i) => r.0.labels() == self.labels() && r.0.exists_seq() == self.exists_seq()
                    && r.1 as int == i,
                None => r.0.labels() == self.labels().push(loc) && r.0.exists_seq()
                    == self.exists_seq().push(true) && r.1 as int == self.labels().len(),
            },
    {
        let mut this = self;
        match find_in(&this.data, &loc) {
            Some(i) => (this, i),
            None => {
                let off = this.data.len();
                this.data.push(loc);
                this.exists.push(true);
                (this, off)
            },
        }
    }

    /// The union: `self`'s labels followed by the labels of `other` not
    /// already present, first occurrences kept in order. When the two indexes
    /// are equal the receiver is returned unchanged, "present" bits included;
    /// otherwise every row of the union is present.
    pub fn union(self, other: &Index) -> (r: Index)
        requires
            self.wf(),
            other.wf(),
            self.labels().len() + other.labels().len() <= usize::MAX,
        ensures
            r.wf(),
            index_equiv(&self, other) ==> r.labels() == self.labels() && r.exists_seq()
                == self.exists_seq(),
            !index_equiv(&self, other) ==> {
                &&& r.labels() == seq_union(self.labels(), other.labels())
                &&& r.exists_seq().len() == r.labels().len()
                &&& forall|i: int| 0 <= i < r.labels().len() ==> r.exists_seq()[i]
            },
    {
        if self.same_as(other) {
            return self;
        }
        let ghost target = seq_union(self.labels(), other.labels());
        let mut data = self.data;
        let n = other.data.len();
        let mut i: usize = 0;
        proof {
            assert(other.labels().subrange(0, n as int) =~= other.labels());
        }
        while i < n
            invariant
                n == other.labels().len(),
                i <= n,
                data@.len() >= 0,
                data@.len() <= self.labels().len() + i,
                seq_union(data@, other.labels().subrange(i as int, n as int)) == target,
            decreases n - i,
        {
            let ghost rest = other.labels().subrange(i as int, n as int);
            let loc = &other.data[i];
            let found = find_in(&data, loc);
            proof {
                assert(rest[0] == other.labels()[i as int]);
                assert(rest.drop_first() =~= other.labels().subrange(i as int + 1, n as int));
            }
            if found.is_none() {
                data.push(loc.clone());
            }
            i = i + 1;
        }
        proof {
            assert(other.labels().subrange(n as int, n as int) =~= Seq::<Loc>::empty());
            assert(seq_union(data@, Seq::<Loc>::empty()) == data@);
        }
        let exists = BitVec::from_elem(data.len(), true);
        let r = Index { data, exists };
        proof {
            assert(r.exists_seq() =~= Seq::new(r.labels().len(), |i: int| true));
        }
        r
    }

    /// Same labels, with the given "present" bitmap in place of the old one.
    pub fn with_exists(self, exists: BitVec) -> (r: Index)
        requires
            self.wf(),
            exists.wf(),
            exists@.len() == self.labels().len(),
        ensures
            r.wf(),
            r.labels() == self.labels(),
            r.exists_seq() == exists@,
    {
        Index { data: self.data, exists }
    }

    /// Same labels, with a fresh "present" bitmap that keeps exactly the
    /// integer-position labels in `[lo, hi)`.
    pub fn loc_range(&self, lo: usize, hi: usize) -> (r: Index)
        requires
            self.wf(),
        ensures
            r.wf(),
            r.labels() == self.labels(),
            r.exists_seq().len() == self.labels().len(),
            forall|i: int| 0 <= i < self.labels().len() ==> r.exists_seq()[i] == in_pos_range(
                self.labels()[i],
                lo,
                hi,
            ),
    {
        let data = self.data.clone();
        proof {
            assert forall|i: int| 0 <= i < data@.len() implies data@[i] == self.data@[i] by {
                assert(cloned::<Loc>(self.data@[i], data@[i]));
            }
            assert(data@ =~= self.data@);
        }
        let n = data.len();
        let mut exists = BitVec::from_elem(n, false);
        let mut i: usize = 0;
        while i < n
            invariant
                exists.wf(),
                exists@.len() == n,
                n == self.labels().len(),
                data@ == self.labels(),
                i <= n,
                forall|j: int|
                    0 <= j < i ==> exists@[j] == in_pos_range(self.labels()[j], lo, hi),
                forall|j: int| i <= j < n ==> !exists@[j],
            decreases n - i,
        {
            let hit = match &data[i] {
                Loc::Pos(p) => lo <= *p && *p < hi,
                _ => false,
            };
            if hit {
                exists.set(i, true);
            }
            i = i + 1;
        }
        Index { data, exists }
    }
}

/// True iff `l` is an integer position in `[lo, hi)`.
pub open spec fn in_pos_range(l: Loc, lo: usize, hi: usize) -> bool {
    match l {
        Loc::Pos(u) => lo <= u < hi,
        _ => false,
    }
}

} // verus!
