//! Byte-string storage: one shared byte buffer, a vector of row end offsets,
//! and a validity bitmap. Row `i` occupies `bytes[ends[i-1] .. ends[i]]`,
//! with `ends[-1]` read as zero. Rewriting a row splices the buffer and
//! shifts every later offset in a single pass.

use vstd::prelude::*;

use crate::bits::{BitOp, BitVec};
use crate::index::Index;
use crate::storage::{reindexed_valid, reindexed_value};

verus! {

/// Byte offset where row `i` begins.
pub open spec fn row_start(ends: Seq<usize>, i: int) -> int {
    if i == 0 {
        0
    } else {
        ends[i - 1] as int
    }
}

/// The bytes of row `i`.
pub open spec fn row_val(ends: Seq<usize>, bytes: Seq<u8>, i: int) -> Seq<u8> {
    bytes.subrange(row_start(ends, i), ends[i] as int)
}

/// Offsets are nondecreasing and the last one is the buffer's length.
pub open spec fn rows_wf(ends: Seq<usize>, bytes: Seq<u8>) -> bool {
    &&& forall|i: int| 0 <= i < ends.len() ==> row_start(ends, i) <= ends[i] as int
    &&& if ends.len() == 0 {
        bytes.len() == 0
    } else {
        ends[ends.len() - 1] as int == bytes.len()
    }
}

pub proof fn lemma_ends_mono(ends: Seq<usize>, bytes: Seq<u8>, i: int, j: int)
    requires
        rows_wf(ends, bytes),
        0 <= i <= j < ends.len(),
    ensures
        ends[i] as int <= ends[j] as int,
    decreases j - i,
{
    if i < j {
        lemma_ends_mono(ends, bytes, i, j - 1);
        assert(row_start(ends, j) <= ends[j] as int);
    }
}

pub proof fn lemma_row_in_bounds(ends: Seq<usize>, bytes: Seq<u8>, i: int)
    requires
        rows_wf(ends, bytes),
        0 <= i < ends.len(),
    ensures
        0 <= row_start(ends, i) <= ends[i] as int <= bytes.len(),
{
    lemma_ends_mono(ends, bytes, i, ends.len() - 1);
    if i > 0 {
        lemma_ends_mono(ends, bytes, 0, i - 1);
    }
}

/// The bytes of row `offset`, copied out of the shared buffer.
pub fn extract_row(ends: &Vec<usize>, bytes: &Vec<u8>, offset: usize) -> (r: Vec<u8>)
    requires
        rows_wf(ends@, bytes@),
        offset < ends@.len(),
    ensures
        r@ == row_val(ends@, bytes@, offset as int),
{
    proof {
        lemma_row_in_bounds(ends@, bytes@, offset as int);
    }
    let start: usize = if offset == 0 {
        0
    } else {
        ends[offset - 1]
    };
    let end: usize = ends[offset];
    let mut r: Vec<u8> = Vec::new();
    let mut k: usize = start;
    while k < end
        invariant
            start <= k <= end,
            end <= bytes@.len(),
            r@ == bytes@.subrange(start as int, k as int),
        decreases end - k,
    {
        r.push(bytes[k]);
        proof {
            assert(r@ =~= bytes@.subrange(start as int, k + 1));
        }
        k = k + 1;
    }
    proof {
        assert(r@ =~= row_val(ends@, bytes@, offset as int));
    }
    r
}

/// Replaces the bytes of row `offset` with `out`, splicing the shared buffer
/// and shifting every later end offset by the length difference in one pass.
#[verifier::rlimit(100)]
pub fn replace_row(ends: &mut Vec<usize>, bytes: &mut Vec<u8>, offset: usize, out: Vec<u8>)
    requires
        rows_wf(old(ends)@, old(bytes)@),
        offset < old(ends)@.len(),
    ensures
        rows_wf(final(ends)@, final(bytes)@),
        final(ends)@.len() == old(ends)@.len(),
        row_val(final(ends)@, final(bytes)@, offset as int) == out@,
        forall|j: int|
            0 <= j < old(ends)@.len() && j != offset ==> row_val(final(ends)@, final(bytes)@, j)
                == row_val(old(ends)@, old(bytes)@, j),
{
    let ghost oe = ends@;
    let ghost ob = bytes@;
    let n = ends.len();
    proof {
        lemma_row_in_bounds(oe, ob, offset as int);
    }
    let start: usize = if offset == 0 {
        0
    } else {
        ends[offset - 1]
    };
    let end: usize = ends[offset];
    let old_total = bytes.len();

    let mut nb: Vec<u8> = Vec::new();
    let mut k: usize = 0;
    while k < start
        invariant
            k <= start,
            start <= ob.len(),
            bytes@ == ob,
            nb@ == ob.subrange(0, k as int),
        decreases start - k,
    {
        nb.push(bytes[k]);
        proof {
            assert(nb@ =~= ob.subrange(0, k + 1));
        }
        k = k + 1;
    }
    let out_len = out.len();
    let mut k: usize = 0;
    while k < out_len
        invariant
            k <= out_len,
            out_len == out@.len(),
            nb@ == ob.subrange(0, start as int) + out@.subrange(0, k as int),
        decreases out_len - k,
    {
        nb.push(out[k]);
        proof {
            assert(nb@ =~= ob.subrange(0, start as int) + out@.subrange(0, k + 1));
        }
        k = k + 1;
    }
    proof {
        assert(out@.subrange(0, out@.len() as int) =~= out@);
    }
    let mut k: usize = end;
    while k < old_total
        invariant
            end <= k <= old_total,
            old_total == ob.len(),
            bytes@ == ob,
            out_len == out@.len(),
            start as int <= end as int,
            nb@ == ob.subrange(0, start as int) + out@ + ob.subrange(end as int, k as int),
        decreases old_total - k,
    {
        nb.push(bytes[k]);
        proof {
            assert(nb@ =~= ob.subrange(0, start as int) + out@ + ob.subrange(end as int, k + 1));
        }
        k = k + 1;
    }
    let new_total = nb.len();
    *bytes = nb;

    let ghost delta = new_total as int - old_total as int;
    proof {
        assert(new_total as int == start + out@.len() + (old_total - end));
    }
    let mut j: usize = offset;
    while j < n
        invariant
            offset <= j <= n,
            n == ends@.len(),
            n == oe.len(),
            rows_wf(oe, ob),
            offset < n,
            start as int == row_start(oe, offset as int),
            end == oe[offset as int],
            old_total == ob.len(),
            new_total as int == old_total as int + delta,
            delta == start + out@.len() - end,
            forall|t: int| 0 <= t < offset ==> ends@[t] == oe[t],
            forall|t: int| offset <= t < j ==> ends@[t] as int == oe[t] as int + delta,
            forall|t: int| j <= t < n ==> ends@[t] == oe[t],
        decreases n - j,
    {
        let e = ends[j];
        proof {
            lemma_ends_mono(oe, ob, offset as int, j as int);
            lemma_row_in_bounds(oe, ob, j as int);
        }
        ends.set(j, new_total - (old_total - e));
        j = j + 1;
    }

    proof {
        let ne = ends@;
        let nbs = bytes@;
        // Pointwise relation between the new and the old buffer.
        assert forall|x: int| 0 <= x < start implies nbs[x] == ob[x] by {}
        assert forall|x: int| 0 <= x < out@.len() implies nbs[start + x] == out@[x] by {}
        assert forall|x: int| end <= x < old_total implies nbs[x + delta] == ob[x] by {
            assert(nbs[start + out@.len() + (x - end)] == ob[x]);
        }
        assert forall|t: int| 0 <= t < n implies row_start(ne, t) == (if t <= offset {
            row_start(oe, t)
        } else {
            row_start(oe, t) + delta
        }) by {}

        assert forall|j2: int| 0 <= j2 < offset implies row_val(ne, nbs, j2) == row_val(
            oe,
            ob,
            j2,
        ) by {
            lemma_row_in_bounds(oe, ob, j2);
            if j2 < offset {
                if offset > 0 {
                    lemma_ends_mono(oe, ob, j2, offset - 1);
                }
            }
            assert(row_val(ne, nbs, j2) =~= row_val(oe, ob, j2));
        }
        assert(row_val(ne, nbs, offset as int) =~= out@);
        assert forall|j2: int| offset < j2 < n implies row_val(ne, nbs, j2) == row_val(
            oe,
            ob,
            j2,
        ) by {
            lemma_row_in_bounds(oe, ob, j2);
            lemma_ends_mono(oe, ob, offset as int, j2 - 1);
            assert(row_start(ne, j2) == row_start(oe, j2) + delta);
            assert(row_val(ne, nbs, j2) =~= row_val(oe, ob, j2));
        }
        assert forall|t: int| 0 <= t < n implies row_start(ne, t) <= ne[t] as int by {
            lemma_row_in_bounds(oe, ob, t);
            if t == offset as int {
            } else if t == offset + 1 {
                assert(ne[t] as int == oe[t] as int + delta);
            }
        }
        assert(rows_wf(ne, nbs));
    }
}

/// Byte-string storage: row end offsets, one shared byte buffer, and a
/// validity bitmap.
pub struct StringStorage {
    ends: Vec<usize>,
    bytes: Vec<u8>,
    exists: BitVec,
}

impl StringStorage {
    /// The row end offsets.
    pub closed spec fn ends_seq(&self) -> Seq<usize> {
        self.ends@
    }

    /// The shared byte buffer.
    pub closed spec fn bytes_seq(&self) -> Seq<u8> {
        self.bytes@
    }

    /// The validity bitmap.
    pub closed spec fn exists_bv(&self) -> BitVec {
        self.exists
    }

    /// The validity bit of each row.
    pub open spec fn valid(&self) -> Seq<bool> {
        self.exists_bv()@
    }

    pub open spec fn len_spec(&self) -> int {
        self.ends_seq().len() as int
    }

    /// The bytes of row `i`.
    pub open spec fn value_at(&self, i: int) -> Seq<u8> {
        row_val(self.ends_seq(), self.bytes_seq(), i)
    }

    /// All rows' bytes, one sequence per row.
    pub open spec fn values(&self) -> Seq<Seq<u8>> {
        Seq::new(self.len_spec() as nat, |i: int| self.value_at(i))
    }

    pub open spec fn wf(&self) -> bool {
        &&& self.exists_bv().wf()
        &&& self.valid().len() == self.ends_seq().len()
        &&& rows_wf(self.ends_seq(), self.bytes_seq())
    }

    pub fn new(ends: Vec<usize>, bytes: Vec<u8>, exists: BitVec) -> (r: StringStorage)
        requires
            exists.wf(),
            exists@.len() == ends@.len(),
            rows_wf(ends@, bytes@),
        ensures
            r.wf(),
            r.ends_seq() == ends@,
            r.bytes_seq() == bytes@,
            r.valid() == exists@,
    {
        StringStorage { ends, bytes, exists }
    }

    /// Storage over the given rows, with the given validity.
    pub fn from_rows(data: Vec<Vec<u8>>, exists: BitVec) -> (r: StringStorage)
        requires
            exists.wf(),
            exists@.len() == data@.len(),
        ensures
            r.wf(),
            r.len_spec() == data@.len(),
            r.valid() == exists@,
            forall|i: int| 0 <= i < data@.len() ==> r.value_at(i) == data@[i]@,
    {
        let n = data.len();
        let mut ends: Vec<usize> = Vec::new();
        let mut bytes: Vec<u8> = Vec::new();
        let mut i: usize = 0;
        while i < n
            invariant
                n == data@.len(),
                i <= n,
                ends@.len() == i,
                rows_wf(ends@, bytes@),
                forall|j: int| 0 <= j < i ==> row_val(ends@, bytes@, j) == data@[j]@,
            decreases n - i,
        {
            let ghost oe = ends@;
            let ghost ob = bytes@;
            let row = &data[i];
            let m = row.len();
            let mut k: usize = 0;
            while k < m
                invariant
                    k <= m,
                    m == row@.len(),
                    bytes@ == ob + row@.subrange(0, k as int),
                decreases m - k,
            {
                bytes.push(row[k]);
                proof {
                    assert(bytes@ =~= ob + row@.subrange(0, k + 1));
                }
                k = k + 1;
            }
            proof {
                assert(row@.subrange(0, m as int) =~= row@);
            }
            ends.push(bytes.len());
            proof {
                assert(bytes@ == ob + row@);
                assert(ends@ == oe.push((ob.len() + row@.len()) as usize));
                assert forall|j: int| 0 <= j < i implies row_val(ends@, bytes@, j) == data@[j]@ by {
                    lemma_row_in_bounds(oe, ob, j);
                    assert(row_val(oe, ob, j) == data@[j]@);
                    assert(row_val(ends@, bytes@, j) =~= row_val(oe, ob, j));
                }
                assert(row_val(ends@, bytes@, i as int) =~= row@);
                assert(rows_wf(ends@, bytes@));
            }
            i = i + 1;
        }
        StringStorage { ends, bytes, exists }
    }

    pub fn len(&self) -> (n: usize)
        requires
            self.wf(),
        ensures
            n == self.len_spec(),
    {
        self.ends.len()
    }

    /// The offsets, the byte buffer, and the validity bitmap, consumed.
    pub fn into_parts(self) -> (r: (Vec<usize>, Vec<u8>, BitVec))
        ensures
            r.0@ == self.ends_seq(),
            r.1@ == self.bytes_seq(),
            r.2 == self.exists_bv(),
    {
        (self.ends, self.bytes, self.exists)
    }

    /// The offsets, the byte buffer, and the validity bitmap, side by side.
    pub fn as_vec_mask(&self) -> (r: (&Vec<usize>, &Vec<u8>, &BitVec))
        ensures
            r.0@ == self.ends_seq(),
            r.1@ == self.bytes_seq(),
            *r.2 == self.exists_bv(),
    {
        (&self.ends, &self.bytes, &self.exists)
    }

    /// The bytes of a row, if the row is valid.
    pub fn get(&self, offset: usize) -> (r: Option<Vec<u8>>)
        requires
            self.wf(),
            offset < self.len_spec(),
        ensures
            match r {
                Some(v) => self.valid()[offset as int] && v@ == self.value_at(offset as int),
                None => !self.valid()[offset as int],
            },
    {
        if self.exists.get(offset) {
            Some(extract_row(&self.ends, &self.bytes, offset))
        } else {
            None
        }
    }

    /// A copy of the storage.
    pub fn duplicate(&self) -> (r: StringStorage)
        requires
            self.wf(),
        ensures
            r.wf(),
            r.ends_seq() == self.ends_seq(),
            r.bytes_seq() == self.bytes_seq(),
            r.valid() == self.valid(),
    {
        let ends = self.ends.clone();
        let bytes = self.bytes.clone();
        proof {
            assert forall|i: int| 0 <= i < ends@.len() implies ends@[i] == self.ends@[i] by {
                assert(cloned::<usize>(self.ends@[i], ends@[i]));
            }
            assert(ends@ =~= self.ends@);
            assert forall|i: int| 0 <= i < bytes@.len() implies bytes@[i] == self.bytes@[i] by {
                assert(cloned::<u8>(self.bytes@[i], bytes@[i]));
            }
            assert(bytes@ =~= self.bytes@);
        }
        StringStorage { ends, bytes, exists: self.exists.duplicate() }
    }

    /// Lays the storage out over `index`, as the other storages do; the
    /// default for absent rows is the empty byte string.
    pub fn reindex(self, prev_index: &Index, index: &Index) -> (r: StringStorage)
        requires
            self.wf(),
            prev_index.wf(),
            index.wf(),
            self.len_spec() == prev_index.labels().len(),
        ensures
            r.wf(),
            crate::index::index_equiv(prev_index, index) ==> r == self,
            !crate::index::index_equiv(prev_index, index) ==> {
                &&& r.len_spec() == index.labels().len()
                &&& forall|i: int|
                    0 <= i < index.labels().len() ==> r.valid()[i] == reindexed_valid(
                        prev_index,
                        self.valid(),
                        index.labels()[i],
                    )
                &&& forall|i: int|
                    0 <= i < index.labels().len() ==> r.value_at(i) == reindexed_value(
                        prev_index,
                        self.valid(),
                        self.values(),
                        index.labels()[i],
                        Seq::<u8>::empty(),
                    )
            },
    {
        if prev_index.same_as(index) {
            return self;
        }
        let (labels, _mask) = index.as_vec_mask();
        let n = labels.len();
        let mut ends: Vec<usize> = Vec::new();
        let mut bytes: Vec<u8> = Vec::new();
        let mut exists = BitVec::new();
        let mut i: usize = 0;
        while i < n
            invariant
                self.wf(),
                prev_index.wf(),
                self.len_spec() == prev_index.labels().len(),
                n == index.labels().len(),
                labels@ == index.labels(),
                i <= n,
                exists.wf(),
                ends@.len() == i,
                exists@.len() == i,
                rows_wf(ends@, bytes@),
                forall|j: int|
                    0 <= j < i ==> exists@[j] == reindexed_valid(
                        prev_index,
                        self.valid(),
                        index.labels()[j],
                    ),
                forall|j: int|
                    0 <= j < i ==> row_val(ends@, bytes@, j) == reindexed_value(
                        prev_index,
                        self.valid(),
                        self.values(),
                        index.labels()[j],
                        Seq::<u8>::empty(),
                    ),
            decreases n - i,
        {
            let ghost oe = ends@;
            let ghost ob = bytes@;
            let ghost mut newrow: Seq<u8> = Seq::<u8>::empty();
            let mut hit = false;
            match prev_index.get(&labels[i]) {
                Some(p) => {
                    if self.exists.get(p) {
                        let row = extract_row(&self.ends, &self.bytes, p);
                        proof {
                            newrow = row@;
                            assert(self.values()[p as int] == self.value_at(p as int));
                        }
                        let m = row.len();
                        let mut k: usize = 0;
                        while k < m
                            invariant
                                k <= m,
                                m == row@.len(),
                                bytes@ == ob + row@.subrange(0, k as int),
                            decreases m - k,
                        {
                            bytes.push(row[k]);
                            proof {
                                assert(bytes@ =~= ob + row@.subrange(0, k + 1));
                            }
                            k = k + 1;
                        }
                        proof {
                            assert(row@.subrange(0, m as int) =~= row@);
                        }
                        hit = true;
                    }
                },
                None => {},
            }
            ends.push(bytes.len());
            exists.push(hit);
            proof {
                assert(bytes@ == ob + newrow);
                let ghost target = reindexed_value(
                    prev_index,
                    self.valid(),
                    self.values(),
                    index.labels()[i as int],
                    Seq::<u8>::empty(),
                );
                assert forall|j: int| 0 <= j < i implies row_val(ends@, bytes@, j)
                    == reindexed_value(
                    prev_index,
                    self.valid(),
                    self.values(),
                    index.labels()[j],
                    Seq::<u8>::empty(),
                ) by {
                    lemma_row_in_bounds(oe, ob, j);
                    assert(row_val(oe, ob, j) == reindexed_value(
                        prev_index,
                        self.valid(),
                        self.values(),
                        index.labels()[j],
                        Seq::<u8>::empty(),
                    ));
                    assert(row_val(ends@, bytes@, j) =~= row_val(oe, ob, j));
                }
                assert(row_val(ends@, bytes@, i as int) =~= newrow);
                assert(newrow == target);
                assert(rows_wf(ends@, bytes@));
            }
            i = i + 1;
        }
        StringStorage { ends, bytes, exists }
    }
}

impl StringStorage {
    /// Rewrites each row that is valid and present in the row index through
    /// `f`, splicing the shared buffer row by row. Validity is unchanged.
    pub fn map_in_place<F: Fn(Vec<u8>) -> Vec<u8>>(self, index_exists: &BitVec, f: &F) -> (r:
        StringStorage)
        requires
            self.wf(),
            index_exists.wf(),
            index_exists@.len() == self.len_spec(),
            forall|a: Vec<u8>| call_requires(*f, (a,)),
        ensures
            r.wf(),
            r.len_spec() == self.len_spec(),
            r.valid() == self.valid(),
            forall|j: int|
                0 <= j < self.len_spec() && self.valid()[j] && index_exists@[j]
                    ==> exists|a: Vec<u8>, out: Vec<u8>|
                    a@ == self.value_at(j) && #[trigger] call_ensures(*f, (a,), out)
                        && r.value_at(j) == out@,
            forall|j: int|
                0 <= j < self.len_spec() && !(self.valid()[j] && index_exists@[j])
                    ==> r.value_at(j) == self.value_at(j),
    {
        let StringStorage { mut ends, mut bytes, exists } = self;
        let n = ends.len();
        let mut j: usize = 0;
        while j < n
            invariant
                n == self.len_spec(),
                ends@.len() == n,
                rows_wf(ends@, bytes@),
                exists == self.exists,
                self.wf(),
                index_exists.wf(),
                index_exists@.len() == n,
                forall|a: Vec<u8>| call_requires(*f, (a,)),
                j <= n,
                forall|t: int|
                    0 <= t < j && self.valid()[t] && index_exists@[t]
                        ==> exists|a: Vec<u8>, out: Vec<u8>|
                        a@ == self.value_at(t) && #[trigger] call_ensures(*f, (a,), out)
                            && row_val(ends@, bytes@, t) == out@,
                forall|t: int|
                    0 <= t < n && (t >= j || !(self.valid()[t] && index_exists@[t])) ==> row_val(
                        ends@,
                        bytes@,
                        t,
                    ) == self.value_at(t),
            decreases n - j,
        {
            if exists.get(j) && index_exists.get(j) {
                process(&mut ends, &mut bytes, j, f);
            }
            j = j + 1;
        }
        StringStorage { ends, bytes, exists }
    }

    /// Intersects validity with `other`'s, then rewrites each row that stays
    /// valid and is present in the row index through `f`, handing it its own
    /// bytes and `other`'s bytes at the same offset.
    pub fn zip_in_place<F: Fn(Vec<u8>, Vec<u8>) -> Vec<u8>>(
        self,
        index_exists: &BitVec,
        other: &StringStorage,
        f: &F,
    ) -> (r: StringStorage)
        requires
            self.wf(),
            other.wf(),
            index_exists.wf(),
            index_exists@.len() == self.len_spec(),
            other.len_spec() == self.len_spec(),
            forall|a: Vec<u8>, b: Vec<u8>| call_requires(*f, (a, b)),
        ensures
            r.wf(),
            r.len_spec() == self.len_spec(),
            r.valid().len() == self.len_spec(),
            forall|j: int|
                0 <= j < self.len_spec() ==> r.valid()[j] == (self.valid()[j] && other.valid()[j]),
            forall|j: int|
                0 <= j < self.len_spec() && self.valid()[j] && other.valid()[j] && index_exists@[j]
                    ==> exists|a: Vec<u8>, b: Vec<u8>, out: Vec<u8>|
                    a@ == self.value_at(j) && b@ == other.value_at(j) && #[trigger] call_ensures(
                        *f,
                        (a, b),
                        out,
                    ) && r.value_at(j) == out@,
            forall|j: int|
                0 <= j < self.len_spec() && !(self.valid()[j] && other.valid()[j]
                    && index_exists@[j]) ==> r.value_at(j) == self.value_at(j),
    {
        let StringStorage { mut ends, mut bytes, exists } = self;
        let mut exists = exists;
        exists.combine(&other.exists, BitOp::And);
        let n = ends.len();
        let mut j: usize = 0;
        while j < n
            invariant
                n == self.len_spec(),
                ends@.len() == n,
                rows_wf(ends@, bytes@),
                exists.wf(),
                exists@.len() == n,
                forall|t: int|
                    0 <= t < n ==> exists@[t] == (self.valid()[t] && other.valid()[t]),
                self.wf(),
                other.wf(),
                other.len_spec() == n,
                index_exists.wf(),
                index_exists@.len() == n,
                forall|a: Vec<u8>, b: Vec<u8>| call_requires(*f, (a, b)),
                j <= n,
                forall|t: int|
                    0 <= t < j && self.valid()[t] && other.valid()[t] && index_exists@[t]
                        ==> exists|a: Vec<u8>, b: Vec<u8>, out: Vec<u8>|
                        a@ == self.value_at(t) && b@ == other.value_at(t)
                            && #[trigger] call_ensures(*f, (a, b), out) && row_val(ends@, bytes@, t)
                            == out@,
                forall|t: int|
                    0 <= t < n && (t >= j || !(self.valid()[t] && other.valid()[t]
                        && index_exists@[t])) ==> row_val(ends@, bytes@, t) == self.value_at(t),
            decreases n - j,
        {
            if exists.get(j) && index_exists.get(j) {
                let arow = extract_row(&ends, &bytes, j);
                let brow = extract_row(&other.ends, &other.bytes, j);
                let ghost ga = arow;
                let ghost gb = brow;
                let out = f(arow, brow);
                let ghost gout = out;
                replace_row(&mut ends, &mut bytes, j, out);
                proof {
                    assert(ga@ == self.value_at(j as int) && gb@ == other.value_at(j as int)
                        && call_ensures(*f, (ga, gb), gout) && row_val(ends@, bytes@, j as int)
                        == gout@);
                }
            }
            j = j + 1;
        }
        StringStorage { ends, bytes, exists }
    }
}

/// Rewrites the bytes of row `offset` through `f`, keeping every other row
/// and updating the end offsets in the same pass.
pub fn process<F: Fn(Vec<u8>) -> Vec<u8>>(
    ends: &mut Vec<usize>,
    bytes: &mut Vec<u8>,
    offset: usize,
    f: &F,
)
    requires
        rows_wf(old(ends)@, old(bytes)@),
        offset < old(ends)@.len(),
        forall|a: Vec<u8>| call_requires(*f, (a,)),
    ensures
        rows_wf(final(ends)@, final(bytes)@),
        final(ends)@.len() == old(ends)@.len(),
        forall|j: int|
            0 <= j < old(ends)@.len() && j != offset ==> row_val(final(ends)@, final(bytes)@, j)
                == row_val(old(ends)@, old(bytes)@, j),
        exists|a: Vec<u8>, out: Vec<u8>|
            a@ == row_val(old(ends)@, old(bytes)@, offset as int) && call_ensures(*f, (a,), out)
                && row_val(final(ends)@, final(bytes)@, offset as int) == out@,
{
    let row = extract_row(ends, bytes, offset);
    let ghost arg = row;
    let out = f(row);
    let ghost outg = out;
    replace_row(ends, bytes, offset, out);
    proof {
        assert(arg@ == row_val(old(ends)@, old(bytes)@, offset as int) && call_ensures(
            *f,
            (arg,),
            outg,
        ) && row_val(final(ends)@, final(bytes)@, offset as int) == outg@);
    }
}

} // verus!
