//! A packed bit array. Bits are stored 64 to a block; the unused high bits of
//! the last block are kept at zero so that block-level operations need no
//! per-bit masking except on the final block.

use vstd::prelude::*;

verus! {

/// True iff bit `s` of block `b` is set.
pub open spec fn bit64(b: u64, s: u64) -> bool {
    (b >> s) & 1u64 == 1u64
}

/// Number of 64-bit blocks that hold `n` bits.
pub open spec fn nblocks(n: int) -> int {
    (n + 63) / 64
}

/// A block-wise boolean operation.
pub enum BitOp {
    And,
    Or,
    Diff,
    OrNot,
}

/// What a [`BitOp`] means on one pair of bits. `Diff` keeps `x` where `y` is
/// clear; `OrNot` sets every bit where `y` is clear.
pub open spec fn bit_op(op: BitOp, x: bool, y: bool) -> bool {
    match op {
        BitOp::And => x && y,
        BitOp::Or => x || y,
        BitOp::Diff => x && !y,
        BitOp::OrNot => x || !y,
    }
}

/// Number of set bits among the first `n`.
pub open spec fn count_upto(s: Seq<bool>, n: int) -> int
    decreases n,
{
    if n <= 0 {
        0
    } else {
        count_upto(s, n - 1) + if s[n - 1] {
            1int
        } else {
            0int
        }
    }
}

/// Number of set bits.
pub open spec fn count_trues(s: Seq<bool>) -> int {
    count_upto(s, s.len() as int)
}

/// A packed bit array of `len` bits.
pub struct BitVec {
    blocks: Vec<u64>,
    len: usize,
}

impl View for BitVec {
    type V = Seq<bool>;

    closed spec fn view(&self) -> Seq<bool> {
        Seq::new(self.len as nat, |i: int| bit64(self.blocks@[i / 64], (i % 64) as u64))
    }
}

proof fn lemma_index_geometry(i: int, n: int)
    by (nonlinear_arith)
    requires
        0 <= i < n,
    ensures
        0 <= i / 64 < nblocks(n),
        0 <= i % 64 < 64,
        i / 64 * 64 + i % 64 == i,
{
}

proof fn lemma_block_geometry(n: int, j: int, t: int)
    by (nonlinear_arith)
    requires
        0 <= n,
        0 <= j < nblocks(n),
        0 <= t < 64,
    ensures
        (j * 64 + t) / 64 == j,
        (j * 64 + t) % 64 == t,
        j < nblocks(n) - 1 ==> j * 64 + t < n,
        j == nblocks(n) - 1 && n % 64 == 0 ==> j * 64 + t < n,
        j == nblocks(n) - 1 && n % 64 != 0 ==> (j * 64 + t < n <==> t < n % 64),
{
}

proof fn lemma_set_bit_true(b: u64, s: u64, t: u64)
    by (bit_vector)
    requires
        s < 64,
        t < 64,
    ensures
        bit64(b | (1u64 << s), t) == (t == s || bit64(b, t)),
{
}

proof fn lemma_set_bit_false(b: u64, s: u64, t: u64)
    by (bit_vector)
    requires
        s < 64,
        t < 64,
    ensures
        bit64(b & !(1u64 << s), t) == (t != s && bit64(b, t)),
{
}

proof fn lemma_trailing_after_set(b: u64, s: u64, r: u64)
    by (bit_vector)
    requires
        s < r,
        r < 64,
        b >> r == 0u64,
    ensures
        (b | (1u64 << s)) >> r == 0u64,
        (b & !(1u64 << s)) >> r == 0u64,
{
}

proof fn lemma_trailing_zero_bit(b: u64, r: u64, t: u64)
    by (bit_vector)
    requires
        r <= t,
        t < 64,
        b >> r == 0u64,
    ensures
        !bit64(b, t),
{
}

proof fn lemma_fresh_block(t: u64)
    by (bit_vector)
    requires
        t < 64,
    ensures
        bit64(1u64, t) == (t == 0),
        !bit64(0u64, t),
        1u64 >> 1u64 == 0u64,
        0u64 >> 1u64 == 0u64,
{
}

proof fn lemma_bit_ops(a: u64, b: u64, t: u64)
    by (bit_vector)
    requires
        t < 64,
    ensures
        bit64(a & b, t) == (bit64(a, t) && bit64(b, t)),
        bit64(a | b, t) == (bit64(a, t) || bit64(b, t)),
        bit64(a & !b, t) == (bit64(a, t) && !bit64(b, t)),
        bit64(a | !b, t) == (bit64(a, t) || !bit64(b, t)),
{
}

proof fn lemma_mask_bits(x: u64, r: u64, t: u64)
    by (bit_vector)
    requires
        0 < r < 64,
        t < 64,
    ensures
        bit64(x & (((1u64 << r) - 1) as u64), t) == (t < r && bit64(x, t)),
        (x & (((1u64 << r) - 1) as u64)) >> r == 0u64,
{
}

proof fn lemma_pow_positive(r: u64)
    by (bit_vector)
    requires
        r < 64,
    ensures
        1u64 << r >= 1u64,
{
}

proof fn lemma_low_bit(b: u64)
    by (bit_vector)
    ensures
        (b & 1u64 == 1u64) == bit64(b, 0),
        b != 0u64 && b & 1u64 != 1u64 ==> b >> 1u64 != 0u64,
        b != 0u64 ==> b >> 1u64 < b,
        !bit64(b >> 1u64, 63),
{
}

proof fn lemma_shift_bit(b: u64, t: u64)
    by (bit_vector)
    requires
        t < 63,
    ensures
        bit64(b >> 1u64, t) == bit64(b, (t + 1) as u64),
{
}

proof fn lemma_nonzero_has_bit(b: u64)
    requires
        b != 0u64,
    ensures
        exists|t: u64| t < 64 && #[trigger] bit64(b, t),
    decreases b,
{
    lemma_low_bit(b);
    if b & 1u64 == 1u64 {
        assert(bit64(b, 0));
    } else {
        lemma_nonzero_has_bit(b >> 1u64);
        let t = choose|t: u64| t < 64 && #[trigger] bit64(b >> 1u64, t);
        lemma_shift_bit(b, t);
        assert(bit64(b, (t + 1) as u64));
    }
}

proof fn lemma_not_bit(b: u64, t: u64)
    by (bit_vector)
    requires
        t < 64,
    ensures
        bit64(!b, t) == !bit64(b, t),
        b != !0u64 ==> !b != 0u64,
{
}

proof fn lemma_const_block(b: u64, t: u64)
    by (bit_vector)
    requires
        t < 64,
    ensures
        b == 0u64 ==> !bit64(b, t),
        b == !0u64 ==> bit64(b, t),
{
}

impl BitVec {
    /// The blocks are exactly as many as the bits need, and the high bits of
    /// the last block beyond `len` are zero.
    pub closed spec fn wf(&self) -> bool {
        &&& self.blocks@.len() == nblocks(self.len as int)
        &&& self.len % 64 != 0 ==> self.blocks@.last() >> ((self.len % 64) as u64) == 0u64
    }

    /// The empty bit array.
    pub fn new() -> (r: BitVec)
        ensures
            r.wf(),
            r@ == Seq::<bool>::empty(),
    {
        let r = BitVec { blocks: Vec::new(), len: 0 };
        proof {
            assert(r@ =~= Seq::<bool>::empty());
        }
        r
    }

    pub fn len(&self) -> (n: usize)
        ensures
            n == self@.len(),
    {
        self.len
    }

    pub fn get(&self, i: usize) -> (r: bool)
        requires
            self.wf(),
            i < self@.len(),
        ensures
            r == self@[i as int],
    {
        proof {
            lemma_index_geometry(i as int, self.len as int);
        }
        let b = self.blocks[i / 64];
        (b >> ((i % 64) as u64)) & 1u64 == 1u64
    }

    pub fn set(&mut self, i: usize, v: bool)
        requires
            old(self).wf(),
            i < old(self)@.len(),
        ensures
            final(self).wf(),
            final(self)@ == old(self)@.update(i as int, v),
    {
        proof {
            lemma_index_geometry(i as int, self.len as int);
        }
        let k = i / 64;
        let s = (i % 64) as u64;
        let b = self.blocks[k];
        let nb = if v {
            b | (1u64 << s)
        } else {
            b & !(1u64 << s)
        };
        self.blocks.set(k, nb);
        proof {
            let n = self.len as int;
            assert forall|t: u64| t < 64 implies bit64(nb, t) == (t == s && v || t != s && bit64(
                b,
                t,
            )) by {
                lemma_set_bit_true(b, s, t);
                lemma_set_bit_false(b, s, t);
            }
            if self.len % 64 != 0 && k == nblocks(n) - 1 {
                lemma_block_geometry(n, k as int, s as int);
                lemma_trailing_after_set(b, s, (self.len % 64) as u64);
            }
            assert forall|j: int| 0 <= j < n implies self@[j] == old(self)@.update(i as int, v)[j] by {
                lemma_index_geometry(j, n);
                if j / 64 == k as int {
                    lemma_block_geometry(n, j / 64, j % 64);
                }
            }
            assert(self@ =~= old(self)@.update(i as int, v));
        }
    }

    pub fn push(&mut self, v: bool)
        requires
            old(self).wf(),
            old(self)@.len() < usize::MAX,
        ensures
            final(self).wf(),
            final(self)@ == old(self)@.push(v),
    {
        let ghost n = self.len as int;
        if self.len % 64 == 0 {
            self.blocks.push(if v { 1u64 } else { 0u64 });
            self.len = self.len + 1;
            proof {
                assert(nblocks(n + 1) == nblocks(n) + 1) by (nonlinear_arith)
                    requires n >= 0, n % 64 == 0;
                assert forall|j: int| 0 <= j < n + 1 implies self@[j] == old(self)@.push(v)[j] by {
                    lemma_index_geometry(j, n + 1);
                    if j < n {
                        lemma_index_geometry(j, n);
                        assert(j / 64 < nblocks(n));
                    } else {
                        assert(j == n);
                        assert(j / 64 == nblocks(n)) by (nonlinear_arith)
                            requires j == n, n >= 0, n % 64 == 0;
                        assert(j % 64 == 0) by (nonlinear_arith)
                            requires j == n, n >= 0, n % 64 == 0;
                        lemma_fresh_block(0u64);
                    }
                }
                assert(self@ =~= old(self)@.push(v));
                if self.len % 64 != 0 {
                    assert(self.len % 64 == 1) by (nonlinear_arith)
                        requires self.len == n + 1, n >= 0, n % 64 == 0;
                    lemma_fresh_block(1u64);
                }
            }
        } else {
            let k = self.blocks.len() - 1;
            let r = (self.len % 64) as u64;
            let b = self.blocks[k];
            let nb = if v {
                b | (1u64 << r)
            } else {
                b
            };
            self.blocks.set(k, nb);
            self.len = self.len + 1;
            proof {
                assert(nblocks(n + 1) == nblocks(n) && k as int == nblocks(n) - 1 && n == 64 * (
                nblocks(n) - 1) + n % 64) by (nonlinear_arith)
                    requires n >= 0, n % 64 != 0, k as int == nblocks(n) - 1, n < usize::MAX;
                assert forall|t: u64| t < 64 implies bit64(nb, t) == (t == r && v || bit64(b, t))
                    by {
                    lemma_set_bit_true(b, r, t);
                }
                assert forall|j: int| 0 <= j < n + 1 implies self@[j] == old(self)@.push(v)[j] by {
                    lemma_index_geometry(j, n + 1);
                    lemma_block_geometry(n + 1, j / 64, j % 64);
                    if j < n {
                        lemma_index_geometry(j, n);
                        if j / 64 == k as int {
                            assert(j % 64 < r as int);
                        }
                    } else {
                        assert(j == n);
                        assert(j / 64 == k as int && j % 64 == r as int) by (nonlinear_arith)
                            requires
                                j == n,
                                n >= 0,
                                n % 64 != 0,
                                r as int == n % 64,
                                k as int == nblocks(n) - 1,
                                n == 64 * (nblocks(n) - 1) + n % 64,
                        ;
                        lemma_trailing_zero_bit(b, r, r);
                    }
                }
                assert(self@ =~= old(self)@.push(v));
                if self.len % 64 != 0 {
                    let r2 = (self.len % 64) as u64;
                    assert(r2 == r + 1) by (nonlinear_arith)
                        requires
                            self.len == n + 1,
                            n >= 0,
                            n % 64 != 0,
                            (n + 1) % 64 != 0,
                            r as int == n % 64,
                            r2 as int == (n + 1) % 64,
                    ;
                    assert(nb >> r2 == 0u64) by (bit_vector)
                        requires
                            r2 == r + 1,
                            r < 64,
                            r2 < 64,
                            b >> r == 0u64,
                            nb == b || nb == b | (1u64 << r),
                    ;
                }
            }
        }
    }

    /// One 64-bit block of the array. Bits at offsets past `len` read zero.
    pub fn block(&self, k: usize) -> (r: u64)
        requires
            self.wf(),
            k < nblocks(self@.len() as int),
        ensures
            forall|t: u64|
                t < 64 ==> #[trigger] bit64(r, t) == ((k as int) * 64 + t < self@.len()
                    && self@[(k as int) * 64 + t]),
    {
        let r = self.blocks[k];
        proof {
            let n = self.len as int;
            assert forall|t: u64| t < 64 implies #[trigger] bit64(r, t) == ((k as int) * 64 + t < n
                && self@[(k as int) * 64 + t]) by {
                lemma_block_geometry(n, k as int, t as int);
                if (k as int) * 64 + t >= n {
                    lemma_trailing_zero_bit(r, (self.len % 64) as u64, t);
                }
            }
        }
        r
    }

    /// Number of blocks in the array.
    pub fn num_blocks(&self) -> (r: usize)
        requires
            self.wf(),
        ensures
            r == nblocks(self@.len() as int),
    {
        self.blocks.len()
    }

    /// Block-wise combination with another array of the same length.
    pub fn combine(&mut self, other: &BitVec, op: BitOp)
        requires
            old(self).wf(),
            other.wf(),
            other@.len() == old(self)@.len(),
        ensures
            final(self).wf(),
            final(self)@.len() == old(self)@.len(),
            forall|i: int|
                0 <= i < old(self)@.len() ==> final(self)@[i] == bit_op(
                    op,
                    old(self)@[i],
                    other@[i],
                ),
    {
        let ghost n = self.len as int;
        let ghost prev = self.blocks@;
        let nb = self.blocks.len();
        let mut k: usize = 0;
        while k < nb
            invariant
                self.blocks@.len() == nb,
                self.len == old(self).len,
                nb == nblocks(n),
                n == self.len as int,
                other.wf(),
                other@.len() == n,
                old(self).wf(),
                prev == old(self).blocks@,
                k <= nb,
                forall|j: int| k <= j < nb ==> self.blocks@[j] == prev[j],
                forall|j: int, t: u64|
                    0 <= j < k && t < 64 ==> #[trigger] bit64(self.blocks@[j], t) == (j * 64 + t < n
                        && bit_op(op, old(self)@[j * 64 + t], other@[j * 64 + t])),
                forall|j: int|
                    0 <= j < k && j == nb - 1 && n % 64 != 0 ==> #[trigger] self.blocks@[j] >> ((n
                        % 64) as u64) == 0u64,
            decreases nb - k,
        {
            let a = self.blocks[k];
            let b = other.block(k);
            let c = match op {
                BitOp::And => a & b,
                BitOp::Or => a | b,
                BitOp::Diff => a & !b,
                BitOp::OrNot => a | !b,
            };
            let r = self.len % 64;
            let c = if k == nb - 1 && r != 0 {
                proof {
                    lemma_pow_positive(r as u64);
                }
                c & ((1u64 << (r as u64)) - 1)
            } else {
                c
            };
            self.blocks.set(k, c);
            proof {
                let ghost cp = c;
                assert forall|t: u64| t < 64 implies #[trigger] bit64(cp, t) == ((k as int) * 64 + t
                    < n && bit_op(op, old(self)@[(k as int) * 64 + t], other@[(k as int) * 64 + t]))
                    by {
                    lemma_block_geometry(n, k as int, t as int);
                    lemma_bit_ops(a, b, t);
                    if k as int == nblocks(n) - 1 && n % 64 != 0 {
                        lemma_mask_bits(
                            match op {
                                BitOp::And => a & b,
                                BitOp::Or => a | b,
                                BitOp::Diff => a & !b,
                                BitOp::OrNot => a | !b,
                            },
                            (n % 64) as u64,
                            t,
                        );
                    }
                    if (k as int) * 64 + t < n {
                        let i = (k as int) * 64 + t;
                        lemma_index_geometry(i, n);
                        assert(old(self)@[i] == bit64(prev[k as int], t));
                    }
                }
                if k == nb - 1 && self.len % 64 != 0 {
                    lemma_mask_bits(
                        match op {
                            BitOp::And => a & b,
                            BitOp::Or => a | b,
                            BitOp::Diff => a & !b,
                            BitOp::OrNot => a | !b,
                        },
                        (n % 64) as u64,
                        0u64,
                    );
                }
            }
            k = k + 1;
        }
        proof {
            assert forall|i: int| 0 <= i < n implies self@[i] == bit_op(
                op,
                old(self)@[i],
                other@[i],
            ) by {
                lemma_index_geometry(i, n);
            }
        }
    }

    /// Block-wise select: each bit keeps its value where `cond` is set and
    /// takes `other`'s bit where it is clear.
    pub fn blend(&mut self, cond: &BitVec, other: &BitVec)
        requires
            old(self).wf(),
            cond.wf(),
            other.wf(),
            cond@.len() == old(self)@.len(),
            other@.len() == old(self)@.len(),
        ensures
            final(self).wf(),
            final(self)@.len() == old(self)@.len(),
            forall|i: int|
                0 <= i < old(self)@.len() ==> final(self)@[i] == (if cond@[i] {
                    old(self)@[i]
                } else {
                    other@[i]
                }),
    {
        let ghost n = self.len as int;
        let ghost prev = self.blocks@;
        let nb = self.blocks.len();
        let mut k: usize = 0;
        while k < nb
            invariant
                self.blocks@.len() == nb,
                self.len == old(self).len,
                nb == nblocks(n),
                n == self.len as int,
                cond.wf(),
                other.wf(),
                cond@.len() == n,
                other@.len() == n,
                old(self).wf(),
                prev == old(self).blocks@,
                k <= nb,
                forall|j: int| k <= j < nb ==> self.blocks@[j] == prev[j],
                forall|j: int, t: u64|
                    0 <= j < k && t < 64 ==> #[trigger] bit64(self.blocks@[j], t) == (j * 64 + t < n
                        && (if cond@[j * 64 + t] {
                        old(self)@[j * 64 + t]
                    } else {
                        other@[j * 64 + t]
                    })),
                forall|j: int|
                    0 <= j < k && j == nb - 1 && n % 64 != 0 ==> #[trigger] self.blocks@[j] >> ((n
                        % 64) as u64) == 0u64,
            decreases nb - k,
        {
            let a = self.blocks[k];
            let c = cond.blocks[k];
            let b = other.blocks[k];
            let m = (c & a) | (!c & b);
            self.blocks.set(k, m);
            proof {
                assert forall|t: u64| t < 64 implies #[trigger] bit64(m, t) == ((k as int) * 64 + t
                    < n && (if cond@[(k as int) * 64 + t] {
                    old(self)@[(k as int) * 64 + t]
                } else {
                    other@[(k as int) * 64 + t]
                })) by {
                    lemma_block_geometry(n, k as int, t as int);
                    lemma_bit_ops(c, a, t);
                    lemma_bit_ops(c & a, !c & b, t);
                    lemma_not_bit(c, t);
                    lemma_bit_ops(!c, b, t);
                    if (k as int) * 64 + t < n {
                        let i = (k as int) * 64 + t;
                        lemma_index_geometry(i, n);
                        assert(old(self)@[i] == bit64(prev[k as int], t));
                        assert(cond@[i] == bit64(cond.blocks@[k as int], t));
                        assert(other@[i] == bit64(other.blocks@[k as int], t));
                    } else {
                        assert(n % 64 != 0 && k as int == nblocks(n) - 1);
                        lemma_trailing_zero_bit(a, (n % 64) as u64, t);
                        lemma_trailing_zero_bit(b, (n % 64) as u64, t);
                    }
                }
                if k == nb - 1 && self.len % 64 != 0 {
                    let r = (self.len % 64) as u64;
                    assert(m >> r == 0u64) by (bit_vector)
                        requires
                            r < 64,
                            m == (c & a) | (!c & b),
                            a >> r == 0u64,
                            b >> r == 0u64,
                    ;
                }
            }
            k = k + 1;
        }
        proof {
            assert forall|i: int| 0 <= i < n implies self@[i] == (if cond@[i] {
                old(self)@[i]
            } else {
                other@[i]
            }) by {
                lemma_index_geometry(i, n);
            }
        }
    }

    /// True iff every bit equals the corresponding bit of `other`.
    pub fn eq_bits(&self, other: &BitVec) -> (r: bool)
        requires
            self.wf(),
            other.wf(),
        ensures
            r <==> self@ == other@,
    {
        if self.len != other.len {
            proof {
                assert(self@.len() != other@.len());
            }
            return false;
        }
        let mut i: usize = 0;
        while i < self.len
            invariant
                self.wf(),
                other.wf(),
                self.len == other.len,
                i <= self.len,
                self.len == self@.len(),
                forall|j: int| 0 <= j < i ==> self@[j] == other@[j],
            decreases self.len - i,
        {
            if self.get(i) != other.get(i) {
                return false;
            }
            i = i + 1;
        }
        proof {
            assert(self@ =~= other@);
        }
        true
    }

    /// Number of set bits.
    pub fn count(&self) -> (r: usize)
        requires
            self.wf(),
        ensures
            r == count_trues(self@),
    {
        let n = self.len;
        let mut c: usize = 0;
        let mut i: usize = 0;
        while i < n
            invariant
                self.wf(),
                n == self@.len(),
                i <= n,
                c == count_upto(self@, i as int),
                c <= i,
            decreases n - i,
        {
            if self.get(i) {
                c = c + 1;
            }
            i = i + 1;
        }
        c
    }

    /// A copy of the array.
    pub fn duplicate(&self) -> (r: BitVec)
        requires
            self.wf(),
        ensures
            r.wf(),
            r@ == self@,
    {
        let blocks = self.blocks.clone();
        proof {
            assert forall|j: int| 0 <= j < blocks@.len() implies blocks@[j] == self.blocks@[j] by {
                assert(cloned::<u64>(self.blocks@[j], blocks@[j]));
            }
            assert(blocks@ =~= self.blocks@);
        }
        let r = BitVec { blocks, len: self.len };
        proof {
            assert(r@ =~= self@);
        }
        r
    }

    /// A bit array of `n` copies of `v`.
    pub fn from_elem(n: usize, v: bool) -> (r: BitVec)
        ensures
            r.wf(),
            r@.len() == n,
            forall|i: int| 0 <= i < n ==> r@[i] == v,
    {
        let mut r = BitVec::new();
        let mut i: usize = 0;
        while i < n
            invariant
                r.wf(),
                i <= n,
                r@.len() == i,
                forall|j: int| 0 <= j < i ==> r@[j] == v,
            decreases n - i,
        {
            r.push(v);
            i = i + 1;
        }
        r
    }
}

/// True iff some offset has all three bits set. Works a block at a time and
/// stops at the first block that decides the answer.
pub fn masked_any(a: &BitVec, b: &BitVec, c: &BitVec) -> (r: bool)
    requires
        a.wf(),
        b.wf(),
        c.wf(),
        b@.len() == a@.len(),
        c@.len() == a@.len(),
    ensures
        r <==> exists|i: int| 0 <= i < a@.len() && a@[i] && b@[i] && c@[i],
{
    let ghost n = a@.len() as int;
    let nb = a.num_blocks();
    let mut k: usize = 0;
    while k < nb
        invariant
            a.wf(),
            b.wf(),
            c.wf(),
            n == a@.len(),
            b@.len() == n,
            c@.len() == n,
            nb == nblocks(n),
            k <= nb,
            forall|i: int| 0 <= i < n && i < (k as int) * 64 ==> !(a@[i] && b@[i] && c@[i]),
        decreases nb - k,
    {
        let ba = a.block(k);
        let bb = b.block(k);
        let bc = c.block(k);
        let m = (ba & bb) & bc;
        if m != 0u64 {
            proof {
                lemma_nonzero_has_bit(m);
                let t = choose|t: u64| t < 64 && #[trigger] bit64(m, t);
                lemma_bit_ops(ba, bb, t);
                lemma_bit_ops(ba & bb, bc, t);
                let i = (k as int) * 64 + t;
                assert(0 <= i < n && a@[i] && b@[i] && c@[i]);
            }
            return true;
        }
        proof {
            assert forall|i: int|
                0 <= i < n && (k as int) * 64 <= i < (k as int + 1) * 64 implies !(a@[i] && b@[i]
                && c@[i]) by {
                let t = (i - (k as int) * 64) as u64;
                lemma_const_block(m, t);
                lemma_bit_ops(ba, bb, t);
                lemma_bit_ops(ba & bb, bc, t);
            }
        }
        k = k + 1;
    }
    proof {
        assert forall|i: int| 0 <= i < n implies !(a@[i] && b@[i] && c@[i]) by {
            lemma_index_geometry(i, n);
            assert(i < nblocks(n) * 64) by (nonlinear_arith)
                requires 0 <= i < n, i / 64 < nblocks(n), i / 64 * 64 + i % 64 == i, i % 64 < 64;
        }
    }
    false
}

/// True iff every offset whose two mask bits are both set also has its data
/// bit set. Works a block at a time and stops at the first failing block.
pub fn masked_all(d: &BitVec, e: &BitVec, x: &BitVec) -> (r: bool)
    requires
        d.wf(),
        e.wf(),
        x.wf(),
        e@.len() == d@.len(),
        x@.len() == d@.len(),
    ensures
        r <==> forall|i: int| 0 <= i < d@.len() && e@[i] && x@[i] ==> d@[i],
{
    let ghost n = d@.len() as int;
    let nb = d.num_blocks();
    let mut k: usize = 0;
    while k < nb
        invariant
            d.wf(),
            e.wf(),
            x.wf(),
            n == d@.len(),
            e@.len() == n,
            x@.len() == n,
            nb == nblocks(n),
            k <= nb,
            forall|i: int|
                0 <= i < n && i < (k as int) * 64 && e@[i] && x@[i] ==> d@[i],
        decreases nb - k,
    {
        let bd = d.block(k);
        let be = e.block(k);
        let bx = x.block(k);
        let m = bd | !(be & bx);
        if m != !0u64 {
            proof {
                lemma_not_bit(m, 0u64);
                lemma_nonzero_has_bit(!m);
                let t = choose|t: u64| t < 64 && #[trigger] bit64(!m, t);
                lemma_not_bit(m, t);
                lemma_bit_ops(be, bx, t);
                lemma_bit_ops(bd, be & bx, t);
                let i = (k as int) * 64 + t;
                assert(0 <= i < n && e@[i] && x@[i] && !d@[i]);
            }
            return false;
        }
        proof {
            assert forall|i: int|
                0 <= i < n && (k as int) * 64 <= i < (k as int + 1) * 64 && e@[i] && x@[i] implies
                d@[i] by {
                let t = (i - (k as int) * 64) as u64;
                lemma_const_block(m, t);
                lemma_bit_ops(be, bx, t);
                lemma_bit_ops(bd, be & bx, t);
            }
        }
        k = k + 1;
    }
    proof {
        assert forall|i: int| 0 <= i < n && e@[i] && x@[i] implies d@[i] by {
            lemma_index_geometry(i, n);
            assert(i < nblocks(n) * 64) by (nonlinear_arith)
                requires 0 <= i < n, i / 64 < nblocks(n), i / 64 * 64 + i % 64 == i, i % 64 < 64;
        }
    }
    true
}

} // verus!
