//! Element-wise kernels over integer columns: arithmetic, comparisons, and
//! the reduction to a sum. A slot of the result is valid iff both operand
//! slots are valid, the row is present, and the operation yields a value
//! there; invalid slots hold the element default.

use vstd::prelude::*;

use crate::bits::BitVec;
use crate::index::Index;
use crate::series::{Series, al_valid, al_values, u_exists, u_labels};
use crate::storage::{BitVecStorage, VecStorage};

verus! {

/// An element-wise binary operation on integer columns.
#[derive(Clone, Copy)]
pub enum NumOp {
    Add,
    Sub,
    Mul,
    Div,
    Rem,
    BitAnd,
    BitOr,
    Shl,
    Shr,
}

/// Whether the operation yields a value on this pair: division and remainder
/// need a divisor that divides without trapping, shifts an amount inside the
/// word.
pub open spec fn num_op_ok(op: NumOp, a: i64, b: i64) -> bool {
    match op {
        NumOp::Div => a.checked_div(b) is Some,
        NumOp::Rem => a.checked_rem(b) is Some,
        NumOp::Shl => 0 <= b < 64,
        NumOp::Shr => 0 <= b < 64,
        _ => true,
    }
}

/// The operation's value on a pair it is defined on; arithmetic wraps.
pub open spec fn num_op_val(op: NumOp, a: i64, b: i64) -> i64 {
    match op {
        NumOp::Add => a.wrapping_add(b),
        NumOp::Sub => a.wrapping_sub(b),
        NumOp::Mul => a.wrapping_mul(b),
        NumOp::Div => match a.checked_div(b) {
            Some(v) => v,
            None => 0i64,
        },
        NumOp::Rem => match a.checked_rem(b) {
            Some(v) => v,
            None => 0i64,
        },
        NumOp::BitAnd => a & b,
        NumOp::BitOr => a | b,
        NumOp::Shl => if 0 <= b < 64 {
            a << b
        } else {
            0i64
        },
        NumOp::Shr => if 0 <= b < 64 {
            a >> b
        } else {
            0i64
        },
    }
}

/// An element-wise unary operation.
#[derive(Clone, Copy)]
pub enum UnOp {
    Neg,
    Abs,
    Signum,
}

/// The unary operation's value; negation wraps, so the absolute value of the
/// smallest integer is itself.
pub open spec fn un_op_val(op: UnOp, x: i64) -> i64 {
    match op {
        UnOp::Neg => (0i64).wrapping_sub(x),
        UnOp::Abs => if x < 0 {
            (0i64).wrapping_sub(x)
        } else {
            x
        },
        UnOp::Signum => if x > 0 {
            1i64
        } else if x < 0 {
            -1i64
        } else {
            0i64
        },
    }
}

/// An element-wise comparison.
#[derive(Clone, Copy)]
pub enum CmpOp {
    Eq,
    Ne,
    Lt,
    Lte,
    Gt,
    Gte,
}

pub open spec fn cmp_op_val(op: CmpOp, a: i64, b: i64) -> bool {
    match op {
        CmpOp::Eq => a == b,
        CmpOp::Ne => a != b,
        CmpOp::Lt => a < b,
        CmpOp::Lte => a <= b,
        CmpOp::Gt => a > b,
        CmpOp::Gte => a >= b,
    }
}

/// One slot of a numeric kernel: the value, and whether it is valid.
fn num_op_exec(op: NumOp, a: i64, b: i64) -> (r: (i64, bool))
    ensures
        r.1 == num_op_ok(op, a, b),
        r.0 == (if num_op_ok(op, a, b) {
            num_op_val(op, a, b)
        } else {
            0i64
        }),
{
    match op {
        NumOp::Add => (a.wrapping_add(b), true),
        NumOp::Sub => (a.wrapping_sub(b), true),
        NumOp::Mul => (a.wrapping_mul(b), true),
        NumOp::Div => match a.checked_div(b) {
            Some(v) => (v, true),
            None => (0i64, false),
        },
        NumOp::Rem => match a.checked_rem(b) {
            Some(v) => (v, true),
            None => (0i64, false),
        },
        NumOp::BitAnd => (a & b, true),
        NumOp::BitOr => (a | b, true),
        NumOp::Shl => if 0 <= b && b < 64 {
            let k = a.wrapping_shl(b as u32);
            proof {
                assert(b as u32 % 64 == b) by (bit_vector)
                    requires 0 <= b < 64;
            }
            (k, true)
        } else {
            (0i64, false)
        },
        NumOp::Shr => if 0 <= b && b < 64 {
            let k = a.wrapping_shr(b as u32);
            proof {
                assert(b as u32 % 64 == b) by (bit_vector)
                    requires 0 <= b < 64;
            }
            (k, true)
        } else {
            (0i64, false)
        },
    }
}

fn cmp_op_exec(op: CmpOp, a: i64, b: i64) -> (r: bool)
    ensures
        r == cmp_op_val(op, a, b),
{
    match op {
        CmpOp::Eq => a == b,
        CmpOp::Ne => a != b,
        CmpOp::Lt => a < b,
        CmpOp::Lte => a <= b,
        CmpOp::Gt => a > b,
        CmpOp::Gte => a >= b,
    }
}

/// The element-wise kernel over two equal-length storages: validity is the
/// conjunction of both validities, row presence, and the operation yielding a
/// value; invalid slots hold zero.
fn zip_num_kernel(op: NumOp, a: &VecStorage, b: &VecStorage, ie: &BitVec) -> (r: VecStorage)
    requires
        a.wf(),
        b.wf(),
        ie.wf(),
        b.len_spec() == a.len_spec(),
        ie@.len() == a.len_spec(),
    ensures
        r.wf(),
        r.len_spec() == a.len_spec(),
        forall|i: int|
            0 <= i < a.len_spec() ==> r.valid()[i] == (a.valid()[i] && b.valid()[i] && ie@[i]
                && num_op_ok(op, a.values()[i], b.values()[i])),
        forall|i: int|
            0 <= i < a.len_spec() ==> r.values()[i] == (if a.valid()[i] && b.valid()[i] && ie@[i]
                && num_op_ok(op, a.values()[i], b.values()[i]) {
                num_op_val(op, a.values()[i], b.values()[i])
            } else {
                0i64
            }),
{
    let (av, am) = a.as_vec_mask();
    let (bv, bm) = b.as_vec_mask();
    let n = av.len();
    let mut vals: Vec<i64> = Vec::new();
    let mut ok = BitVec::new();
    let mut i: usize = 0;
    while i < n
        invariant
            a.wf(),
            b.wf(),
            ie.wf(),
            av@ == a.values(),
            *am == a.exists_bv(),
            bv@ == b.values(),
            *bm == b.exists_bv(),
            n == a.len_spec(),
            b.len_spec() == n,
            ie@.len() == n,
            i <= n,
            ok.wf(),
            vals@.len() == i,
            ok@.len() == i,
            forall|j: int|
                0 <= j < i ==> ok@[j] == (a.valid()[j] && b.valid()[j] && ie@[j] && num_op_ok(
                    op,
                    a.values()[j],
                    b.values()[j],
                )),
            forall|j: int|
                0 <= j < i ==> vals@[j] == (if a.valid()[j] && b.valid()[j] && ie@[j] && num_op_ok(
                    op,
                    a.values()[j],
                    b.values()[j],
                ) {
                    num_op_val(op, a.values()[j], b.values()[j])
                } else {
                    0i64
                }),
        decreases n - i,
    {
        let m = am.get(i) && bm.get(i) && ie.get(i);
        if m {
            let (v, o) = num_op_exec(op, av[i], bv[i]);
            vals.push(v);
            ok.push(o);
        } else {
            vals.push(0i64);
            ok.push(false);
        }
        i = i + 1;
    }
    VecStorage::new(vals, ok)
}

/// As [`zip_num_kernel`], with the scalar broadcast on the right.
fn scalar_num_kernel(op: NumOp, a: &VecStorage, k: i64, ie: &BitVec) -> (r: VecStorage)
    requires
        a.wf(),
        ie.wf(),
        ie@.len() == a.len_spec(),
    ensures
        r.wf(),
        r.len_spec() == a.len_spec(),
        forall|i: int|
            0 <= i < a.len_spec() ==> r.valid()[i] == (a.valid()[i] && ie@[i] && num_op_ok(
                op,
                a.values()[i],
                k,
            )),
        forall|i: int|
            0 <= i < a.len_spec() ==> r.values()[i] == (if a.valid()[i] && ie@[i] && num_op_ok(
                op,
                a.values()[i],
                k,
            ) {
                num_op_val(op, a.values()[i], k)
            } else {
                0i64
            }),
{
    let (av, am) = a.as_vec_mask();
    let n = av.len();
    let mut vals: Vec<i64> = Vec::new();
    let mut ok = BitVec::new();
    let mut i: usize = 0;
    while i < n
        invariant
            a.wf(),
            ie.wf(),
            av@ == a.values(),
            *am == a.exists_bv(),
            n == a.len_spec(),
            ie@.len() == n,
            i <= n,
            ok.wf(),
            vals@.len() == i,
            ok@.len() == i,
            forall|j: int|
                0 <= j < i ==> ok@[j] == (a.valid()[j] && ie@[j] && num_op_ok(
                    op,
                    a.values()[j],
                    k,
                )),
            forall|j: int|
                0 <= j < i ==> vals@[j] == (if a.valid()[j] && ie@[j] && num_op_ok(
                    op,
                    a.values()[j],
                    k,
                ) {
                    num_op_val(op, a.values()[j], k)
                } else {
                    0i64
                }),
        decreases n - i,
    {
        let m = am.get(i) && ie.get(i);
        if m {
            let (v, o) = num_op_exec(op, av[i], k);
            vals.push(v);
            ok.push(o);
        } else {
            vals.push(0i64);
            ok.push(false);
        }
        i = i + 1;
    }
    VecStorage::new(vals, ok)
}

/// The comparison kernel: a boolean storage, valid where both slots are
/// valid and the row is present; invalid slots hold `false`.
fn zip_cmp_kernel(op: CmpOp, a: &VecStorage, b: &VecStorage, ie: &BitVec) -> (r: BitVecStorage)
    requires
        a.wf(),
        b.wf(),
        ie.wf(),
        b.len_spec() == a.len_spec(),
        ie@.len() == a.len_spec(),
    ensures
        r.wf(),
        r.len_spec() == a.len_spec(),
        forall|i: int|
            0 <= i < a.len_spec() ==> r.valid()[i] == (a.valid()[i] && b.valid()[i] && ie@[i]),
        forall|i: int|
            0 <= i < a.len_spec() ==> r.values()[i] == (a.valid()[i] && b.valid()[i] && ie@[i]
                && cmp_op_val(op, a.values()[i], b.values()[i])),
{
    let (av, am) = a.as_vec_mask();
    let (bv, bm) = b.as_vec_mask();
    let n = av.len();
    let mut vals = BitVec::new();
    let mut ok = BitVec::new();
    let mut i: usize = 0;
    while i < n
        invariant
            a.wf(),
            b.wf(),
            ie.wf(),
            av@ == a.values(),
            *am == a.exists_bv(),
            bv@ == b.values(),
            *bm == b.exists_bv(),
            n == a.len_spec(),
            b.len_spec() == n,
            ie@.len() == n,
            i <= n,
            ok.wf(),
            vals.wf(),
            vals@.len() == i,
            ok@.len() == i,
            forall|j: int|
                0 <= j < i ==> ok@[j] == (a.valid()[j] && b.valid()[j] && ie@[j]),
            forall|j: int|
                0 <= j < i ==> vals@[j] == (a.valid()[j] && b.valid()[j] && ie@[j] && cmp_op_val(
                    op,
                    a.values()[j],
                    b.values()[j],
                )),
        decreases n - i,
    {
        let m = am.get(i) && bm.get(i) && ie.get(i);
        if m {
            vals.push(cmp_op_exec(op, av[i], bv[i]));
            ok.push(true);
        } else {
            vals.push(false);
            ok.push(false);
        }
        i = i + 1;
    }
    BitVecStorage::new(vals, ok)
}

/// As [`zip_cmp_kernel`], with the scalar broadcast on the right.
fn scalar_cmp_kernel(op: CmpOp, a: &VecStorage, k: i64, ie: &BitVec) -> (r: BitVecStorage)
    requires
        a.wf(),
        ie.wf(),
        ie@.len() == a.len_spec(),
    ensures
        r.wf(),
        r.len_spec() == a.len_spec(),
        forall|i: int| 0 <= i < a.len_spec() ==> r.valid()[i] == (a.valid()[i] && ie@[i]),
        forall|i: int|
            0 <= i < a.len_spec() ==> r.values()[i] == (a.valid()[i] && ie@[i] && cmp_op_val(
                op,
                a.values()[i],
                k,
            )),
{
    let (av, am) = a.as_vec_mask();
    let n = av.len();
    let mut vals = BitVec::new();
    let mut ok = BitVec::new();
    let mut i: usize = 0;
    while i < n
        invariant
            a.wf(),
            ie.wf(),
            av@ == a.values(),
            *am == a.exists_bv(),
            n == a.len_spec(),
            ie@.len() == n,
            i <= n,
            ok.wf(),
            vals.wf(),
            vals@.len() == i,
            ok@.len() == i,
            forall|j: int| 0 <= j < i ==> ok@[j] == (a.valid()[j] && ie@[j]),
            forall|j: int|
                0 <= j < i ==> vals@[j] == (a.valid()[j] && ie@[j] && cmp_op_val(
                    op,
                    a.values()[j],
                    k,
                )),
        decreases n - i,
    {
        let m = am.get(i) && ie.get(i);
        if m {
            vals.push(cmp_op_exec(op, av[i], k));
            ok.push(true);
        } else {
            vals.push(false);
            ok.push(false);
        }
        i = i + 1;
    }
    BitVecStorage::new(vals, ok)
}

/// Validity both columns contribute after alignment: both slots valid and
/// the row present.
pub open spec fn both_valid(a: &Series<VecStorage>, b: &Series<VecStorage>) -> Seq<bool> {
    let av = al_valid(a.idx(), a.dat().valid(), a.idx(), b.idx());
    let bv = al_valid(b.idx(), b.dat().valid(), a.idx(), b.idx());
    let ue = u_exists(a.idx(), b.idx());
    Seq::new(u_labels(a.idx(), b.idx()).len(), |i: int| av[i] && bv[i] && ue[i])
}

/// Validity of the element-wise binary operation of two columns: both slots
/// valid in the aligned frame, the row present, and the operation defined.
pub open spec fn num_bin_valid(op: NumOp, a: &Series<VecStorage>, b: &Series<VecStorage>) -> Seq<
    bool,
> {
    let av = al_valid(a.idx(), a.dat().valid(), a.idx(), b.idx());
    let bv = al_valid(b.idx(), b.dat().valid(), a.idx(), b.idx());
    let ax = al_values(a.idx(), a.dat().valid(), a.dat().values(), a.idx(), b.idx(), 0i64);
    let bx = al_values(b.idx(), b.dat().valid(), b.dat().values(), a.idx(), b.idx(), 0i64);
    let ue = u_exists(a.idx(), b.idx());
    Seq::new(
        u_labels(a.idx(), b.idx()).len(),
        |i: int| av[i] && bv[i] && ue[i] && num_op_ok(op, ax[i], bx[i]),
    )
}

/// Values of the element-wise binary operation of two columns.
pub open spec fn num_bin_values(op: NumOp, a: &Series<VecStorage>, b: &Series<VecStorage>) -> Seq<
    i64,
> {
    let av = al_valid(a.idx(), a.dat().valid(), a.idx(), b.idx());
    let bv = al_valid(b.idx(), b.dat().valid(), a.idx(), b.idx());
    let ax = al_values(a.idx(), a.dat().valid(), a.dat().values(), a.idx(), b.idx(), 0i64);
    let bx = al_values(b.idx(), b.dat().valid(), b.dat().values(), a.idx(), b.idx(), 0i64);
    let ue = u_exists(a.idx(), b.idx());
    Seq::new(
        u_labels(a.idx(), b.idx()).len(),
        |i: int|
            if av[i] && bv[i] && ue[i] && num_op_ok(op, ax[i], bx[i]) {
                num_op_val(op, ax[i], bx[i])
            } else {
                0i64
            },
    )
}

/// The running wrapping sum of the valid, present values among the first `n`.
pub open spec fn wsum(e: Seq<bool>, v: Seq<bool>, vals: Seq<i64>, n: int) -> i64
    decreases n,
{
    if n <= 0 {
        0i64
    } else {
        let rest = wsum(e, v, vals, n - 1);
        if e[n - 1] && v[n - 1] {
            rest.wrapping_add(vals[n - 1])
        } else {
            rest
        }
    }
}

impl Series<VecStorage> {
    /// The element-wise binary operation with another column, aligned first.
    pub fn bin_op(self, op: NumOp, rhs: Series<VecStorage>) -> (r: Series<VecStorage>)
        requires
            self.wf(),
            rhs.wf(),
            self.idx().labels().len() + rhs.idx().labels().len() <= usize::MAX,
        ensures
            r.wf(),
            r.idx().labels() == u_labels(self.idx(), rhs.idx()),
            r.idx().exists_seq() == u_exists(self.idx(), rhs.idx()),
            r.dat().valid() == num_bin_valid(op, &self, &rhs),
            r.dat().values() == num_bin_values(op, &self, &rhs),
    {
        let ghost gs = self;
        let ghost gr = rhs;
        let (u, da, db) = self.into_aligned(rhs);
        let (_labels, ie) = u.as_vec_mask();
        let d = zip_num_kernel(op, &da, &db, ie);
        proof {
            assert(d.valid() =~= num_bin_valid(op, &gs, &gr));
            assert(d.values() =~= num_bin_values(op, &gs, &gr));
        }
        let r = Series::<VecStorage>::new(u, d);
        r
    }

    /// The element-wise operation with a scalar broadcast on the right.
    pub fn scalar_op(self, op: NumOp, k: i64) -> (r: Series<VecStorage>)
        requires
            self.wf(),
        ensures
            r.wf(),
            r.idx().labels() == self.idx().labels(),
            r.idx().exists_seq() == self.idx().exists_seq(),
            r.dat().valid().len() == self.idx().labels().len(),
            forall|i: int|
                0 <= i < self.idx().labels().len() ==> r.dat().valid()[i] == (self.dat().valid()[i]
                    && self.idx().exists_seq()[i] && num_op_ok(op, self.dat().values()[i], k)),
            forall|i: int|
                0 <= i < self.idx().labels().len() ==> r.dat().values()[i] == (if self.dat().valid()[i]
                    && self.idx().exists_seq()[i] && num_op_ok(op, self.dat().values()[i], k) {
                    num_op_val(op, self.dat().values()[i], k)
                } else {
                    0i64
                }),
    {
        let (index, data) = self.into_inner();
        let d = {
            let (_labels, ie) = index.as_vec_mask();
            scalar_num_kernel(op, &data, k, ie)
        };
        Series::<VecStorage>::new(index, d)
    }

    /// The element-wise comparison with another column, aligned first; the
    /// result is a boolean column.
    pub fn cmp_op(self, op: CmpOp, rhs: Series<VecStorage>) -> (r: Series<BitVecStorage>)
        requires
            self.wf(),
            rhs.wf(),
            self.idx().labels().len() + rhs.idx().labels().len() <= usize::MAX,
        ensures
            r.wf(),
            r.idx().labels() == u_labels(self.idx(), rhs.idx()),
            r.idx().exists_seq() == u_exists(self.idx(), rhs.idx()),
            r.dat().valid().len() == u_labels(self.idx(), rhs.idx()).len(),
            forall|i: int|
                0 <= i < u_labels(self.idx(), rhs.idx()).len() ==> r.dat().valid()[i] == (
                both_valid(&self, &rhs)[i]),
            forall|i: int|
                0 <= i < u_labels(self.idx(), rhs.idx()).len() ==> r.dat().values()[i] == (
                both_valid(&self, &rhs)[i] && cmp_op_val(
                    op,
                    al_values(
                        self.idx(),
                        self.dat().valid(),
                        self.dat().values(),
                        self.idx(),
                        rhs.idx(),
                        0i64,
                    )[i],
                    al_values(
                        rhs.idx(),
                        rhs.dat().valid(),
                        rhs.dat().values(),
                        self.idx(),
                        rhs.idx(),
                        0i64,
                    )[i],
                )),
    {
        let (u, da, db) = self.into_aligned(rhs);
        let (_labels, ie) = u.as_vec_mask();
        let d = zip_cmp_kernel(op, &da, &db, ie);
        let r = Series::<BitVecStorage>::new(u, d);
        r
    }

    /// The comparison with a scalar broadcast on the right.
    pub fn cmp_scalar(self, op: CmpOp, k: i64) -> (r: Series<BitVecStorage>)
        requires
            self.wf(),
        ensures
            r.wf(),
            r.idx().labels() == self.idx().labels(),
            r.idx().exists_seq() == self.idx().exists_seq(),
            r.dat().valid().len() == self.idx().labels().len(),
            forall|i: int|
                0 <= i < self.idx().labels().len() ==> r.dat().valid()[i] == (self.dat().valid()[i]
                    && self.idx().exists_seq()[i]),
            forall|i: int|
                0 <= i < self.idx().labels().len() ==> r.dat().values()[i] == (self.dat().valid()[i]
                    && self.idx().exists_seq()[i] && cmp_op_val(op, self.dat().values()[i], k)),
    {
        let (index, data) = self.into_inner();
        let d = {
            let (_labels, ie) = index.as_vec_mask();
            scalar_cmp_kernel(op, &data, k, ie)
        };
        Series::<BitVecStorage>::new(index, d)
    }

    /// The element-wise unary operation, applied at the present, valid
    /// slots; validity and every other slot are unchanged.
    pub fn un_op(self, op: UnOp) -> (r: Series<VecStorage>)
        requires
            self.wf(),
        ensures
            r.wf(),
            r.idx().labels() == self.idx().labels(),
            r.idx().exists_seq() == self.idx().exists_seq(),
            r.dat().valid() == self.dat().valid(),
            r.dat().values().len() == self.dat().values().len(),
            forall|i: int|
                0 <= i < self.dat().values().len() ==> r.dat().values()[i] == (if self.dat().valid()[i]
                    && self.idx().exists_seq()[i] {
                    un_op_val(op, self.dat().values()[i])
                } else {
                    self.dat().values()[i]
                }),
    {
        let (index, data) = self.into_parts();
        let (vals, ex) = data.into_parts();
        let ghost gvals = vals@;
        let n = vals.len();
        let mut vals = vals;
        let mut i: usize = 0;
        let d = {
            let (_labels, ie) = index.as_vec_mask();
            while i < n
                invariant
                    ex.wf(),
                    ie.wf(),
                    n == gvals.len(),
                    ex@.len() == n,
                    ie@.len() == n,
                    i <= n,
                    vals@.len() == n,
                    forall|j: int|
                        0 <= j < i ==> vals@[j] == (if ex@[j] && ie@[j] {
                            un_op_val(op, gvals[j])
                        } else {
                            gvals[j]
                        }),
                    forall|j: int| i <= j < n ==> vals@[j] == gvals[j],
                decreases n - i,
            {
                if ex.get(i) && ie.get(i) {
                    let x = vals[i];
                    let v = match op {
                        UnOp::Neg => (0i64).wrapping_sub(x),
                        UnOp::Abs => if x < 0 {
                            (0i64).wrapping_sub(x)
                        } else {
                            x
                        },
                        UnOp::Signum => if x > 0 {
                            1i64
                        } else if x < 0 {
                            -1i64
                        } else {
                            0i64
                        },
                    };
                    vals.set(i, v);
                }
                i = i + 1;
            }
            VecStorage::new(vals, ex)
        };
        Series::<VecStorage>::new(index, d)
    }

    /// The wrapping sum of the valid, present values; zero on an empty or
    /// all-invalid column.
    pub fn sum(&self) -> (r: i64)
        requires
            self.wf(),
        ensures
            r == wsum(
                self.idx().exists_seq(),
                self.dat().valid(),
                self.dat().values(),
                self.idx().labels().len() as int,
            ),
    {
        let (index, data) = self.parts();
        let (av, am) = data.as_vec_mask();
        let (_labels, ie) = index.as_vec_mask();
        let n = av.len();
        let mut acc: i64 = 0;
        let mut i: usize = 0;
        while i < n
            invariant
                self.wf(),
                av@ == self.dat().values(),
                *am == self.dat().exists_bv(),
                *ie == self.idx().exists_bv(),
                n == self.idx().labels().len(),
                i <= n,
                acc == wsum(
                    self.idx().exists_seq(),
                    self.dat().valid(),
                    self.dat().values(),
                    i as int,
                ),
            decreases n - i,
        {
            if ie.get(i) && am.get(i) {
                acc = acc.wrapping_add(av[i]);
            }
            i = i + 1;
        }
        acc
    }
}

} // verus!
