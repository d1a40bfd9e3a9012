//! The engine's cross-cutting laws, stated once over the spec functions the
//! operators' contracts use, and proved here.

use vstd::prelude::*;

use crate::index::{Index, index_equiv};
use crate::ops::{NumOp, num_bin_valid, num_bin_values, num_op_ok, num_op_val, wsum};
use crate::select::filter_exists;
use crate::series::{Series, al_valid, al_values, u_exists, u_labels};
use crate::storage::{BitVecStorage, VecStorage};

verus! {

/// Aligning two columns that already share an index changes nothing: the
/// union frame is that index, and each side keeps its validity and values.
pub proof fn lemma_align_identity<T>(
    x: Index,
    xv: Seq<bool>,
    xvals: Seq<T>,
    a: Index,
    b: Index,
    default: T,
)
    requires
        index_equiv(&a, &b),
    ensures
        u_labels(a, b) == a.labels(),
        u_exists(a, b) == a.exists_seq(),
        al_valid(x, xv, a, b) == xv,
        al_values(x, xv, xvals, a, b, default) == xvals,
{
}

/// On two columns that already share an index, an element-wise binary
/// operation is valid at a slot exactly when both operands are valid, the
/// row is present, and the operation yields a value there; at such a slot
/// it holds the operation of the two operands.
pub proof fn lemma_bin_op_aligned(op: NumOp, a: &Series<VecStorage>, b: &Series<VecStorage>)
    requires
        a.wf(),
        b.wf(),
        index_equiv(&a.idx(), &b.idx()),
    ensures
        num_bin_valid(op, a, b).len() == a.idx().labels().len(),
        forall|i: int|
            0 <= i < a.idx().labels().len() ==> num_bin_valid(op, a, b)[i] == (a.dat().valid()[i]
                && b.dat().valid()[i] && a.idx().exists_seq()[i] && num_op_ok(
                op,
                a.dat().values()[i],
                b.dat().values()[i],
            )),
        forall|i: int|
            0 <= i < a.idx().labels().len() && num_bin_valid(op, a, b)[i] ==> num_bin_values(
                op,
                a,
                b,
            )[i] == num_op_val(op, a.dat().values()[i], b.dat().values()[i]),
{
}

/// Narrowing an all-present index by an all-true, all-valid condition over
/// the same index leaves the "present" bits as they were: filtering by a
/// tautology is the identity.
pub proof fn lemma_filter_identity(idx: Index, c: &Series<BitVecStorage>)
    requires
        idx.wf(),
        c.wf(),
        index_equiv(&c.idx(), &idx),
        forall|i: int| 0 <= i < c.dat().valid().len() ==> c.dat().valid()[i],
        forall|i: int| 0 <= i < c.dat().values().len() ==> c.dat().values()[i],
        forall|i: int| 0 <= i < idx.exists_seq().len() ==> idx.exists_seq()[i],
    ensures
        filter_exists(idx, c) == idx.exists_seq(),
{
    assert(filter_exists(idx, c) =~= idx.exists_seq());
}

/// The mathematical sum of the valid, present values among the first `n`.
pub open spec fn isum(e: Seq<bool>, v: Seq<bool>, vals: Seq<i64>, n: int) -> int
    decreases n,
{
    if n <= 0 {
        0
    } else {
        isum(e, v, vals, n - 1) + if e[n - 1] && v[n - 1] {
            vals[n - 1] as int
        } else {
            0
        }
    }
}

/// Where no partial sum leaves the 64-bit range, the wrapping sum the
/// reduction computes is the mathematical sum of the valid, present values.
pub proof fn lemma_sum_exact(e: Seq<bool>, v: Seq<bool>, vals: Seq<i64>, n: int)
    requires
        forall|m: int| 0 <= m <= n ==> i64::MIN <= #[trigger] isum(e, v, vals, m) <= i64::MAX,
    ensures
        wsum(e, v, vals, n) == isum(e, v, vals, n),
    decreases n,
{
    if n > 0 {
        assert forall|m: int| 0 <= m <= n - 1 implies i64::MIN <= #[trigger] isum(e, v, vals, m)
            <= i64::MAX by {}
        lemma_sum_exact(e, v, vals, n - 1);
    }
}

} // verus!
