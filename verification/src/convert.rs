//! Re-expressing a tensor's components under a coordinate change.
//!
//! The caller supplies the Jacobian of the conversion and its inverse, both
//! rank-2 tensors anchored at the converted point.  For every result
//! multi-index, the converted component sums, over every source multi-index,
//! the source component times one matrix entry per slot: the Jacobian's for
//! a contravariant slot, the inverse Jacobian's for a covariant slot.

use vstd::prelude::*;

verus! {

use vstd::arithmetic::power::{pow, lemma_pow0, lemma_pow1, lemma_pow_adds, lemma_pow_positive, lemma_pow_increases};
use vstd::arithmetic::mul::lemma_mul_is_associative;
use crate::TensorError;
use crate::indexing::{unflat, is_index, to_ints, lemma_unflat_is_index, unflat_index};
use crate::tensor::{Tensor, TensorView, abs_bounded};
use crate::variance::{IndexKind, copy_kinds};

/// The rank-2 component at row `i`, column `j`.
pub open spec fn at2(m: TensorView, i: int, j: int) -> int {
    m.comps[i * m.dim() + j]
}

/// The conversion weight of one slot: the Jacobian entry for a contravariant
/// slot, the inverse Jacobian's for a covariant one, at the (result, source)
/// slot-value pair.
pub open spec fn conv_weight(
    kind: IndexKind,
    jac: TensorView,
    inv: TensorView,
    i: int,
    j: int,
) -> int {
    match kind {
        IndexKind::Contravariant => at2(jac, i, j),
        IndexKind::Covariant => at2(inv, i, j),
    }
}

/// The product of the conversion weights of the first `k` slots, for the
/// result offset `c` and the source offset `j`.
pub open spec fn conv_pprod(
    t: TensorView,
    jac: TensorView,
    inv: TensorView,
    c: int,
    j: int,
    k: nat,
) -> int
    decreases k,
{
    if k == 0 {
        t.comps[j]
    } else {
        conv_pprod(t, jac, inv, c, j, (k - 1) as nat) * conv_weight(
            t.var[k - 1],
            jac,
            inv,
            unflat(c, t.dim(), t.rank() as nat)[k - 1],
            unflat(j, t.dim(), t.rank() as nat)[k - 1],
        )
    }
}

/// The converted component at the result offset `c`, summed over the first
/// `n` source offsets.
pub open spec fn conv_psum(
    t: TensorView,
    jac: TensorView,
    inv: TensorView,
    c: int,
    n: nat,
) -> int
    decreases n,
{
    if n == 0 {
        0
    } else {
        conv_psum(t, jac, inv, c, (n - 1) as nat) + conv_pprod(
            t,
            jac,
            inv,
            c,
            n - 1,
            t.rank() as nat,
        )
    }
}

/// The tensor re-expressed in the target system: anchored at the Jacobian's
/// point (the converted point), variance kept slot for slot, each component
/// the full conversion sum.
pub open spec fn convert_model(t: TensorView, jac: TensorView, inv: TensorView) -> TensorView {
    TensorView {
        point: jac.point,
        var: t.var,
        comps: Seq::new(t.comps.len(), |c: int| conv_psum(t, jac, inv, c, t.comps.len() as nat)),
    }
}

/// A conversion weight is one component of one of the two matrices, so
/// uniform bounds on them bound it.
proof fn lemma_conv_weight_bound(
    jac: TensorView,
    inv: TensorView,
    k: IndexKind,
    i: int,
    j: int,
    bj: int,
)
    requires
        jac.wf(),
        inv.wf(),
        jac.rank() == 2,
        inv.rank() == 2,
        inv.dim() == jac.dim(),
        0 <= i < jac.dim(),
        0 <= j < jac.dim(),
        abs_bounded(jac.comps, bj),
        abs_bounded(inv.comps, bj),
    ensures
        -bj <= conv_weight(k, jac, inv, i, j) <= bj,
{
    let d = jac.dim();
    crate::matrix::lemma_pow_two(d);
    assert(0 <= i * d + j < d * d) by (nonlinear_arith)
        requires
            0 <= i < d,
            0 <= j < d,
    ;
}

/// A conversion partial product of `k` weights on top of one source
/// component lies within `[-bt * bj^k, bt * bj^k]`.
proof fn lemma_conv_pprod_bound(
    t: TensorView,
    jac: TensorView,
    inv: TensorView,
    c: int,
    j: int,
    k: nat,
    bt: int,
    bj: int,
)
    requires
        t.wf(),
        jac.wf(),
        inv.wf(),
        conv_shapes_ok(t, jac, inv),
        0 <= c,
        0 <= j < t.comps.len(),
        k <= t.rank(),
        bt >= 0,
        bj >= 1,
        abs_bounded(t.comps, bt),
        abs_bounded(jac.comps, bj),
        abs_bounded(inv.comps, bj),
    ensures
        -(bt * pow(bj, k)) <= conv_pprod(t, jac, inv, c, j, k) <= bt * pow(bj, k),
    decreases k,
{
    let d = t.dim();
    let r = t.rank() as nat;
    if k == 0 {
        lemma_pow0(bj);
    } else {
        lemma_conv_pprod_bound(t, jac, inv, c, j, (k - 1) as nat, bt, bj);
        lemma_unflat_is_index(c, d, r);
        lemma_unflat_is_index(j, d, r);
        let wi = unflat(c, d, r)[k - 1];
        let wj = unflat(j, d, r)[k - 1];
        lemma_conv_weight_bound(jac, inv, t.var[k - 1], wi, wj, bj);
        let prev = conv_pprod(t, jac, inv, c, j, (k - 1) as nat);
        let w = conv_weight(t.var[k - 1], jac, inv, wi, wj);
        let bp = bt * pow(bj, (k - 1) as nat);
        lemma_pow_positive(bj, (k - 1) as nat);
        assert(-(bp * bj) <= prev * w <= bp * bj) by (nonlinear_arith)
            requires
                -bp <= prev <= bp,
                -bj <= w <= bj,
                bp >= 0,
                bj >= 1,
        ;
        assert(bp * bj == bt * pow(bj, k)) by {
            lemma_pow1(bj);
            lemma_pow_adds(bj, (k - 1) as nat, 1);
            lemma_mul_is_associative(bt, pow(bj, (k - 1) as nat), bj);
        }
    }
}

/// From uniform bounds on the tensor and the two matrices, every conversion
/// partial product and partial sum fits the scalar range: the forms
/// `Tensor::convert` asks its callers for.
pub proof fn lemma_convert_in_range(
    t: TensorView,
    jac: TensorView,
    inv: TensorView,
    bt: int,
    bj: int,
)
    requires
        t.wf(),
        jac.wf(),
        inv.wf(),
        conv_shapes_ok(t, jac, inv),
        bt >= 0,
        bj >= 1,
        abs_bounded(t.comps, bt),
        abs_bounded(jac.comps, bj),
        abs_bounded(inv.comps, bj),
        t.comps.len() * (bt * pow(bj, t.rank() as nat)) <= i64::MAX,
    ensures
        forall|c: int, j: int, k: int|
            0 <= c < t.comps.len() && 0 <= j < t.comps.len() && 0 <= k <= t.rank() ==> i64::MIN
                <= #[trigger] conv_pprod(t, jac, inv, c, j, k as nat) <= i64::MAX,
        forall|c: int, n: int|
            0 <= c < t.comps.len() && 0 <= n <= t.comps.len() ==> i64::MIN <= #[trigger] conv_psum(
                t,
                jac,
                inv,
                c,
                n as nat,
            ) <= i64::MAX,
{
    let r = t.rank() as nat;
    let bp = bt * pow(bj, r);
    let len = t.comps.len() as int;
    lemma_pow_positive(bj, r);
    assert(bp >= 0) by (nonlinear_arith)
        requires
            bp == bt * pow(bj, r),
            bt >= 0,
            pow(bj, r) >= 1,
    ;
    assert(len >= 1) by {
        lemma_pow_positive(t.dim(), r);
    }
    assert(bp <= len * bp) by (nonlinear_arith)
        requires
            len >= 1,
            bp >= 0,
    ;
    assert forall|c: int, j: int, k: int|
        0 <= c < t.comps.len() && 0 <= j < t.comps.len() && 0 <= k <= t.rank() implies i64::MIN
        <= #[trigger] conv_pprod(t, jac, inv, c, j, k as nat) <= i64::MAX by {
        lemma_conv_pprod_bound(t, jac, inv, c, j, k as nat, bt, bj);
        lemma_pow_positive(bj, k as nat);
        lemma_pow_increases(bj as nat, k as nat, r);
        let bk = bt * pow(bj, k as nat);
        assert(0 <= bk <= bp) by (nonlinear_arith)
            requires
                bk == bt * pow(bj, k as nat),
                bp == bt * pow(bj, r),
                bt >= 0,
                0 < pow(bj, k as nat) <= pow(bj, r),
        ;
    }
    assert forall|c: int, n: int| 0 <= c < t.comps.len() && 0 <= n <= t.comps.len() implies i64::MIN
        <= #[trigger] conv_psum(t, jac, inv, c, n as nat) <= i64::MAX by {
        lemma_conv_psum_bound(t, jac, inv, c, n as nat, bt, bj);
        vstd::arithmetic::mul::lemma_mul_inequality(n, len, bp);
    }
}

/// A conversion partial sum of `n` terms, each within `[-bt * bj^rank,
/// bt * bj^rank]`, lies within `n` times that bound.
proof fn lemma_conv_psum_bound(
    t: TensorView,
    jac: TensorView,
    inv: TensorView,
    c: int,
    n: nat,
    bt: int,
    bj: int,
)
    requires
        t.wf(),
        jac.wf(),
        inv.wf(),
        conv_shapes_ok(t, jac, inv),
        0 <= c,
        n <= t.comps.len(),
        bt >= 0,
        bj >= 1,
        abs_bounded(t.comps, bt),
        abs_bounded(jac.comps, bj),
        abs_bounded(inv.comps, bj),
    ensures
        -(n * (bt * pow(bj, t.rank() as nat))) <= conv_psum(t, jac, inv, c, n) <= n * (bt * pow(
            bj,
            t.rank() as nat,
        )),
    decreases n,
{
    let bp = bt * pow(bj, t.rank() as nat);
    if n == 0 {
        assert(0int * bp == 0) by (nonlinear_arith);
    } else {
        lemma_conv_psum_bound(t, jac, inv, c, (n - 1) as nat, bt, bj);
        lemma_conv_pprod_bound(t, jac, inv, c, n - 1, t.rank() as nat, bt, bj);
        assert(n * bp == (n - 1) * bp + bp) by (nonlinear_arith);
    }
}

/// The shapes a conversion needs: both matrices rank 2 over the tensor's
/// dimension.
pub open spec fn conv_shapes_ok(t: TensorView, jac: TensorView, inv: TensorView) -> bool {
    &&& jac.rank() == 2
    &&& inv.rank() == 2
    &&& jac.dim() == t.dim()
    &&& inv.dim() == t.dim()
}

impl Tensor {
    /// Re-expresses the tensor's components in another coordinate system,
    /// given the Jacobian of the conversion and its inverse, both anchored
    /// at the converted point.  The matrices must be rank 2 over the
    /// tensor's dimension (else `ShapeMismatch`) and anchored at one point
    /// (else `IncompatiblePoints`).
    pub fn convert(&self, jacobian: &Tensor, inv_jacobian: &Tensor) -> (r: Result<
        Tensor,
        TensorError,
    >)
        requires
            self.wf(),
            jacobian.wf(),
            inv_jacobian.wf(),
            conv_shapes_ok(self@, jacobian@, inv_jacobian@) ==> forall|c: int, j: int, k: int|
                0 <= c < self@.comps.len() && 0 <= j < self@.comps.len() && 0 <= k <= self@.rank()
                    ==> i64::MIN <= #[trigger] conv_pprod(
                    self@,
                    jacobian@,
                    inv_jacobian@,
                    c,
                    j,
                    k as nat,
                ) <= i64::MAX,
            conv_shapes_ok(self@, jacobian@, inv_jacobian@) ==> forall|c: int, n: int|
                0 <= c < self@.comps.len() && 0 <= n <= self@.comps.len() ==> i64::MIN
                    <= #[trigger] conv_psum(self@, jacobian@, inv_jacobian@, c, n as nat)
                    <= i64::MAX,
        ensures
            r is Ok <==> conv_shapes_ok(self@, jacobian@, inv_jacobian@) && jacobian@.point
                == inv_jacobian@.point,
            r matches Ok(t) ==> t.wf() && t@ == convert_model(self@, jacobian@, inv_jacobian@),
            (r == Err::<Tensor, TensorError>(TensorError::ShapeMismatch) <==> !conv_shapes_ok(
                self@,
                jacobian@,
                inv_jacobian@,
            )),
            (r == Err::<Tensor, TensorError>(TensorError::IncompatiblePoints) <==> conv_shapes_ok(
                self@,
                jacobian@,
                inv_jacobian@,
            ) && jacobian@.point != inv_jacobian@.point),
    {
        let d = self.point.dimension();
        if jacobian.var.len() != 2 || inv_jacobian.var.len() != 2 || jacobian.point.dimension()
            != d || inv_jacobian.point.dimension() != d {
            return Err(TensorError::ShapeMismatch);
        }
        if !(jacobian.point == inv_jacobian.point) {
            return Err(TensorError::IncompatiblePoints);
        }
        let ghost tv = self@;
        let ghost jv = jacobian@;
        let ghost iv = inv_jacobian@;
        let rank = self.var.len();
        let n = self.comps.len();
        proof {
            assert(n == tv.comps.len());
            crate::matrix::lemma_pow_two(d as int);
            assert(jv.comps.len() == d as int * d as int);
            assert(iv.comps.len() == d as int * d as int);
        }
        let mut comps: Vec<i64> = Vec::new();
        let mut c: usize = 0;
        while c < n
            invariant
                tv == self@,
                jv == jacobian@,
                iv == inv_jacobian@,
                self.wf(),
                jacobian.wf(),
                inv_jacobian.wf(),
                conv_shapes_ok(tv, jv, iv),
                forall|cc: int, j: int, k: int|
                    0 <= cc < tv.comps.len() && 0 <= j < tv.comps.len() && 0 <= k <= tv.rank()
                        ==> i64::MIN <= #[trigger] conv_pprod(tv, jv, iv, cc, j, k as nat)
                        <= i64::MAX,
                forall|cc: int, nn: int|
                    0 <= cc < tv.comps.len() && 0 <= nn <= tv.comps.len() ==> i64::MIN
                        <= #[trigger] conv_psum(tv, jv, iv, cc, nn as nat) <= i64::MAX,
                d as int == tv.dim(),
                rank as int == tv.rank(),
                n == tv.comps.len(),
                jv.comps.len() == d as int * d as int,
                iv.comps.len() == d as int * d as int,
                comps@.len() == c <= n,
                forall|t: int|
                    0 <= t < c ==> comps@[t] as int == #[trigger] convert_model(tv, jv, iv).comps[t],
            decreases n - c,
        {
            let mi = unflat_index(c, d, rank);
            let mut sum: i64 = 0;
            let mut j: usize = 0;
            while j < n
                invariant
                    tv == self@,
                    jv == jacobian@,
                    iv == inv_jacobian@,
                    self.wf(),
                    jacobian.wf(),
                    inv_jacobian.wf(),
                    conv_shapes_ok(tv, jv, iv),
                    forall|cc: int, jj: int, k: int|
                        0 <= cc < tv.comps.len() && 0 <= jj < tv.comps.len() && 0 <= k <= tv.rank()
                            ==> i64::MIN <= #[trigger] conv_pprod(tv, jv, iv, cc, jj, k as nat)
                            <= i64::MAX,
                    forall|cc: int, nn: int|
                        0 <= cc < tv.comps.len() && 0 <= nn <= tv.comps.len() ==> i64::MIN
                            <= #[trigger] conv_psum(tv, jv, iv, cc, nn as nat) <= i64::MAX,
                    d as int == tv.dim(),
                    rank as int == tv.rank(),
                    n == tv.comps.len(),
                    jv.comps.len() == d as int * d as int,
                    iv.comps.len() == d as int * d as int,
                    c < n,
                    to_ints(mi@) == unflat(c as int, d as int, rank as nat),
                    mi@.len() == rank,
                    0 <= j <= n,
                    sum as int == conv_psum(tv, jv, iv, c as int, j as nat),
                decreases n - j,
            {
                let mj = unflat_index(j, d, rank);
                proof {
                    lemma_unflat_is_index(c as int, d as int, rank as nat);
                    lemma_unflat_is_index(j as int, d as int, rank as nat);
                    assert(tv.comps[j as int] == self.comps@[j as int] as int);
                }
                let mut acc: i64 = self.comps[j];
                let mut k: usize = 0;
                while k < rank
                    invariant
                        tv == self@,
                        jv == jacobian@,
                        iv == inv_jacobian@,
                        self.wf(),
                        jacobian.wf(),
                        inv_jacobian.wf(),
                        conv_shapes_ok(tv, jv, iv),
                        forall|cc: int, jj: int, kk: int|
                            0 <= cc < tv.comps.len() && 0 <= jj < tv.comps.len() && 0 <= kk
                                <= tv.rank() ==> i64::MIN <= #[trigger] conv_pprod(
                                tv,
                                jv,
                                iv,
                                cc,
                                jj,
                                kk as nat,
                            ) <= i64::MAX,
                        d as int == tv.dim(),
                        rank as int == tv.rank(),
                        n == tv.comps.len(),
                        jv.comps.len() == d as int * d as int,
                        iv.comps.len() == d as int * d as int,
                        c < n,
                        j < n,
                        to_ints(mi@) == unflat(c as int, d as int, rank as nat),
                        mi@.len() == rank,
                        to_ints(mj@) == unflat(j as int, d as int, rank as nat),
                        mj@.len() == rank,
                        is_index(to_ints(mi@), d as int, rank as int),
                        is_index(to_ints(mj@), d as int, rank as int),
                        0 <= k <= rank,
                        acc as int == conv_pprod(tv, jv, iv, c as int, j as int, k as nat),
                    decreases rank - k,
                {
                    let a = mi[k];
                    let b = mj[k];
                    proof {
                        assert(to_ints(mi@)[k as int] == mi@[k as int] as int);
                        assert(to_ints(mj@)[k as int] == mj@[k as int] as int);
                        assert(a as int * d as int + b < d as int * d as int) by (nonlinear_arith)
                            requires
                                0 <= a as int && (a as int) < d as int,
                                0 <= b as int && (b as int) < d as int,
                        ;
                        assert(jacobian.comps.len() == jv.comps.len());
                        assert(inv_jacobian.comps.len() == iv.comps.len());
                        assert(jv.comps[(a * d + b) as int] == jacobian.comps@[(a * d
                            + b) as int] as int);
                        assert(iv.comps[(a * d + b) as int] == inv_jacobian.comps@[(a * d
                            + b) as int] as int);
                    }
                    let w: i64 = match self.var[k] {
                        IndexKind::Contravariant => jacobian.comps[a * d + b],
                        IndexKind::Covariant => inv_jacobian.comps[a * d + b],
                    };
                    proof {
                        assert(w as int == conv_weight(
                            tv.var[k as int],
                            jv,
                            iv,
                            to_ints(mi@)[k as int],
                            to_ints(mj@)[k as int],
                        ));
                        assert(i64::MIN <= conv_pprod(tv, jv, iv, c as int, j as int, (k
                            + 1) as nat) <= i64::MAX);
                    }
                    acc = acc * w;
                    k = k + 1;
                }
                proof {
                    assert(i64::MIN <= conv_psum(tv, jv, iv, c as int, (j + 1) as nat)
                        <= i64::MAX);
                }
                sum = sum + acc;
                j = j + 1;
            }
            comps.push(sum);
            c = c + 1;
        }
        let t = Tensor {
            point: jacobian.point.clone(),
            var: copy_kinds(&self.var),
            comps,
        };
        proof {
            assert(t@.comps =~= convert_model(tv, jv, iv).comps);
        }
        Ok(t)
    }
}

} // verus!
