//! Contraction, tensor product, and inner product.
//!
//! All three operations are specified by index-insertion semantics over the
//! canonical flattening and implemented with stride arithmetic; the stride
//! lemmas of `crate::indexing` prove the two views equal.

use vstd::prelude::*;

verus! {

use vstd::arithmetic::power::{pow, lemma_pow_adds, lemma_pow_positive, lemma_pow_increases, lemma_pow1};
use vstd::arithmetic::mul::{lemma_mul_nonnegative, lemma_mul_is_distributive_add};
use crate::TensorError;
use crate::indexing::{
    flat, unflat, is_index, lemma_flat_bounds, lemma_flat_unflat, lemma_unflat_flat,
    lemma_unflat_is_index, lemma_insert_is_index, lemma_flat_insert, lemma_flat_insert2,
    lemma_flat_concat, lemma_insert_concat_left, lemma_insert_concat_right, try_num_coords,
};
use vstd::arithmetic::div_mod::{
    lemma_fundamental_div_mod, lemma_fundamental_div_mod_converse, lemma_mod_bound,
    lemma_div_pos_is_pos,
};
use crate::tensor::{Tensor, TensorView, abs_bounded};
use crate::variance::{contractible, contracted, contracted_kinds, check_contractible};

/// One term of a contraction: the source component at the result multi-index
/// with the summation value `i` re-inserted at the contracted slots
/// `lo < hi`.
pub open spec fn trace_term(t: TensorView, lo: int, hi: int, m: Seq<int>, i: int) -> int {
    t.at(m.insert(lo, i).insert(hi, i))
}

/// The contraction sum at a result multi-index, over the first `n` values of
/// the summation index.
pub open spec fn trace_psum(t: TensorView, lo: int, hi: int, m: Seq<int>, n: nat) -> int
    decreases n,
{
    if n == 0 {
        0
    } else {
        trace_psum(t, lo, hi, m, (n - 1) as nat) + trace_term(t, lo, hi, m, n - 1)
    }
}

/// The contraction of `t` over the slots `lo < hi`: rank drops by two, and
/// each component is the sum over the dimension of the source components
/// with the summation index inserted back at `lo` and `hi`.
pub open spec fn trace_model(t: TensorView, lo: int, hi: int) -> TensorView {
    let d = t.dim();
    let r2 = (t.rank() - 2) as nat;
    TensorView {
        point: t.point,
        var: contracted(t.var, lo, hi),
        comps: Seq::new(
            pow(d, r2) as nat,
            |c: int| trace_psum(t, lo, hi, unflat(c, d, r2), d as nat),
        ),
    }
}

/// The contraction, read at a result multi-index: the index-insertion sum.
pub proof fn lemma_trace_at(t: TensorView, lo: int, hi: int, m: Seq<int>)
    requires
        t.wf(),
        contractible(t.var, lo, hi),
        is_index(m, t.dim(), t.rank() - 2),
    ensures
        trace_model(t, lo, hi).at(m) == trace_psum(t, lo, hi, m, t.dim() as nat),
{
    let d = t.dim();
    let r2 = (t.rank() - 2) as nat;
    lemma_flat_bounds(m, d);
    lemma_pow_positive(d, r2);
    lemma_unflat_flat(m, d);
}

/// The tensor product of `a` (rank `m`) and `b` (rank `n`): rank `m + n`,
/// variance concatenated with `a`'s slots first, and the component at a
/// concatenated multi-index the product of the factors' components.  In flat
/// terms: component `c` is `a[c / len(b)] * b[c % len(b)]`.
pub open spec fn product_model(a: TensorView, b: TensorView) -> TensorView {
    TensorView {
        point: a.point,
        var: a.var + b.var,
        comps: Seq::new(
            (a.comps.len() * b.comps.len()) as nat,
            |c: int| a.comps[c / b.comps.len() as int] * b.comps[c % b.comps.len() as int],
        ),
    }
}

/// The tensor product, read at a concatenated multi-index: the product of
/// the factors' components.
pub proof fn lemma_product_at(a: TensorView, b: TensorView, ma: Seq<int>, mb: Seq<int>)
    requires
        a.wf(),
        b.wf(),
        b.point.len() == a.point.len(),
        is_index(ma, a.dim(), a.rank()),
        is_index(mb, a.dim(), b.rank()),
    ensures
        product_model(a, b).at(ma + mb) == a.at(ma) * b.at(mb),
{
    let d = a.dim();
    let c = flat(ma + mb, d);
    lemma_flat_concat(ma, mb, d);
    lemma_flat_bounds(ma, d);
    lemma_flat_bounds(mb, d);
    lemma_fundamental_div_mod_converse(c, b.comps.len() as int, flat(ma, d), flat(mb, d));
    assert(0 <= c < a.comps.len() * b.comps.len()) by (nonlinear_arith)
        requires
            0 <= flat(ma, d) < a.comps.len(),
            0 <= flat(mb, d) < b.comps.len(),
            c == flat(ma, d) * b.comps.len() + flat(mb, d),
    ;
}

/// The tensor product of well-formed tensors over one dimension is
/// well-formed.
pub proof fn lemma_product_wf(a: TensorView, b: TensorView)
    requires
        a.wf(),
        b.wf(),
        b.point.len() == a.point.len(),
    ensures
        product_model(a, b).wf(),
        product_model(a, b).rank() == a.rank() + b.rank(),
        product_model(a, b).dim() == a.dim(),
{
    lemma_pow_adds(a.dim(), a.rank() as nat, b.rank() as nat);
}

/// Every contraction term is one component of the source tensor, so a
/// uniform component bound bounds it.
proof fn lemma_trace_term_bound(t: TensorView, lo: int, hi: int, m: Seq<int>, i: int, b: int)
    requires
        t.wf(),
        0 <= lo < hi < t.rank(),
        is_index(m, t.dim(), t.rank() - 2),
        0 <= i < t.dim(),
        abs_bounded(t.comps, b),
    ensures
        -b <= trace_term(t, lo, hi, m, i) <= b,
{
    let d = t.dim();
    lemma_insert_is_index(m, d, lo, i);
    lemma_insert_is_index(m.insert(lo, i), d, hi, i);
    lemma_flat_bounds(m.insert(lo, i).insert(hi, i), d);
}

/// A contraction partial sum of `n` terms, each within `[-b, b]`, lies
/// within `[-n * b, n * b]`.
proof fn lemma_trace_psum_bound(t: TensorView, lo: int, hi: int, m: Seq<int>, n: nat, b: int)
    requires
        t.wf(),
        0 <= lo < hi < t.rank(),
        is_index(m, t.dim(), t.rank() - 2),
        n <= t.dim(),
        b >= 0,
        abs_bounded(t.comps, b),
    ensures
        -(n * b) <= trace_psum(t, lo, hi, m, n) <= n * b,
    decreases n,
{
    if n == 0 {
        assert(0int * b == 0) by (nonlinear_arith);
    } else {
        lemma_trace_psum_bound(t, lo, hi, m, (n - 1) as nat, b);
        lemma_trace_term_bound(t, lo, hi, m, n - 1, b);
        assert(n * b == (n - 1) * b + b) by (nonlinear_arith);
    }
}

/// From one uniform component bound, every contraction partial sum fits the
/// scalar range: the form `Tensor::trace` asks its callers for.
pub proof fn lemma_trace_in_range(t: TensorView, lo: int, hi: int, b: int)
    requires
        t.wf(),
        0 <= lo < hi < t.rank(),
        b >= 0,
        abs_bounded(t.comps, b),
        t.dim() * b <= i64::MAX,
    ensures
        forall|c: int, n: int|
            0 <= c < pow(t.dim(), (t.rank() - 2) as nat) && 0 <= n <= t.dim() ==> i64::MIN
                <= #[trigger] trace_psum(
                t,
                lo,
                hi,
                unflat(c, t.dim(), (t.rank() - 2) as nat),
                n as nat,
            ) <= i64::MAX,
{
    let d = t.dim();
    let r2 = (t.rank() - 2) as nat;
    assert forall|c: int, n: int| 0 <= c < pow(d, r2) && 0 <= n <= d implies i64::MIN
        <= #[trigger] trace_psum(t, lo, hi, unflat(c, d, r2), n as nat) <= i64::MAX by {
        lemma_unflat_is_index(c, d, r2);
        lemma_trace_psum_bound(t, lo, hi, unflat(c, d, r2), n as nat, b);
        lemma_mul_inequality_nonneg(n, d, b);
    }
}

/// `x * b <= y * b` for `0 <= x <= y` and `0 <= b`.
proof fn lemma_mul_inequality_nonneg(x: int, y: int, b: int)
    requires
        0 <= x <= y,
        0 <= b,
    ensures
        x * b <= y * b,
        0 <= y * b,
{
    vstd::arithmetic::mul::lemma_mul_inequality(x, y, b);
    lemma_mul_nonnegative(y, b);
}

/// From uniform component bounds on the two factors, every pairwise product
/// and every fused contraction partial sum fits the scalar range: the forms
/// `Tensor::multiply` and `Tensor::inner_product` ask their callers for.
pub proof fn lemma_product_in_range(a: TensorView, b: TensorView, lo: int, hi: int, ba: int, bb: int)
    requires
        a.wf(),
        b.wf(),
        b.point.len() == a.point.len(),
        0 <= lo < hi < a.rank() + b.rank(),
        ba >= 0,
        bb >= 0,
        abs_bounded(a.comps, ba),
        abs_bounded(b.comps, bb),
        a.dim() * (ba * bb) <= i64::MAX,
    ensures
        forall|j: int, k: int|
            0 <= j < a.comps.len() && 0 <= k < b.comps.len() ==> i64::MIN <= #[trigger] (a.comps[j]
                * b.comps[k]) <= i64::MAX,
        forall|c: int, n: int|
            0 <= c < pow(a.dim(), (a.rank() + b.rank() - 2) as nat) && 0 <= n <= a.dim()
                ==> i64::MIN <= #[trigger] trace_psum(
                product_model(a, b),
                lo,
                hi,
                unflat(c, a.dim(), (a.rank() + b.rank() - 2) as nat),
                n as nat,
            ) <= i64::MAX,
{
    let d = a.dim();
    let prod = product_model(a, b);
    let nb = b.comps.len() as int;
    lemma_product_wf(a, b);
    assert(ba * bb <= d * (ba * bb)) by (nonlinear_arith)
        requires
            d >= 1,
            ba >= 0,
            bb >= 0,
    ;
    assert forall|j: int, k: int| 0 <= j < a.comps.len() && 0 <= k < b.comps.len() implies i64::MIN
        <= #[trigger] (a.comps[j] * b.comps[k]) <= i64::MAX by {
        assert(-(ba * bb) <= a.comps[j] * b.comps[k] <= ba * bb) by (nonlinear_arith)
            requires
                -ba <= a.comps[j] <= ba,
                -bb <= b.comps[k] <= bb,
                ba >= 0,
                bb >= 0,
        ;
    }
    assert(abs_bounded(prod.comps, ba * bb)) by {
        assert forall|x: int| 0 <= x < prod.comps.len() implies -(ba * bb)
            <= #[trigger] prod.comps[x] <= ba * bb by {
            lemma_pow_positive(d, b.rank() as nat);
            lemma_div_pos_is_pos(x, nb);
            lemma_mod_bound(x, nb);
            vstd::arithmetic::mul::lemma_mul_is_commutative(nb, a.comps.len() as int);
            vstd::arithmetic::div_mod::lemma_multiply_divide_lt(x, nb, a.comps.len() as int);
            assert(-(ba * bb) <= a.comps[x / nb] * b.comps[x % nb] <= ba * bb) by (nonlinear_arith)
                requires
                    -ba <= a.comps[x / nb] <= ba,
                    -bb <= b.comps[x % nb] <= bb,
                    ba >= 0,
                    bb >= 0,
            ;
        }
    }
    let r2 = (prod.rank() - 2) as nat;
    assert forall|c: int, n: int| 0 <= c < pow(d, r2) && 0 <= n <= d implies i64::MIN
        <= #[trigger] trace_psum(prod, lo, hi, unflat(c, d, r2), n as nat) <= i64::MAX by {
        lemma_unflat_is_index(c, d, r2);
        lemma_trace_psum_bound(prod, lo, hi, unflat(c, d, r2), n as nat, ba * bb);
        lemma_mul_inequality_nonneg(n, d, ba * bb);
    }
}

/// Contracting two slots that both lie in the left factor of a product: at
/// the result offset `flat(m)`, the term for summation value `i` multiplies
/// the left component at `c1` by the right component at `c2`, where `c1`
/// walks the left factor's trace strides and `c2` stands still.
proof fn lemma_fused_both_left(av: TensorView, bv: TensorView, m: Seq<int>, lo: int, hi: int, i: int)
    requires
        av.wf(),
        bv.wf(),
        bv.point.len() == av.point.len(),
        0 <= lo < hi < av.rank(),
        is_index(m, av.dim(), av.rank() + bv.rank() - 2),
        0 <= i < av.dim(),
    ensures
        ({
            let d = av.dim();
            let ra = av.rank();
            let na = av.comps.len() as int;
            let nb = bv.comps.len() as int;
            let amodl = pow(d, (ra - 2 - lo) as nat);
            let amodh = pow(d, (ra - 1 - hi) as nat);
            let c = flat(m, d);
            let ca = c / nb;
            let q1 = ca / amodl;
            let rest = ca % amodl;
            let c1 = q1 * (amodl * d * d) + (rest / amodh) * (amodh * d) + rest % amodh + i * (
            amodl * d + amodh);
            let c2 = c % nb;
            &&& 0 <= c1 < na
            &&& 0 <= c2 < nb
            &&& c1 * nb + c2 == flat(m.insert(lo, i).insert(hi, i), d)
        }),
{
    let d = av.dim();
    let ra = av.rank();
    let rb = bv.rank();
    let nb = bv.comps.len() as int;
    let amodl = pow(d, (ra - 2 - lo) as nat);
    let amodh = pow(d, (ra - 1 - hi) as nat);
    let ma = m.take(ra - 2);
    let mb = m.skip(ra - 2);
    assert(m =~= ma + mb);
    assert(forall|k: int| 0 <= k < ma.len() ==> 0 <= #[trigger] ma[k] < d);
    assert(forall|k: int| 0 <= k < mb.len() ==> 0 <= #[trigger] mb[k] < d);
    lemma_flat_concat(ma, mb, d);
    lemma_flat_bounds(ma, d);
    lemma_flat_bounds(mb, d);
    lemma_fundamental_div_mod_converse(flat(m, d), nb, flat(ma, d), flat(mb, d));
    let sa = ma.insert(lo, i).insert(hi, i);
    lemma_flat_insert2(ma, d, lo, hi, i);
    lemma_insert_is_index(ma, d, lo, i);
    lemma_insert_is_index(ma.insert(lo, i), d, hi, i);
    lemma_flat_bounds(sa, d);
    lemma_insert_concat_left(ma, mb, lo, i);
    lemma_insert_concat_left(ma.insert(lo, i), mb, hi, i);
    assert(m.insert(lo, i).insert(hi, i) == sa + mb);
    lemma_flat_concat(sa, mb, d);
    lemma_mul_is_distributive_add(i, amodl * d, amodh);
}

/// Contracting one slot of each factor: both offsets walk a single-insertion
/// stride of their own factor.
proof fn lemma_fused_split(av: TensorView, bv: TensorView, m: Seq<int>, lo: int, hi: int, i: int)
    requires
        av.wf(),
        bv.wf(),
        bv.point.len() == av.point.len(),
        0 <= lo < av.rank() <= hi < av.rank() + bv.rank(),
        is_index(m, av.dim(), av.rank() + bv.rank() - 2),
        0 <= i < av.dim(),
    ensures
        ({
            let d = av.dim();
            let ra = av.rank();
            let rb = bv.rank();
            let na = av.comps.len() as int;
            let nb = bv.comps.len() as int;
            let modv = pow(d, (rb - 1) as nat);
            let sa = pow(d, (ra - 1 - lo) as nat);
            let sb = pow(d, (rb - 1 - (hi - ra)) as nat);
            let c = flat(m, d);
            let ca = c / modv;
            let cb = c % modv;
            let c1 = (ca / sa) * (sa * d) + ca % sa + i * sa;
            let c2 = (cb / sb) * (sb * d) + cb % sb + i * sb;
            &&& 0 <= c1 < na
            &&& 0 <= c2 < nb
            &&& c1 * nb + c2 == flat(m.insert(lo, i).insert(hi, i), d)
        }),
{
    let d = av.dim();
    let ra = av.rank();
    let rb = bv.rank();
    let nb = bv.comps.len() as int;
    let modv = pow(d, (rb - 1) as nat);
    let ma = m.take(ra - 1);
    let mb = m.skip(ra - 1);
    assert(m =~= ma + mb);
    assert(forall|k: int| 0 <= k < ma.len() ==> 0 <= #[trigger] ma[k] < d);
    assert(forall|k: int| 0 <= k < mb.len() ==> 0 <= #[trigger] mb[k] < d);
    lemma_flat_concat(ma, mb, d);
    lemma_flat_bounds(ma, d);
    lemma_flat_bounds(mb, d);
    lemma_fundamental_div_mod_converse(flat(m, d), modv, flat(ma, d), flat(mb, d));
    let ia = ma.insert(lo, i);
    let ib = mb.insert(hi - ra, i);
    lemma_flat_insert(ma, d, lo, i);
    lemma_flat_insert(mb, d, hi - ra, i);
    lemma_insert_is_index(ma, d, lo, i);
    lemma_insert_is_index(mb, d, hi - ra, i);
    lemma_flat_bounds(ia, d);
    lemma_flat_bounds(ib, d);
    lemma_insert_concat_left(ma, mb, lo, i);
    lemma_insert_concat_right(ia, mb, hi, i);
    assert(m.insert(lo, i).insert(hi, i) == ia + ib);
    lemma_flat_concat(ia, ib, d);
}

/// Contracting two slots that both lie in the right factor: the right offset
/// walks the right factor's trace strides while the left offset stands
/// still.
proof fn lemma_fused_both_right(av: TensorView, bv: TensorView, m: Seq<int>, lo: int, hi: int, i: int)
    requires
        av.wf(),
        bv.wf(),
        bv.point.len() == av.point.len(),
        av.rank() <= lo < hi < av.rank() + bv.rank(),
        is_index(m, av.dim(), av.rank() + bv.rank() - 2),
        0 <= i < av.dim(),
    ensures
        ({
            let d = av.dim();
            let ra = av.rank();
            let rb = bv.rank();
            let na = av.comps.len() as int;
            let nb = bv.comps.len() as int;
            let modv = pow(d, (rb - 2) as nat);
            let bmodl = pow(d, (rb - 2 - (lo - ra)) as nat);
            let bmodh = pow(d, (rb - 1 - (hi - ra)) as nat);
            let c = flat(m, d);
            let ca = c / modv;
            let cb = c % modv;
            let q1 = cb / bmodl;
            let rest = cb % bmodl;
            let c1 = ca;
            let c2 = q1 * (bmodl * d * d) + (rest / bmodh) * (bmodh * d) + rest % bmodh + i * (
            bmodl * d + bmodh);
            &&& 0 <= c1 < na
            &&& 0 <= c2 < nb
            &&& c1 * nb + c2 == flat(m.insert(lo, i).insert(hi, i), d)
        }),
{
    let d = av.dim();
    let ra = av.rank();
    let rb = bv.rank();
    let nb = bv.comps.len() as int;
    let modv = pow(d, (rb - 2) as nat);
    let bmodl = pow(d, (rb - 2 - (lo - ra)) as nat);
    let bmodh = pow(d, (rb - 1 - (hi - ra)) as nat);
    let ma = m.take(ra as int);
    let mb = m.skip(ra as int);
    assert(m =~= ma + mb);
    assert(forall|k: int| 0 <= k < ma.len() ==> 0 <= #[trigger] ma[k] < d);
    assert(forall|k: int| 0 <= k < mb.len() ==> 0 <= #[trigger] mb[k] < d);
    lemma_flat_concat(ma, mb, d);
    lemma_flat_bounds(ma, d);
    lemma_flat_bounds(mb, d);
    lemma_fundamental_div_mod_converse(flat(m, d), modv, flat(ma, d), flat(mb, d));
    let sb = mb.insert(lo - ra, i).insert(hi - ra, i);
    lemma_flat_insert2(mb, d, lo - ra, hi - ra, i);
    lemma_insert_is_index(mb, d, lo - ra, i);
    lemma_insert_is_index(mb.insert(lo - ra, i), d, hi - ra, i);
    lemma_flat_bounds(sb, d);
    lemma_insert_concat_right(ma, mb, lo, i);
    lemma_insert_concat_right(ma, mb.insert(lo - ra, i), hi, i);
    assert(m.insert(lo, i).insert(hi, i) == ma + sb);
    lemma_flat_concat(ma, sb, d);
    lemma_mul_is_distributive_add(i, bmodl * d, bmodh);
}

impl Tensor {
    /// Contracts the slots `lo < hi`, which must carry opposite kinds; any
    /// other pair is reported as `InvalidContraction`.  The result has the
    /// two slots removed, and each component is the sum over the dimension
    /// of the source components with the summation index inserted back at
    /// `lo` and `hi`.
    pub fn trace(&self, lo: usize, hi: usize) -> (r: Result<Tensor, TensorError>)
        requires
            self.wf(),
            contractible(self@.var, lo as int, hi as int) ==> forall|c: int, n: int|
                0 <= c < pow(self@.dim(), (self@.rank() - 2) as nat) && 0 <= n <= self@.dim()
                    ==> i64::MIN <= #[trigger] trace_psum(
                    self@,
                    lo as int,
                    hi as int,
                    unflat(c, self@.dim(), (self@.rank() - 2) as nat),
                    n as nat,
                ) <= i64::MAX,
        ensures
            r is Ok <==> contractible(self@.var, lo as int, hi as int),
            r matches Ok(t) ==> t.wf() && t@ == trace_model(self@, lo as int, hi as int),
            r matches Err(e) ==> e == TensorError::InvalidContraction,
    {
        if !check_contractible(&self.var, lo, hi) {
            return Err(TensorError::InvalidContraction);
        }
        let ghost tv = self@;
        let d = self.point.dimension();
        let rank = self.var.len();
        let r2 = rank - 2;
        proof {
            assert(self.comps.len() == self@.comps.len());
            lemma_pow_increases(d as nat, r2 as nat, rank as nat);
            lemma_pow_increases(d as nat, (rank - 2 - lo) as nat, rank as nat);
            lemma_pow_increases(d as nat, (rank - 1 - hi) as nat, rank as nat);
        }
        let n_out = match try_num_coords(d, r2) {
            Some(n) => n,
            None => {
                proof {
                    assert(false);
                }
                0
            },
        };
        let modl = match try_num_coords(d, r2 - lo) {
            Some(n) => n,
            None => {
                proof {
                    assert(false);
                }
                0
            },
        };
        let modh = match try_num_coords(d, rank - 1 - hi) {
            Some(n) => n,
            None => {
                proof {
                    assert(false);
                }
                0
            },
        };
        proof {
            lemma_pow_positive(d as int, (r2 - lo) as nat);
            lemma_pow_positive(d as int, (rank - 1 - hi) as nat);
            lemma_pow_positive(d as int, r2 as nat);
            // modl * d == pow(d, rank - 1 - lo) <= pow(d, rank)
            assert(modl as int * d as int == pow(d as int, (rank - 1 - lo) as nat)) by {
                lemma_pow1(d as int);
                lemma_pow_adds(d as int, (r2 - lo) as nat, 1);
            }
            lemma_pow_increases(d as nat, (rank - 1 - lo) as nat, rank as nat);
        }
        let stepl = modl * d;
        let mut comps: Vec<i64> = Vec::new();
        let mut c: usize = 0;
        while c < n_out
            invariant
                tv == self@,
                self.wf(),
                contractible(tv.var, lo as int, hi as int),
                forall|cc: int, n: int|
                    0 <= cc < pow(tv.dim(), (tv.rank() - 2) as nat) && 0 <= n <= tv.dim()
                        ==> i64::MIN <= #[trigger] trace_psum(
                        tv,
                        lo as int,
                        hi as int,
                        unflat(cc, tv.dim(), (tv.rank() - 2) as nat),
                        n as nat,
                    ) <= i64::MAX,
                d as int == tv.dim(),
                rank as int == tv.rank(),
                r2 == rank - 2,
                lo < hi < rank,
                n_out as int == pow(d as int, r2 as nat),
                modl as int == pow(d as int, (r2 - lo) as nat),
                modh as int == pow(d as int, (rank - 1 - hi) as nat),
                stepl as int == pow(d as int, (rank - 1 - lo) as nat),
                stepl as int == modl as int * d as int,
                modl >= 1,
                modh >= 1,
                tv.comps.len() == pow(d as int, rank as nat) <= usize::MAX,
                comps@.len() == c <= n_out,
                forall|t: int|
                    0 <= t < c ==> comps@[t] as int == #[trigger] trace_model(
                        tv,
                        lo as int,
                        hi as int,
                    ).comps[t],
            decreases n_out - c,
        {
            let ghost m = unflat(c as int, d as int, r2 as nat);
            proof {
                lemma_unflat_is_index(c as int, d as int, r2 as nat);
                lemma_flat_unflat(c as int, d as int, r2 as nat);
            }
            let q1 = c / modl;
            let rest = c % modl;
            let q2 = rest / modh;
            let q3 = rest % modh;
            proof {
                lemma_flat_insert2(m, d as int, lo as int, hi as int, 0);
                lemma_insert_is_index(m, d as int, lo as int, 0);
                lemma_insert_is_index(m.insert(lo as int, 0), d as int, hi as int, 0);
                lemma_flat_bounds(m.insert(lo as int, 0).insert(hi as int, 0), d as int);
                assert(q1 as int == c as int / modl as int);
                assert(rest as int == c as int % modl as int);
            }
            let ghost off0 = flat(m.insert(lo as int, 0).insert(hi as int, 0), d as int);
            proof {
                assert(off0 == q1 as int * (modl as int * d as int * d as int) + q2 as int * (
                modh as int * d as int) + q3 as int);
                lemma_mul_nonnegative(q1 as int, modl as int * d as int * d as int);
                lemma_mul_nonnegative(q2 as int, modh as int * d as int);
                assert(q1 as int * modl as int <= q1 as int * (modl as int * d as int * d as int))
                    by (nonlinear_arith)
                    requires
                        q1 as int >= 0,
                        modl as int >= 1,
                        d as int >= 1,
                ;
                assert((q1 as int * modl as int) * d as int <= q1 as int * (modl as int * d as int
                    * d as int)) by (nonlinear_arith)
                    requires
                        q1 as int >= 0,
                        modl as int >= 1,
                        d as int >= 1,
                ;
                assert(((q1 as int * modl as int) * d as int) * d as int == q1 as int * (
                modl as int * d as int * d as int)) by (nonlinear_arith);
                assert(q2 as int * modh as int <= q2 as int * (modh as int * d as int))
                    by (nonlinear_arith)
                    requires
                        q2 as int >= 0,
                        modh as int >= 1,
                        d as int >= 1,
                ;
                assert((q2 as int * modh as int) * d as int == q2 as int * (modh as int
                    * d as int)) by (nonlinear_arith);
            }
            let template = ((q1 * modl) * d) * d + (q2 * modh) * d + q3;
            let mut sum: i64 = 0;
            let mut i: usize = 0;
            while i < d
                invariant
                    tv == self@,
                    self.wf(),
                    contractible(tv.var, lo as int, hi as int),
                    forall|cc: int, n: int|
                        0 <= cc < pow(tv.dim(), (tv.rank() - 2) as nat) && 0 <= n <= tv.dim()
                            ==> i64::MIN <= #[trigger] trace_psum(
                            tv,
                            lo as int,
                            hi as int,
                            unflat(cc, tv.dim(), (tv.rank() - 2) as nat),
                            n as nat,
                        ) <= i64::MAX,
                    d as int == tv.dim(),
                    rank as int == tv.rank(),
                    r2 == rank - 2,
                    lo < hi < rank,
                    modl as int == pow(d as int, (r2 - lo) as nat),
                    modh as int == pow(d as int, (rank - 1 - hi) as nat),
                    stepl as int == modl as int * d as int,
                    modl >= 1,
                    modh >= 1,
                    tv.comps.len() == pow(d as int, rank as nat) <= usize::MAX,
                    0 <= i <= d,
                    m == unflat(c as int, d as int, r2 as nat),
                    is_index(m, d as int, r2 as int),
                    flat(m, d as int) == c as int,
                    c < n_out,
                    n_out as int == pow(d as int, r2 as nat),
                    template as int == q1 as int * (modl as int * d as int * d as int) + q2 as int
                        * (modh as int * d as int) + q3 as int,
                    q1 as int == c as int / modl as int,
                    q2 as int == (c as int % modl as int) / modh as int,
                    q3 as int == (c as int % modl as int) % modh as int,
                    sum as int == trace_psum(tv, lo as int, hi as int, m, i as nat),
                decreases d - i,
            {
                let ghost mi = m.insert(lo as int, i as int).insert(hi as int, i as int);
                proof {
                    lemma_flat_insert2(m, d as int, lo as int, hi as int, i as int);
                    lemma_insert_is_index(m, d as int, lo as int, i as int);
                    lemma_insert_is_index(m.insert(lo as int, i as int), d as int, hi as int, i as int);
                    lemma_flat_bounds(mi, d as int);
                    lemma_mul_nonnegative(q1 as int, modl as int * d as int * d as int);
                    lemma_mul_nonnegative(q2 as int, modh as int * d as int);
                    lemma_mul_nonnegative(i as int, stepl as int);
                    lemma_mul_nonnegative(i as int, modh as int);
                    assert(i as int * (modl as int * d as int) == i as int * stepl as int);
                }
                let o1 = i * stepl;
                let o2 = i * modh;
                let off = template + o1 + o2;
                proof {
                    assert(off as int == flat(mi, d as int));
                    assert(off < tv.comps.len());
                    assert(tv.comps[off as int] == self.comps@[off as int] as int);
                    assert(trace_term(tv, lo as int, hi as int, m, i as int) == tv.comps[off as int]);
                }
                let term = self.comps[off];
                proof {
                    // The next partial sum stays within the scalar range.
                    assert(i64::MIN <= trace_psum(tv, lo as int, hi as int, m, (i + 1) as nat)
                        <= i64::MAX);
                }
                sum = sum + term;
                i = i + 1;
            }
            comps.push(sum);
            proof {
                lemma_pow_positive(d as int, r2 as nat);
                assert(trace_model(tv, lo as int, hi as int).comps[c as int] == trace_psum(
                    tv,
                    lo as int,
                    hi as int,
                    m,
                    d as nat,
                ));
            }
            c = c + 1;
        }
        let t = Tensor {
            point: self.point.clone(),
            var: contracted_kinds(&self.var, lo, hi),
            comps,
        };
        proof {
            assert(t@.comps =~= trace_model(tv, lo as int, hi as int).comps);
            assert(contracted(tv.var, lo as int, hi as int).len() == rank - 2);
        }
        Ok(t)
    }

    /// The tensor product.  Both tensors must be anchored at the same point,
    /// else `IncompatiblePoints`; the result's variance is `self`'s slots
    /// followed by `other`'s, and its component at a concatenated
    /// multi-index is the product of the factors' components.
    pub fn multiply(&self, other: &Tensor) -> (r: Result<Tensor, TensorError>)
        requires
            self.wf(),
            other.wf(),
            self@.point == other@.point ==> pow(
                self@.dim(),
                (self@.rank() + other@.rank()) as nat,
            ) <= usize::MAX,
            self@.point == other@.point ==> forall|j: int, k: int|
                0 <= j < self@.comps.len() && 0 <= k < other@.comps.len() ==> i64::MIN
                    <= #[trigger] (self@.comps[j] * other@.comps[k]) <= i64::MAX,
        ensures
            r is Ok <==> self@.point == other@.point,
            r matches Ok(t) ==> t.wf() && t@ == product_model(self@, other@),
            r matches Err(e) ==> e == TensorError::IncompatiblePoints,
    {
        if !(self.point == other.point) {
            return Err(TensorError::IncompatiblePoints);
        }
        let ghost av = self@;
        let ghost bv = other@;
        let na = self.comps.len();
        let nb = other.comps.len();
        proof {
            assert(na == av.comps.len());
            assert(nb == bv.comps.len());
            lemma_pow_adds(av.dim(), av.rank() as nat, bv.rank() as nat);
            lemma_pow_positive(av.dim(), bv.rank() as nat);
            assert(na as int * nb as int == pow(av.dim(), (av.rank() + bv.rank()) as nat));
            lemma_mul_nonnegative(na as int, nb as int);
        }
        let n_out = na * nb;
        let mut comps: Vec<i64> = Vec::new();
        let mut c: usize = 0;
        while c < n_out
            invariant
                av == self@,
                bv == other@,
                self.wf(),
                other.wf(),
                av.point == bv.point,
                forall|j: int, k: int|
                    0 <= j < av.comps.len() && 0 <= k < bv.comps.len() ==> i64::MIN
                        <= #[trigger] (av.comps[j] * bv.comps[k]) <= i64::MAX,
                na == av.comps.len(),
                nb == bv.comps.len(),
                nb >= 1,
                n_out == na * nb,
                comps@.len() == c <= n_out,
                forall|t: int|
                    0 <= t < c ==> comps@[t] as int == #[trigger] product_model(av, bv).comps[t],
            decreases n_out - c,
        {
            let q = c / nb;
            let rem = c % nb;
            proof {
                vstd::arithmetic::div_mod::lemma_multiply_divide_lt(c as int, nb as int, na as int);
                lemma_mod_bound(c as int, nb as int);
                lemma_div_pos_is_pos(c as int, nb as int);
                assert(av.comps[q as int] == self.comps@[q as int] as int);
                assert(bv.comps[rem as int] == other.comps@[rem as int] as int);
            }
            let v = self.comps[q] * other.comps[rem];
            comps.push(v);
            c = c + 1;
        }
        let t = Tensor {
            point: self.point.clone(),
            var: crate::variance::joined_kinds(&self.var, &other.var),
            comps,
        };
        proof {
            lemma_product_wf(av, bv);
            assert(t@.comps =~= product_model(av, bv).comps);
        }
        Ok(t)
    }

    /// The inner product: the tensor product of `self` and `other`,
    /// contracted over the slots `lo < hi` of the concatenated variance, in
    /// one fused pass that never materializes the product.  Both tensors
    /// must be anchored at the same point (else `IncompatiblePoints`), and
    /// the two slots must carry opposite kinds (else `InvalidContraction`).
    /// The result equals the two-step contraction of the product exactly.
    pub fn inner_product(&self, other: &Tensor, lo: usize, hi: usize) -> (r: Result<
        Tensor,
        TensorError,
    >)
        requires
            self.wf(),
            other.wf(),
            self@.point == other@.point ==> pow(
                self@.dim(),
                (self@.rank() + other@.rank()) as nat,
            ) <= usize::MAX,
            self@.point == other@.point ==> forall|j: int, k: int|
                0 <= j < self@.comps.len() && 0 <= k < other@.comps.len() ==> i64::MIN
                    <= #[trigger] (self@.comps[j] * other@.comps[k]) <= i64::MAX,
            self@.point == other@.point && contractible(
                self@.var + other@.var,
                lo as int,
                hi as int,
            ) ==> forall|c: int, n: int|
                0 <= c < pow(self@.dim(), (self@.rank() + other@.rank() - 2) as nat) && 0 <= n
                    <= self@.dim() ==> i64::MIN <= #[trigger] trace_psum(
                    product_model(self@, other@),
                    lo as int,
                    hi as int,
                    unflat(c, self@.dim(), (self@.rank() + other@.rank() - 2) as nat),
                    n as nat,
                ) <= i64::MAX,
        ensures
            r is Ok <==> self@.point == other@.point && contractible(
                self@.var + other@.var,
                lo as int,
                hi as int,
            ),
            r matches Ok(t) ==> t.wf() && t@ == trace_model(
                product_model(self@, other@),
                lo as int,
                hi as int,
            ),
            (r == Err::<Tensor, TensorError>(TensorError::IncompatiblePoints) <==> self@.point
                != other@.point),
            (r == Err::<Tensor, TensorError>(TensorError::InvalidContraction) <==> self@.point
                == other@.point && !contractible(self@.var + other@.var, lo as int, hi as int)),
    {
        if !(self.point == other.point) {
            return Err(TensorError::IncompatiblePoints);
        }
        let joined = crate::variance::joined_kinds(&self.var, &other.var);
        if !check_contractible(&joined, lo, hi) {
            return Err(TensorError::InvalidContraction);
        }
        let ghost av = self@;
        let ghost bv = other@;
        let ghost prod = product_model(av, bv);
        let d = self.point.dimension();
        let ra = self.var.len();
        let rb = other.var.len();
        let na = self.comps.len();
        let nb = other.comps.len();
        let rank = joined.len();
        let r2 = rank - 2;
        proof {
            assert(na == av.comps.len());
            assert(nb == bv.comps.len());
            lemma_product_wf(av, bv);
            lemma_pow_increases(d as nat, r2 as nat, rank as nat);
            lemma_pow_increases(d as nat, rb as nat, rank as nat);
            lemma_pow_positive(d as int, rb as nat);
        }
        let n_out = match try_num_coords(d, r2) {
            Some(n) => n,
            None => {
                proof {
                    assert(false);
                }
                0
            },
        };
        // The strides of the fused pass, by where the contracted slots fall:
        // both in `self`'s slot range, split across the two, or both in
        // `other`'s.
        let in_a = hi < ra;
        let in_b = lo >= ra;
        let (modv, s_lo, s_hi): (usize, usize, usize) = if in_a {
            proof {
                lemma_pow_increases(d as nat, (ra - 2 - lo) as nat, rank as nat);
                lemma_pow_increases(d as nat, (ra - 1 - hi) as nat, rank as nat);
            }
            let sl = match try_num_coords(d, ra - 2 - lo) {
                Some(n) => n,
                None => {
                    proof {
                        assert(false);
                    }
                    0
                },
            };
            let sh = match try_num_coords(d, ra - 1 - hi) {
                Some(n) => n,
                None => {
                    proof {
                        assert(false);
                    }
                    0
                },
            };
            (nb, sl, sh)
        } else if !in_b {
            proof {
                lemma_pow_increases(d as nat, (rb - 1) as nat, rank as nat);
                lemma_pow_increases(d as nat, (ra - 1 - lo) as nat, rank as nat);
                lemma_pow_increases(d as nat, (rb - 1 - (hi - ra)) as nat, rank as nat);
            }
            let mv = match try_num_coords(d, rb - 1) {
                Some(n) => n,
                None => {
                    proof {
                        assert(false);
                    }
                    0
                },
            };
            let sl = match try_num_coords(d, ra - 1 - lo) {
                Some(n) => n,
                None => {
                    proof {
                        assert(false);
                    }
                    0
                },
            };
            let sh = match try_num_coords(d, rb - 1 - (hi - ra)) {
                Some(n) => n,
                None => {
                    proof {
                        assert(false);
                    }
                    0
                },
            };
            (mv, sl, sh)
        } else {
            proof {
                lemma_pow_increases(d as nat, (rb - 2) as nat, rank as nat);
                lemma_pow_increases(d as nat, (rb - 2 - (lo - ra)) as nat, rank as nat);
                lemma_pow_increases(d as nat, (rb - 1 - (hi - ra)) as nat, rank as nat);
            }
            let mv = match try_num_coords(d, rb - 2) {
                Some(n) => n,
                None => {
                    proof {
                        assert(false);
                    }
                    0
                },
            };
            let sl = match try_num_coords(d, rb - 2 - (lo - ra)) {
                Some(n) => n,
                None => {
                    proof {
                        assert(false);
                    }
                    0
                },
            };
            let sh = match try_num_coords(d, rb - 1 - (hi - ra)) {
                Some(n) => n,
                None => {
                    proof {
                        assert(false);
                    }
                    0
                },
            };
            (mv, sl, sh)
        };
        // The per-term steps of the two offsets.
        let ghost m0 = unflat(0, d as int, r2 as nat);
        proof {
            lemma_pow_positive(d as int, r2 as nat);
            lemma_unflat_is_index(0, d as int, r2 as nat);
            lemma_flat_unflat(0, d as int, r2 as nat);
            if in_a {
                lemma_pow_positive(d as int, (ra - 2 - lo) as nat);
                lemma_pow_positive(d as int, (ra - 1 - hi) as nat);
            } else if !in_b {
                lemma_pow_positive(d as int, (rb - 1) as nat);
                lemma_pow_positive(d as int, (ra - 1 - lo) as nat);
                lemma_pow_positive(d as int, (rb - 1 - (hi - ra)) as nat);
            } else {
                lemma_pow_positive(d as int, (rb - 2) as nat);
                lemma_pow_positive(d as int, (rb - 2 - (lo - ra)) as nat);
                lemma_pow_positive(d as int, (rb - 1 - (hi - ra)) as nat);
            }
            if d >= 2 {
                if in_a {
                    lemma_fused_both_left(av, bv, m0, lo as int, hi as int, 1);
                } else if !in_b {
                    lemma_fused_split(av, bv, m0, lo as int, hi as int, 1);
                } else {
                    lemma_fused_both_right(av, bv, m0, lo as int, hi as int, 1);
                }
                lemma_div_of0_mods(nb as int);
                lemma_div_of0_mods(modv as int);
                lemma_div_of0_mods(s_lo as int);
                lemma_div_of0_mods(s_hi as int);
            } else {
                vstd::arithmetic::power::lemma1_pow((ra - 2 - lo) as nat);
                vstd::arithmetic::power::lemma1_pow((ra - 1 - hi) as nat);
                vstd::arithmetic::power::lemma1_pow((rb - 2 - (lo - ra)) as nat);
                vstd::arithmetic::power::lemma1_pow((rb - 1 - (hi - ra)) as nat);
            }
        }
        let (step1, step2): (usize, usize) = if in_a {
            (s_lo * d + s_hi, 0)
        } else if !in_b {
            (s_lo, s_hi)
        } else {
            (0, s_lo * d + s_hi)
        };
        let mut comps: Vec<i64> = Vec::new();
        let mut c: usize = 0;
        while c < n_out
            invariant
                av == self@,
                bv == other@,
                prod == product_model(av, bv),
                self.wf(),
                other.wf(),
                av.point == bv.point,
                forall|j: int, k: int|
                    0 <= j < av.comps.len() && 0 <= k < bv.comps.len() ==> i64::MIN
                        <= #[trigger] (av.comps[j] * bv.comps[k]) <= i64::MAX,
                forall|cc: int, n: int|
                    0 <= cc < pow(av.dim(), (av.rank() + bv.rank() - 2) as nat) && 0 <= n
                        <= av.dim() ==> i64::MIN <= #[trigger] trace_psum(
                        product_model(av, bv),
                        lo as int,
                        hi as int,
                        unflat(cc, av.dim(), (av.rank() + bv.rank() - 2) as nat),
                        n as nat,
                    ) <= i64::MAX,
                d as int == av.dim(),
                ra as int == av.rank(),
                rb as int == bv.rank(),
                na == av.comps.len(),
                nb == bv.comps.len(),
                rank == ra + rb,
                r2 == rank - 2,
                lo < hi < rank,
                contractible(av.var + bv.var, lo as int, hi as int),
                prod.wf(),
                prod.dim() == d as int,
                prod.rank() == rank as int,
                prod.point == av.point,
                prod.var == av.var + bv.var,
                prod.comps.len() == pow(d as int, rank as nat) <= usize::MAX,
                n_out as int == pow(d as int, r2 as nat),
                in_a == (hi < ra),
                in_b == (lo >= ra),
                modv >= 1,
                s_lo >= 1,
                s_hi >= 1,
                in_a ==> modv == nb && s_lo as int == pow(d as int, (ra - 2 - lo) as nat)
                    && s_hi as int == pow(d as int, (ra - 1 - hi) as nat) && step1 as int
                    == s_lo as int * d as int + s_hi as int && step2 == 0,
                !in_a && !in_b ==> modv as int == pow(d as int, (rb - 1) as nat) && s_lo as int
                    == pow(d as int, (ra - 1 - lo) as nat) && s_hi as int == pow(
                    d as int,
                    (rb - 1 - (hi - ra)) as nat,
                ) && step1 == s_lo && step2 == s_hi,
                in_b ==> modv as int == pow(d as int, (rb - 2) as nat) && s_lo as int == pow(
                    d as int,
                    (rb - 2 - (lo - ra)) as nat,
                ) && s_hi as int == pow(d as int, (rb - 1 - (hi - ra)) as nat) && step1 == 0
                    && step2 as int == s_lo as int * d as int + s_hi as int,
                comps@.len() == c <= n_out,
                forall|t: int|
                    0 <= t < c ==> comps@[t] as int == #[trigger] trace_model(
                        prod,
                        lo as int,
                        hi as int,
                    ).comps[t],
            decreases n_out - c,
        {
            let ghost m = unflat(c as int, d as int, r2 as nat);
            proof {
                lemma_unflat_is_index(c as int, d as int, r2 as nat);
                lemma_flat_unflat(c as int, d as int, r2 as nat);
                if in_a {
                    lemma_fused_both_left(av, bv, m, lo as int, hi as int, 0);
                } else if !in_b {
                    lemma_fused_split(av, bv, m, lo as int, hi as int, 0);
                } else {
                    lemma_fused_both_right(av, bv, m, lo as int, hi as int, 0);
                }
            }
            let cq = c / modv;
            let cr = c % modv;
            let (start1, start2): (usize, usize) = if in_a {
                let q1 = cq / s_lo;
                let rest = cq % s_lo;
                let q2 = rest / s_hi;
                let q3 = rest % s_hi;
                proof {
                    lemma_template_shape(
                        q1 as int,
                        q2 as int,
                        q3 as int,
                        s_lo as int,
                        s_hi as int,
                        d as int,
                    );
                }
                (((q1 * s_lo) * d) * d + (q2 * s_hi) * d + q3, cr)
            } else if !in_b {
                let qa = cq / s_lo;
                let ra_ = cq % s_lo;
                let qb = cr / s_hi;
                let rb_ = cr % s_hi;
                proof {
                    lemma_split_shape(qa as int, ra_ as int, s_lo as int, d as int);
                    lemma_split_shape(qb as int, rb_ as int, s_hi as int, d as int);
                }
                ((qa * s_lo) * d + ra_, (qb * s_hi) * d + rb_)
            } else {
                let q1 = cr / s_lo;
                let rest = cr % s_lo;
                let q2 = rest / s_hi;
                let q3 = rest % s_hi;
                proof {
                    lemma_template_shape(
                        q1 as int,
                        q2 as int,
                        q3 as int,
                        s_lo as int,
                        s_hi as int,
                        d as int,
                    );
                }
                (cq, ((q1 * s_lo) * d) * d + (q2 * s_hi) * d + q3)
            };
            let mut sum: i64 = 0;
            let mut i: usize = 0;
            while i < d
                invariant
                    av == self@,
                    bv == other@,
                    prod == product_model(av, bv),
                    self.wf(),
                    other.wf(),
                    av.point == bv.point,
                    forall|j: int, k: int|
                        0 <= j < av.comps.len() && 0 <= k < bv.comps.len() ==> i64::MIN
                            <= #[trigger] (av.comps[j] * bv.comps[k]) <= i64::MAX,
                    forall|cc: int, n: int|
                        0 <= cc < pow(av.dim(), (av.rank() + bv.rank() - 2) as nat) && 0 <= n
                            <= av.dim() ==> i64::MIN <= #[trigger] trace_psum(
                            product_model(av, bv),
                            lo as int,
                            hi as int,
                            unflat(cc, av.dim(), (av.rank() + bv.rank() - 2) as nat),
                            n as nat,
                        ) <= i64::MAX,
                    d as int == av.dim(),
                    ra as int == av.rank(),
                    rb as int == bv.rank(),
                    na == av.comps.len(),
                    nb == bv.comps.len(),
                    rank == ra + rb,
                    r2 == rank - 2,
                    lo < hi < rank,
                    contractible(av.var + bv.var, lo as int, hi as int),
                    prod.wf(),
                    prod.dim() == d as int,
                    prod.rank() == rank as int,
                    prod.comps.len() == pow(d as int, rank as nat) <= usize::MAX,
                    n_out as int == pow(d as int, r2 as nat),
                    c < n_out,
                    m == unflat(c as int, d as int, r2 as nat),
                    is_index(m, d as int, r2 as int),
                    flat(m, d as int) == c as int,
                    in_a == (hi < ra),
                    in_b == (lo >= ra),
                    in_a ==> start1 as int == (c as int / nb as int) / pow(
                        d as int,
                        (ra - 2 - lo) as nat,
                    ) * (pow(d as int, (ra - 2 - lo) as nat) * d as int * d as int) + ((c as int
                        / nb as int) % pow(d as int, (ra - 2 - lo) as nat)) / pow(
                        d as int,
                        (ra - 1 - hi) as nat,
                    ) * (pow(d as int, (ra - 1 - hi) as nat) * d as int) + ((c as int / nb as int)
                        % pow(d as int, (ra - 2 - lo) as nat)) % pow(
                        d as int,
                        (ra - 1 - hi) as nat,
                    ) && start2 as int == c as int % nb as int && step1 as int == pow(
                        d as int,
                        (ra - 2 - lo) as nat,
                    ) * d as int + pow(d as int, (ra - 1 - hi) as nat) && step2 == 0,
                    !in_a && !in_b ==> start1 as int == (c as int / pow(
                        d as int,
                        (rb - 1) as nat,
                    )) / pow(d as int, (ra - 1 - lo) as nat) * (pow(d as int, (ra - 1 - lo) as nat)
                        * d as int) + (c as int / pow(d as int, (rb - 1) as nat)) % pow(
                        d as int,
                        (ra - 1 - lo) as nat,
                    ) && start2 as int == (c as int % pow(d as int, (rb - 1) as nat)) / pow(
                        d as int,
                        (rb - 1 - (hi - ra)) as nat,
                    ) * (pow(d as int, (rb - 1 - (hi - ra)) as nat) * d as int) + (c as int % pow(
                        d as int,
                        (rb - 1) as nat,
                    )) % pow(d as int, (rb - 1 - (hi - ra)) as nat) && step1 as int == pow(
                        d as int,
                        (ra - 1 - lo) as nat,
                    ) && step2 as int == pow(d as int, (rb - 1 - (hi - ra)) as nat),
                    in_b ==> start1 as int == c as int / pow(d as int, (rb - 2) as nat)
                        && start2 as int == (c as int % pow(d as int, (rb - 2) as nat)) / pow(
                        d as int,
                        (rb - 2 - (lo - ra)) as nat,
                    ) * (pow(d as int, (rb - 2 - (lo - ra)) as nat) * d as int * d as int) + ((
                    c as int % pow(d as int, (rb - 2) as nat)) % pow(
                        d as int,
                        (rb - 2 - (lo - ra)) as nat,
                    )) / pow(d as int, (rb - 1 - (hi - ra)) as nat) * (pow(
                        d as int,
                        (rb - 1 - (hi - ra)) as nat,
                    ) * d as int) + ((c as int % pow(d as int, (rb - 2) as nat)) % pow(
                        d as int,
                        (rb - 2 - (lo - ra)) as nat,
                    )) % pow(d as int, (rb - 1 - (hi - ra)) as nat) && step1 == 0 && step2 as int
                        == pow(d as int, (rb - 2 - (lo - ra)) as nat) * d as int + pow(
                        d as int,
                        (rb - 1 - (hi - ra)) as nat,
                    ),
                    0 <= i <= d,
                    sum as int == trace_psum(prod, lo as int, hi as int, m, i as nat),
                decreases d - i,
            {
                proof {
                    if in_a {
                        lemma_fused_both_left(av, bv, m, lo as int, hi as int, i as int);
                    } else if !in_b {
                        lemma_fused_split(av, bv, m, lo as int, hi as int, i as int);
                    } else {
                        lemma_fused_both_right(av, bv, m, lo as int, hi as int, i as int);
                    }
                }
                let coord1 = start1 + i * step1;
                let coord2 = start2 + i * step2;
                let ghost mi = m.insert(lo as int, i as int).insert(hi as int, i as int);
                proof {
                    lemma_insert_is_index(m, d as int, lo as int, i as int);
                    lemma_insert_is_index(
                        m.insert(lo as int, i as int),
                        d as int,
                        hi as int,
                        i as int,
                    );
                    lemma_flat_bounds(mi, d as int);
                    lemma_fundamental_div_mod_converse(
                        coord1 as int * nb as int + coord2 as int,
                        nb as int,
                        coord1 as int,
                        coord2 as int,
                    );
                    assert(prod.comps[flat(mi, d as int)] == av.comps[coord1 as int] * bv.comps[
                    coord2 as int]);
                    assert(av.comps[coord1 as int] == self.comps@[coord1 as int] as int);
                    assert(bv.comps[coord2 as int] == other.comps@[coord2 as int] as int);
                    assert(trace_term(prod, lo as int, hi as int, m, i as int) == prod.comps[flat(
                        mi,
                        d as int,
                    )]);
                }
                let va = self.comps[coord1];
                let vb = other.comps[coord2];
                let term = va * vb;
                proof {
                    assert(i64::MIN <= trace_psum(prod, lo as int, hi as int, m, (i + 1) as nat)
                        <= i64::MAX);
                }
                sum = sum + term;
                i = i + 1;
            }
            comps.push(sum);
            proof {
                assert(trace_model(prod, lo as int, hi as int).comps[c as int] == trace_psum(
                    prod,
                    lo as int,
                    hi as int,
                    m,
                    d as nat,
                ));
            }
            c = c + 1;
        }
        let t = Tensor {
            point: self.point.clone(),
            var: contracted_kinds(&joined, lo, hi),
            comps,
        };
        proof {
            assert(t@.comps =~= trace_model(prod, lo as int, hi as int).comps);
            assert(contracted(prod.var, lo as int, hi as int).len() == rank - 2);
        }
        Ok(t)
    }
}

/// `0 / x == 0` and `0 % x == 0` for a positive divisor.
proof fn lemma_div_of0_mods(x: int)
    requires
        x >= 1,
    ensures
        0int / x == 0,
        0int % x == 0,
{
    vstd::arithmetic::div_mod::lemma_div_of0(x);
    vstd::arithmetic::div_mod::lemma_small_mod(0, x as nat);
}

/// The trace-template offset `((q1*sl)*d)*d + (q2*sh)*d + q3`, regrouped as
/// the insertion lemmas state it, with each partial product bounded by the
/// whole when everything is nonnegative.
proof fn lemma_template_shape(q1: int, q2: int, q3: int, sl: int, sh: int, d: int)
    requires
        q1 >= 0,
        q2 >= 0,
        q3 >= 0,
        sl >= 1,
        sh >= 1,
        d >= 1,
    ensures
        ((q1 * sl) * d) * d + (q2 * sh) * d + q3 == q1 * (sl * d * d) + q2 * (sh * d) + q3,
        0 <= q1 * sl <= q1 * (sl * d * d),
        0 <= (q1 * sl) * d <= q1 * (sl * d * d),
        0 <= q2 * sh <= q2 * (sh * d),
        0 <= q1 * (sl * d * d),
        0 <= q2 * (sh * d),
{
    assert(((q1 * sl) * d) * d == q1 * (sl * d * d) && (q2 * sh) * d == q2 * (sh * d) && 0 <= q1
        * sl <= q1 * (sl * d * d) && 0 <= (q1 * sl) * d <= q1 * (sl * d * d) && 0 <= q2 * sh <= q2
        * (sh * d)) by (nonlinear_arith)
        requires
            q1 >= 0,
            q2 >= 0,
            sl >= 1,
            sh >= 1,
            d >= 1,
    ;
}

/// The single-insertion offset `(q*s)*d + r`, regrouped as the insertion
/// lemma states it, with the partial product bounded by the whole.
proof fn lemma_split_shape(q: int, r: int, s: int, d: int)
    requires
        q >= 0,
        r >= 0,
        s >= 1,
        d >= 1,
    ensures
        (q * s) * d + r == q * (s * d) + r,
        0 <= q * s <= q * (s * d),
        0 <= q * (s * d),
{
    assert((q * s) * d == q * (s * d) && 0 <= q * s <= q * (s * d)) by (nonlinear_arith)
        requires
            q >= 0,
            s >= 1,
            d >= 1,
    ;
}

} // verus!
