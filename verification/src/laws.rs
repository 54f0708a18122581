//! The algebraic laws of the engine, stated over the mathematical models
//! that the executable operations are specified against, and proved once for
//! all inputs.

use vstd::prelude::*;

verus! {

use vstd::arithmetic::power::{pow, lemma_pow0};
use vstd::arithmetic::mul::{
    lemma_mul_is_associative, lemma_mul_is_distributive_add_other_way, lemma_mul_basics,
};
use vstd::arithmetic::div_mod::{
    lemma_fundamental_div_mod, lemma_fundamental_div_mod_converse, lemma_mod_bound,
    lemma_div_pos_is_pos, lemma_multiply_divide_lt,
};
use crate::indexing::{unflat, is_index, lemma_flat_single};
use crate::tensor::{TensorView, add_model, zero_model};
use crate::matrix::{transpose_model, unit_model, lemma_pow_two, lemma_unit_at};
use crate::convert::{conv_psum, conv_pprod, conv_weight, conv_shapes_ok, convert_model, at2};
use vstd::arithmetic::mul::{lemma_mul_is_commutative, lemma_mul_is_distributive_add};
use crate::algebra::{
    product_model, trace_model, trace_psum, trace_term, lemma_product_at, lemma_product_wf,
    lemma_trace_at,
};
use crate::variance::{IndexKind, flip};

/// Addition of compatible tensors is associative:
/// `(a + b) + c == a + (b + c)`.
pub proof fn lemma_add_assoc(a: TensorView, b: TensorView, c: TensorView)
    requires
        a.wf(),
        b.wf(),
        c.wf(),
        a.combinable(b),
        a.combinable(c),
    ensures
        add_model(add_model(a, b), c) == add_model(a, add_model(b, c)),
{
    assert(add_model(add_model(a, b), c).comps =~= add_model(a, add_model(b, c)).comps);
}

/// Addition of compatible tensors is commutative: `a + b == b + a`.
pub proof fn lemma_add_comm(a: TensorView, b: TensorView)
    requires
        a.wf(),
        b.wf(),
        a.combinable(b),
    ensures
        add_model(a, b) == add_model(b, a),
{
    assert(add_model(a, b).comps =~= add_model(b, a).comps);
}

/// The all-zero tensor is the identity of addition: `a + 0 == a`.
pub proof fn lemma_add_zero(a: TensorView)
    requires
        a.wf(),
    ensures
        add_model(a, zero_model(a.point, a.var)) == a,
{
    assert(add_model(a, zero_model(a.point, a.var)).comps =~= a.comps);
}

/// Transposition is an involution: `transpose(transpose(a)) == a` for every
/// rank-2 tensor.
pub proof fn lemma_transpose_involution(t: TensorView)
    requires
        t.wf(),
        t.rank() == 2,
    ensures
        transpose_model(transpose_model(t)) == t,
{
    let d = t.dim();
    let tt = transpose_model(t);
    let back = transpose_model(tt);
    lemma_pow_two(d);
    assert(back.var =~= t.var);
    assert forall|c: int| 0 <= c < t.comps.len() implies back.comps[c] == t.comps[c] by {
        let x = (c % d) * d + c / d;
        lemma_div_pos_is_pos(c, d);
        lemma_mod_bound(c, d);
        lemma_multiply_divide_lt(c, d, d);
        lemma_fundamental_div_mod_converse(x, d, c % d, c / d);
        lemma_fundamental_div_mod(c, d);
        vstd::arithmetic::mul::lemma_mul_is_commutative(d, c / d);
        assert(0 <= x < d * d) by (nonlinear_arith)
            requires
                0 <= c % d < d,
                0 <= c / d < d,
                x == (c % d) * d + c / d,
        ;
    }
    assert(back.comps =~= t.comps);
}

/// Contracting the unit tensor over its two slots yields the scalar equal to
/// the dimension.
pub proof fn lemma_trace_unit(p: Seq<int>)
    requires
        p.len() >= 1,
    ensures
        trace_model(unit_model(p), 0, 1) == (TensorView {
            point: p,
            var: Seq::<IndexKind>::empty(),
            comps: seq![p.len() as int],
        }),
{
    let u = unit_model(p);
    let d = p.len() as int;
    lemma_pow_two(d);
    lemma_pow0(d);
    let tm = trace_model(u, 0, 1);
    assert(tm.var =~= Seq::<IndexKind>::empty());
    assert(unflat(0, d, 0nat) =~= Seq::<int>::empty());
    lemma_unit_psum(p, d as nat);
    assert(tm.comps =~= seq![d]);
}

/// The contraction sum of the unit tensor counts one per summation value.
proof fn lemma_unit_psum(p: Seq<int>, n: nat)
    requires
        p.len() >= 1,
        n <= p.len(),
    ensures
        trace_psum(unit_model(p), 0, 1, Seq::<int>::empty(), n) == n,
    decreases n,
{
    if n > 0 {
        let u = unit_model(p);
        let d = p.len() as int;
        let i = n - 1;
        lemma_unit_psum(p, (n - 1) as nat);
        let e = Seq::<int>::empty();
        assert(e.insert(0, i) =~= seq![i]);
        assert(seq![i].insert(1, i) =~= seq![i, i]);
        lemma_unit_at(p, i, i);
        assert(trace_term(u, 0, 1, e, i) == 1);
    }
}

/// One entry of a matrix product: the sum over `k < n` of
/// `a[i, k] * b[k, j]`.
pub open spec fn mat_entry_psum(a: TensorView, b: TensorView, i: int, j: int, n: nat) -> int
    decreases n,
{
    if n == 0 {
        0
    } else {
        mat_entry_psum(a, b, i, j, (n - 1) as nat) + at2(a, i, n - 1) * at2(b, n - 1, j)
    }
}

/// `a * b` is exactly the unit matrix.
pub open spec fn exactly_inverse(a: TensorView, b: TensorView) -> bool {
    forall|i: int, j: int|
        0 <= i < a.dim() && 0 <= j < a.dim() ==> #[trigger] mat_entry_psum(
            a,
            b,
            i,
            j,
            a.dim() as nat,
        ) == if i == j {
            1int
        } else {
            0int
        }
}

/// The rank-1 conversion sum with one weight matrix: the sum over `i < n` of
/// `v[i] * w[o, i]`.
spec fn lin_psum(v: Seq<int>, w: TensorView, o: int, n: nat) -> int
    decreases n,
{
    if n == 0 {
        0
    } else {
        lin_psum(v, w, o, (n - 1) as nat) + v[n - 1] * at2(w, o, n - 1)
    }
}

/// For a rank-1 tensor, the conversion sum is the plain weighted sum with
/// the one slot's weight matrix.
proof fn lemma_rank1_conv_psum(t: TensorView, jac: TensorView, inv: TensorView, o: int, n: nat)
    requires
        t.wf(),
        t.rank() == 1,
        conv_shapes_ok(t, jac, inv),
        0 <= o < t.dim(),
        n <= t.dim(),
    ensures
        conv_psum(t, jac, inv, o, n) == lin_psum(
            t.comps,
            if t.var[0] == IndexKind::Contravariant {
                jac
            } else {
                inv
            },
            o,
            n,
        ),
    decreases n,
{
    let d = t.dim();
    if n > 0 {
        lemma_rank1_conv_psum(t, jac, inv, o, (n - 1) as nat);
        let j = n - 1;
        // The one digit of a rank-1 offset is the offset itself.
        assert(unflat(o / d, d, 0nat) =~= Seq::<int>::empty());
        assert(unflat(j / d, d, 0nat) =~= Seq::<int>::empty());
        assert(unflat(o, d, 1nat) =~= seq![o % d]);
        assert(unflat(j, d, 1nat) =~= seq![j % d]);
        vstd::arithmetic::div_mod::lemma_small_mod(o as nat, d as nat);
        vstd::arithmetic::div_mod::lemma_small_mod(j as nat, d as nat);
        assert(conv_pprod(t, jac, inv, o, j, 0nat) == t.comps[j]);
        assert(conv_pprod(t, jac, inv, o, j, 1nat) == t.comps[j] * conv_weight(
            t.var[0],
            jac,
            inv,
            o,
            j,
        ));
    }
}

/// The weighted sum against one row of a zero-length matrix product is zero.
proof fn lemma_row_psum_zero(v: Seq<int>, w2: TensorView, w1: TensorView, o: int, nj: nat)
    ensures
        row_psum(v, w2, w1, o, 0, nj) == 0,
    decreases nj,
{
    if nj > 0 {
        lemma_row_psum_zero(v, w2, w1, o, (nj - 1) as nat);
        lemma_mul_basics(v[nj - 1]);
    }
}

/// The sum over `j < nj` of `v[j] * (w2 * w1)[o, j]`, with the matrix
/// product entries summed over `i < ni`.
spec fn row_psum(v: Seq<int>, w2: TensorView, w1: TensorView, o: int, ni: nat, nj: nat) -> int
    decreases nj,
{
    if nj == 0 {
        0
    } else {
        row_psum(v, w2, w1, o, ni, (nj - 1) as nat) + v[nj - 1] * mat_entry_psum(
            w2,
            w1,
            o,
            nj - 1,
            ni,
        )
    }
}

/// The nested conversion sum: over `i < ni`, the inner conversion sum of `v`
/// through `w1` at row `i`, weighted by `w2[o, i]`.
spec fn nested_psum(v: Seq<int>, w1: TensorView, w2: TensorView, o: int, ni: nat, nj: nat) -> int
    decreases ni,
{
    if ni == 0 {
        0
    } else {
        nested_psum(v, w1, w2, o, (ni - 1) as nat, nj) + lin_psum(v, w1, ni - 1, nj) * at2(
            w2,
            o,
            ni - 1,
        )
    }
}

/// A constant factor moves out of a weighted sum.
proof fn lemma_lin_psum_factor(v: Seq<int>, w1: TensorView, i: int, c: int, nj: nat)
    ensures
        sum_times(v, w1, i, c, nj) == lin_psum(v, w1, i, nj) * c,
    decreases nj,
{
    if nj == 0 {
        lemma_mul_basics(c);
        assert(0int * c == 0) by (nonlinear_arith);
    } else {
        lemma_lin_psum_factor(v, w1, i, c, (nj - 1) as nat);
        let prev = lin_psum(v, w1, i, (nj - 1) as nat);
        let term = v[nj - 1] * at2(w1, i, nj - 1);
        assert((prev + term) * c == prev * c + term * c) by {
            lemma_mul_is_distributive_add_other_way(c, prev, term);
        }
        assert((v[nj - 1] * at2(w1, i, nj - 1)) * c == v[nj - 1] * (at2(w1, i, nj - 1) * c)) by {
            lemma_mul_is_associative(v[nj - 1], at2(w1, i, nj - 1), c);
        }
    }
}

/// The sum over `j < nj` of `v[j] * (w1[i, j] * c)`.
spec fn sum_times(v: Seq<int>, w1: TensorView, i: int, c: int, nj: nat) -> int
    decreases nj,
{
    if nj == 0 {
        0
    } else {
        sum_times(v, w1, i, c, (nj - 1) as nat) + v[nj - 1] * (at2(w1, i, nj - 1) * c)
    }
}

/// Extending every matrix-product entry by one summand adds the matching
/// weighted sum.
proof fn lemma_row_psum_step(v: Seq<int>, w2: TensorView, w1: TensorView, o: int, ni: nat, nj: nat)
    ensures
        row_psum(v, w2, w1, o, ni + 1, nj) == row_psum(v, w2, w1, o, ni, nj) + sum_times(
            v,
            w1,
            ni as int,
            at2(w2, o, ni as int),
            nj,
        ),
    decreases nj,
{
    if nj > 0 {
        lemma_row_psum_step(v, w2, w1, o, ni, (nj - 1) as nat);
        let j = nj - 1;
        let c = at2(w2, o, ni as int);
        let w = at2(w1, ni as int, j);
        assert(v[j] * (mat_entry_psum(w2, w1, o, j, ni) + c * w) == v[j] * mat_entry_psum(
            w2,
            w1,
            o,
            j,
            ni,
        ) + v[j] * (c * w)) by {
            lemma_mul_is_distributive_add(v[j], mat_entry_psum(w2, w1, o, j, ni), c * w);
        }
        assert(v[j] * (c * w) == v[j] * (w * c)) by {
            lemma_mul_is_commutative(c, w);
        }
    }
}

/// The two nestings of the round-trip double sum are equal: summing the
/// converted components against the second weight matrix is summing the
/// source components against the product of the two matrices.
proof fn lemma_swap_sums(v: Seq<int>, w1: TensorView, w2: TensorView, o: int, ni: nat, nj: nat)
    ensures
        nested_psum(v, w1, w2, o, ni, nj) == row_psum(v, w2, w1, o, ni, nj),
    decreases ni,
{
    if ni == 0 {
        lemma_row_psum_zero(v, w2, w1, o, nj);
    } else {
        lemma_swap_sums(v, w1, w2, o, (ni - 1) as nat, nj);
        lemma_row_psum_step(v, w2, w1, o, (ni - 1) as nat, nj);
        lemma_lin_psum_factor(v, w1, ni - 1, at2(w2, o, ni - 1), nj);
    }
}

/// Against exact unit-matrix-product entries, the weighted sum collapses to
/// the one component it selects.
proof fn lemma_row_psum_collapse(
    v: Seq<int>,
    w2: TensorView,
    w1: TensorView,
    o: int,
    d: nat,
    nj: nat,
)
    requires
        forall|j: int|
            0 <= j < nj ==> #[trigger] mat_entry_psum(w2, w1, o, j, d) == if o == j {
                1int
            } else {
                0int
            },
    ensures
        row_psum(v, w2, w1, o, d, nj) == if 0 <= o < nj {
            v[o]
        } else {
            0
        },
    decreases nj,
{
    if nj > 0 {
        lemma_row_psum_collapse(v, w2, w1, o, d, (nj - 1) as nat);
        lemma_mul_basics(v[nj - 1]);
    }
}

/// Round-trip coordinate conversion is exact for a rank-1 tensor when the
/// second Jacobian pair exactly inverts the first: converting through
/// `(j1, i1)` and back through `(j2, i2)` with `j2 * j1` and `i2 * i1` both
/// the unit matrix reproduces every component.
pub proof fn lemma_convert_round_trip_rank1(
    t: TensorView,
    j1: TensorView,
    i1: TensorView,
    j2: TensorView,
    i2: TensorView,
)
    requires
        t.wf(),
        j1.wf(),
        i1.wf(),
        j2.wf(),
        i2.wf(),
        t.rank() == 1,
        conv_shapes_ok(t, j1, i1),
        conv_shapes_ok(convert_model(t, j1, i1), j2, i2),
        exactly_inverse(j2, j1),
        exactly_inverse(i2, i1),
    ensures
        convert_model(convert_model(t, j1, i1), j2, i2).comps == t.comps,
        convert_model(convert_model(t, j1, i1), j2, i2).var == t.var,
{
    let d = t.dim();
    let c1 = convert_model(t, j1, i1);
    let c2 = convert_model(c1, j2, i2);
    let w1 = if t.var[0] == IndexKind::Contravariant {
        j1
    } else {
        i1
    };
    let w2 = if t.var[0] == IndexKind::Contravariant {
        j2
    } else {
        i2
    };
    assert(t.comps.len() == d) by {
        vstd::arithmetic::power::lemma_pow1(d);
    }
    assert(c1.wf());
    // Each converted component is the plain weighted sum through w1.
    assert forall|i: int| 0 <= i < d implies #[trigger] c1.comps[i] == lin_psum(
        t.comps,
        w1,
        i,
        d as nat,
    ) by {
        lemma_rank1_conv_psum(t, j1, i1, i, d as nat);
    }
    assert forall|o: int| 0 <= o < d implies #[trigger] c2.comps[o] == t.comps[o] by {
        lemma_rank1_conv_psum(c1, j2, i2, o, d as nat);
        lemma_lin_is_nested(t.comps, c1.comps, w1, w2, o, d as nat, d as nat);
        lemma_swap_sums(t.comps, w1, w2, o, d as nat, d as nat);
        lemma_row_psum_collapse(t.comps, w2, w1, o, d as nat, d as nat);
    }
    assert(c2.comps =~= t.comps);
}

/// Summing the converted components through the second matrix is the nested
/// double sum of the source components.
proof fn lemma_lin_is_nested(
    v: Seq<int>,
    c1: Seq<int>,
    w1: TensorView,
    w2: TensorView,
    o: int,
    ni: nat,
    nj: nat,
)
    requires
        forall|i: int| 0 <= i < ni ==> #[trigger] c1[i] == lin_psum(v, w1, i, nj),
    ensures
        lin_psum(c1, w2, o, ni) == nested_psum(v, w1, w2, o, ni, nj),
    decreases ni,
{
    if ni > 0 {
        lemma_lin_is_nested(v, c1, w1, w2, o, (ni - 1) as nat, nj);
    }
}

/// The dot product of two rank-1 component arrays, over the first `n`
/// entries.
pub open spec fn dot_psum(v: TensorView, w: TensorView, n: nat) -> int
    decreases n,
{
    if n == 0 {
        0
    } else {
        dot_psum(v, w, (n - 1) as nat) + v.comps[n - 1] * w.comps[n - 1]
    }
}

/// Contraction is index-insertion-consistent on a fourfold outer product of
/// rank-1 tensors: contracting the first two slots of `v ⊗ w ⊗ v ⊗ v`
/// leaves, at every remaining multi-index `(c, e)`, the dot product of `v`
/// and `w` times `v[c] * v[e]`.  The first two slots must carry opposite
/// kinds to be contractible.
pub proof fn lemma_outer_product_trace(v: TensorView, w: TensorView, c: int, e: int)
    requires
        v.wf(),
        w.wf(),
        v.rank() == 1,
        w.rank() == 1,
        w.point == v.point,
        v.var[0] == flip(w.var[0]),
        0 <= c < v.dim(),
        0 <= e < v.dim(),
    ensures
        ({
            let t4 = product_model(product_model(product_model(v, w), v), v);
            trace_model(t4, 0, 1).at(seq![c, e]) == dot_psum(v, w, v.dim() as nat) * (v.comps[c]
                * v.comps[e])
        }),
{
    let d = v.dim();
    let t2 = product_model(v, w);
    let t3 = product_model(t2, v);
    let t4 = product_model(t3, v);
    lemma_product_wf(v, w);
    lemma_product_wf(t2, v);
    lemma_product_wf(t3, v);
    assert(t4.var[0] == v.var[0] && t4.var[1] == w.var[0]) by {
        assert(t2.var =~= v.var + w.var);
    }
    let m = seq![c, e];
    assert(is_index(m, d, 2));
    lemma_trace_at(t4, 0, 1, m);
    lemma_outer_psum(v, w, c, e, d as nat);
}

/// The inductive core of `lemma_outer_product_trace`.
proof fn lemma_outer_psum(v: TensorView, w: TensorView, c: int, e: int, n: nat)
    requires
        v.wf(),
        w.wf(),
        v.rank() == 1,
        w.rank() == 1,
        w.point == v.point,
        0 <= c < v.dim(),
        0 <= e < v.dim(),
        n <= v.dim(),
    ensures
        ({
            let t4 = product_model(product_model(product_model(v, w), v), v);
            trace_psum(t4, 0, 1, seq![c, e], n) == dot_psum(v, w, n) * (v.comps[c] * v.comps[e])
        }),
    decreases n,
{
    let d = v.dim();
    let t2 = product_model(v, w);
    let t3 = product_model(t2, v);
    let t4 = product_model(t3, v);
    lemma_product_wf(v, w);
    lemma_product_wf(t2, v);
    lemma_product_wf(t3, v);
    let vc = v.comps[c];
    let ve = v.comps[e];
    if n == 0 {
        lemma_mul_basics(vc * ve);
    } else {
        let i = n - 1;
        lemma_outer_psum(v, w, c, e, (n - 1) as nat);
        // The inserted source multi-index is (i, i, c, e).
        let m = seq![c, e];
        assert(m.insert(0, i) =~= seq![i, c, e]);
        assert(seq![i, c, e].insert(1, i) =~= seq![i, i, c, e]);
        // Peel the outer product one factor at a time.
        assert(is_index(seq![i], d, 1));
        assert(is_index(seq![c], d, 1));
        assert(is_index(seq![e], d, 1));
        assert(is_index(seq![i, i], d, 2));
        assert(is_index(seq![i, i, c], d, 3));
        lemma_product_at(t3, v, seq![i, i, c], seq![e]);
        assert(seq![i, i, c] + seq![e] =~= seq![i, i, c, e]);
        lemma_product_at(t2, v, seq![i, i], seq![c]);
        assert(seq![i, i] + seq![c] =~= seq![i, i, c]);
        lemma_product_at(v, w, seq![i], seq![i]);
        assert(seq![i] + seq![i] =~= seq![i, i]);
        lemma_flat_single(i, d);
        lemma_flat_single(c, d);
        lemma_flat_single(e, d);
        let vi = v.comps[i];
        let wi = w.comps[i];
        assert(trace_term(t4, 0, 1, m, i) == ((vi * wi) * vc) * ve);
        assert(((vi * wi) * vc) * ve == (vi * wi) * (vc * ve)) by {
            lemma_mul_is_associative(vi * wi, vc, ve);
        }
        assert((dot_psum(v, w, (n - 1) as nat) + vi * wi) * (vc * ve) == dot_psum(
            v,
            w,
            (n - 1) as nat,
        ) * (vc * ve) + (vi * wi) * (vc * ve)) by {
            lemma_mul_is_distributive_add_other_way(vc * ve, dot_psum(v, w, (n - 1) as nat), vi * wi);
        }
    }
}

} // verus!
