//! Rank-2 operations: transposition and the unit (Kronecker-delta) tensor.

use vstd::prelude::*;

verus! {

use vstd::arithmetic::power::{pow, lemma_pow1, lemma_pow_adds};
use vstd::arithmetic::div_mod::{
    lemma_fundamental_div_mod_converse, lemma_mod_bound, lemma_div_pos_is_pos,
    lemma_multiply_divide_lt,
};
use crate::TensorError;
use crate::indexing::{flat, lemma_flat_single};
use crate::point::Point;
use crate::tensor::{Tensor, TensorView};
use crate::variance::IndexKind;

/// The transpose of a rank-2 tensor: the two slots swap, in the variance and
/// in the components, so the component at `(i, j)` is the source's at
/// `(j, i)`.
pub open spec fn transpose_model(t: TensorView) -> TensorView {
    let d = t.dim();
    TensorView {
        point: t.point,
        var: seq![t.var[1], t.var[0]],
        comps: Seq::new(t.comps.len(), |c: int| t.comps[(c % d) * d + c / d]),
    }
}

/// The unit tensor at a point: a mixed-variance rank-2 tensor with 1 on the
/// diagonal and 0 elsewhere.
pub open spec fn unit_model(point: Seq<int>) -> TensorView {
    let d = point.len() as int;
    TensorView {
        point,
        var: seq![IndexKind::Contravariant, IndexKind::Covariant],
        comps: Seq::new((d * d) as nat, |c: int| if c / d == c % d { 1 } else { 0 }),
    }
}

/// A rank-2 multi-index `(i, j)` flattens to `i * d + j`.
pub proof fn lemma_flat_pair(i: int, j: int, d: int)
    ensures
        flat(seq![i, j], d) == i * d + j,
{
    let m = seq![i, j];
    assert(m.drop_last() =~= seq![i]);
    lemma_flat_single(i, d);
}

/// The transpose, read at a multi-index: the source at the swapped one.
pub proof fn lemma_transpose_at(t: TensorView, i: int, j: int)
    requires
        t.wf(),
        t.rank() == 2,
        0 <= i < t.dim(),
        0 <= j < t.dim(),
    ensures
        transpose_model(t).at(seq![i, j]) == t.at(seq![j, i]),
{
    let d = t.dim();
    lemma_flat_pair(i, j, d);
    lemma_flat_pair(j, i, d);
    lemma_pow_two(d);
    assert(0 <= i * d + j < d * d && 0 <= j * d + i < d * d) by (nonlinear_arith)
        requires
            0 <= i < d,
            0 <= j < d,
    ;
    lemma_fundamental_div_mod_converse(i * d + j, d, i, j);
}

/// The unit tensor, read at a multi-index: 1 on the diagonal, 0 elsewhere.
pub proof fn lemma_unit_at(point: Seq<int>, i: int, j: int)
    requires
        point.len() >= 1,
        0 <= i < point.len(),
        0 <= j < point.len(),
    ensures
        unit_model(point).at(seq![i, j]) == if i == j {
            1int
        } else {
            0int
        },
{
    let d = point.len() as int;
    lemma_flat_pair(i, j, d);
    assert(0 <= i * d + j < d * d) by (nonlinear_arith)
        requires
            0 <= i < d,
            0 <= j < d,
    ;
    lemma_fundamental_div_mod_converse(i * d + j, d, i, j);
}

/// `d^2 == d * d`.
pub proof fn lemma_pow_two(d: int)
    ensures
        pow(d, 2) == d * d,
{
    lemma_pow1(d);
    lemma_pow_adds(d, 1, 1);
}

impl Tensor {
    /// The transpose of a rank-2 tensor: slots swapped in the variance and
    /// in the components.  Any other rank is reported as `ShapeMismatch`.
    pub fn transpose(&self) -> (r: Result<Tensor, TensorError>)
        requires
            self.wf(),
        ensures
            r is Ok <==> self@.rank() == 2,
            r matches Ok(t) ==> t.wf() && t@ == transpose_model(self@),
            r matches Err(e) ==> e == TensorError::ShapeMismatch,
    {
        if self.var.len() != 2 {
            return Err(TensorError::ShapeMismatch);
        }
        let ghost tv = self@;
        let d = self.point.dimension();
        let n = self.comps.len();
        proof {
            assert(n == tv.comps.len());
            lemma_pow_two(d as int);
        }
        let mut comps: Vec<i64> = Vec::new();
        let mut c: usize = 0;
        while c < n
            invariant
                tv == self@,
                self.wf(),
                tv.rank() == 2,
                d as int == tv.dim(),
                n == tv.comps.len(),
                n as int == d as int * d as int,
                comps@.len() == c <= n,
                forall|t: int|
                    0 <= t < c ==> comps@[t] as int == #[trigger] transpose_model(tv).comps[t],
            decreases n - c,
        {
            let i = c / d;
            let j = c % d;
            proof {
                lemma_div_pos_is_pos(c as int, d as int);
                lemma_mod_bound(c as int, d as int);
                lemma_multiply_divide_lt(c as int, d as int, d as int);
                assert(j as int * d as int + i < d as int * d as int) by (nonlinear_arith)
                    requires
                        0 <= i < d,
                        0 <= j < d,
                ;
                assert(tv.comps[(j * d + i) as int] == self.comps@[(j * d + i) as int] as int);
            }
            let v = self.comps[j * d + i];
            comps.push(v);
            c = c + 1;
        }
        let mut var: Vec<IndexKind> = Vec::new();
        var.push(self.var[1]);
        var.push(self.var[0]);
        let t = Tensor { point: self.point.clone(), var, comps };
        proof {
            assert(t@.var =~= transpose_model(tv).var);
            assert(t@.comps =~= transpose_model(tv).comps);
        }
        Ok(t)
    }

    /// The unit tensor at `point`: mixed-variance rank 2, with 1 on the
    /// diagonal and 0 elsewhere.
    pub fn unit(point: Point) -> (t: Tensor)
        requires
            point@.len() >= 1,
            point@.len() * point@.len() <= usize::MAX,
        ensures
            t.wf(),
            t@ == unit_model(point@),
    {
        let d = point.dimension();
        let n = d * d;
        let mut comps: Vec<i64> = Vec::new();
        let mut c: usize = 0;
        while c < n
            invariant
                d as int == point@.len(),
                n == d * d,
                comps@.len() == c <= n,
                forall|t: int|
                    0 <= t < c ==> comps@[t] as int == #[trigger] unit_model(point@).comps[t],
            decreases n - c,
        {
            let i = c / d;
            let j = c % d;
            let v: i64 = if i == j {
                1
            } else {
                0
            };
            comps.push(v);
            c = c + 1;
        }
        let mut var: Vec<IndexKind> = Vec::new();
        var.push(IndexKind::Contravariant);
        var.push(IndexKind::Covariant);
        let t = Tensor { point, var, comps };
        proof {
            lemma_pow_two(d as int);
            assert(t@.var =~= unit_model(t.point@).var);
            assert(t@.comps =~= unit_model(t.point@).comps);
        }
        t
    }
}

} // verus!
