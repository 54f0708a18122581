//! The tensor data structure: a dense component array anchored at a point,
//! tagged with a variance descriptor.
//!
//! The component array always has length `dimension^rank` and is ordered
//! row-major (see `crate::indexing`).  Componentwise arithmetic demands equal
//! anchor points and equal variance; shape and index misuse is reported as a
//! `TensorError`.

use vstd::prelude::*;

verus! {

use vstd::arithmetic::power::pow;
use vstd::arithmetic::div_mod::{lemma_div_nonincreasing, lemma_div_pos_is_pos};
use vstd::math::abs;
use crate::TensorError;
use crate::indexing::{
    flat, unflat, is_index, to_ints, scalar_ints, try_num_coords, flat_offset, unflat_index,
    lemma_flat_bounds,
};
use crate::point::{Point, copy_scalars};
use crate::variance::{IndexKind, copy_kinds};

/// The mathematical model of a tensor: the anchor point's coordinates, the
/// per-slot variance, and the flattened components, all as mathematical
/// integers.
pub struct TensorView {
    /// The coordinates of the anchor point.
    pub point: Seq<int>,
    /// The index kind of each slot; the rank is its length.
    pub var: Seq<IndexKind>,
    /// The components in canonical row-major order.
    pub comps: Seq<int>,
}

impl TensorView {
    /// The dimension of the tensor's coordinate system.
    pub open spec fn dim(self) -> int {
        self.point.len() as int
    }

    /// The rank: the number of index slots.
    pub open spec fn rank(self) -> int {
        self.var.len() as int
    }

    /// Well-formed: a positive dimension and exactly `dim^rank` components.
    pub open spec fn wf(self) -> bool {
        &&& self.point.len() >= 1
        &&& self.comps.len() == pow(self.dim(), self.rank() as nat)
    }

    /// The component at the multi-index `m`.
    pub open spec fn at(self, m: Seq<int>) -> int {
        self.comps[flat(m, self.dim())]
    }

    /// Two tensors may be combined componentwise: same anchor point and the
    /// same variance.
    pub open spec fn combinable(self, other: TensorView) -> bool {
        &&& self.point == other.point
        &&& self.var == other.var
    }
}

/// Every entry of `s` lies in `[-b, b]`.  The range lemmas beside each
/// operation turn one such uniform bound into the operation's overflow
/// preconditions.
pub open spec fn abs_bounded(s: Seq<int>, b: int) -> bool {
    forall|k: int| 0 <= k < s.len() ==> -b <= #[trigger] s[k] <= b
}

/// From uniform component bounds, every componentwise sum and difference
/// fits the scalar range: the forms `Tensor::add` and `Tensor::subtract` ask
/// their callers for.
pub proof fn lemma_componentwise_in_range(a: TensorView, b: TensorView, ba: int, bb: int)
    requires
        ba >= 0,
        bb >= 0,
        abs_bounded(a.comps, ba),
        abs_bounded(b.comps, bb),
        ba + bb <= i64::MAX,
    ensures
        forall|k: int|
            0 <= k < a.comps.len() && 0 <= k < b.comps.len() ==> i64::MIN <= #[trigger] (a.comps[k]
                + b.comps[k]) <= i64::MAX,
        forall|k: int|
            0 <= k < a.comps.len() && 0 <= k < b.comps.len() ==> i64::MIN <= #[trigger] (a.comps[k]
                - b.comps[k]) <= i64::MAX,
{
}

/// From a uniform component bound and a bound on the factor, every scaled
/// component fits the scalar range: the form `Tensor::scale` asks its
/// callers for.
pub proof fn lemma_scale_in_range(t: TensorView, b: int, s: int, bs: int)
    requires
        b >= 0,
        bs >= 0,
        abs_bounded(t.comps, b),
        -bs <= s <= bs,
        b * bs <= i64::MAX,
    ensures
        forall|k: int|
            0 <= k < t.comps.len() ==> i64::MIN <= #[trigger] (t.comps[k] * s) <= i64::MAX,
{
    assert forall|k: int| 0 <= k < t.comps.len() implies i64::MIN <= #[trigger] (t.comps[k] * s)
        <= i64::MAX by {
        assert(-(b * bs) <= t.comps[k] * s <= b * bs) by (nonlinear_arith)
            requires
                -b <= t.comps[k] <= b,
                -bs <= s <= bs,
                b >= 0,
                bs >= 0,
        ;
    }
}

/// The all-zero tensor at `point` with the variance `var`.
pub open spec fn zero_model(point: Seq<int>, var: Seq<IndexKind>) -> TensorView {
    TensorView {
        point,
        var,
        comps: Seq::new(pow(point.len() as int, var.len()) as nat, |k: int| 0),
    }
}

/// The componentwise sum of two combinable tensors.
pub open spec fn add_model(a: TensorView, b: TensorView) -> TensorView {
    TensorView {
        point: a.point,
        var: a.var,
        comps: Seq::new(a.comps.len(), |k: int| a.comps[k] + b.comps[k]),
    }
}

/// The componentwise difference of two combinable tensors.
pub open spec fn sub_model(a: TensorView, b: TensorView) -> TensorView {
    TensorView {
        point: a.point,
        var: a.var,
        comps: Seq::new(a.comps.len(), |k: int| a.comps[k] - b.comps[k]),
    }
}

/// The tensor scaled componentwise by `s`.
pub open spec fn scale_model(a: TensorView, s: int) -> TensorView {
    TensorView { point: a.point, var: a.var, comps: Seq::new(a.comps.len(), |k: int| a.comps[k] * s) }
}

/// The quotient of the host's integer division: the quotient of the
/// magnitudes, with the sign of the exact quotient — truncation toward zero.
pub open spec fn trunc_div(a: int, b: int) -> int {
    let q = abs(a) as int / abs(b) as int;
    if (a < 0) == (b < 0) {
        q
    } else {
        -q
    }
}

/// The tensor divided componentwise by `s`, each quotient truncated toward
/// zero.
pub open spec fn divide_model(a: TensorView, s: int) -> TensorView {
    TensorView {
        point: a.point,
        var: a.var,
        comps: Seq::new(a.comps.len(), |k: int| trunc_div(a.comps[k], s)),
    }
}

/// A tensor: a dense array of `dimension^rank` components anchored at a
/// point, with one index kind per slot.
pub struct Tensor {
    /// The anchor point; its length is the dimension.
    pub point: Point,
    /// The index kind of each slot.
    pub var: Vec<IndexKind>,
    /// The components in canonical row-major order.
    pub comps: Vec<i64>,
}

impl View for Tensor {
    type V = TensorView;

    open spec fn view(&self) -> TensorView {
        TensorView { point: self.point@, var: self.var@, comps: scalar_ints(self.comps@) }
    }
}

/// The magnitude of a scalar, as the unsigned machine word so that even the
/// smallest scalar has one.
fn magnitude(a: i64) -> (r: u64)
    ensures
        r as int == abs(a as int),
{
    if a >= 0 {
        a as u64
    } else {
        ((-(a + 1)) as u64) + 1
    }
}

/// Whether two variance descriptors are equal.
pub fn kinds_equal(a: &Vec<IndexKind>, b: &Vec<IndexKind>) -> (r: bool)
    ensures
        r == (a@ == b@),
{
    if a.len() != b.len() {
        return false;
    }
    let mut k: usize = 0;
    while k < a.len()
        invariant
            a@.len() == b@.len(),
            0 <= k <= a@.len(),
            forall|t: int| 0 <= t < k ==> a@[t] == b@[t],
        decreases a@.len() - k,
    {
        if a[k] != b[k] {
            return false;
        }
        k = k + 1;
    }
    proof {
        assert(a@ =~= b@);
    }
    true
}

impl Tensor {
    /// Well-formed: see `TensorView::wf`.
    pub open spec fn wf(self) -> bool {
        self@.wf()
    }

    /// Creates the all-zero tensor at `point` with the variance `var`.
    pub fn zero(point: Point, var: Vec<IndexKind>) -> (t: Tensor)
        requires
            point@.len() >= 1,
            pow(point@.len() as int, var@.len()) <= usize::MAX,
        ensures
            t.wf(),
            t@ == zero_model(point@, var@),
    {
        let d = point.dimension();
        let n = match try_num_coords(d, var.len()) {
            Some(n) => n,
            None => {
                proof {
                    assert(false);
                }
                0
            },
        };
        let mut comps: Vec<i64> = Vec::new();
        let mut k: usize = 0;
        while k < n
            invariant
                comps@.len() == k <= n,
                forall|t: int| 0 <= t < k ==> comps@[t] == 0i64,
            decreases n - k,
        {
            comps.push(0);
            k = k + 1;
        }
        let t = Tensor { point, var, comps };
        proof {
            assert forall|j: int| 0 <= j < t@.comps.len() implies t@.comps[j] == 0 by {}
            assert(t@.comps =~= zero_model(t.point@, t.var@).comps);
        }
        t
    }

    /// Creates the tensor at `point` with the variance `var` and the given
    /// flat components.  The component count must be exactly
    /// `dimension^rank` for a positive dimension; any other shape is
    /// reported as `ShapeMismatch`.
    pub fn new(point: Point, var: Vec<IndexKind>, comps: Vec<i64>) -> (r: Result<
        Tensor,
        TensorError,
    >)
        ensures
            r is Ok <==> point@.len() >= 1 && comps@.len() as int == pow(
                point@.len() as int,
                var@.len(),
            ),
            r matches Ok(t) ==> t.wf() && t@ == (TensorView {
                point: point@,
                var: var@,
                comps: scalar_ints(comps@),
            }),
            r matches Err(e) ==> e == TensorError::ShapeMismatch,
    {
        let d = point.dimension();
        if d == 0 {
            return Err(TensorError::ShapeMismatch);
        }
        let cl = comps.len();
        proof {
            assert(cl == comps@.len());
        }
        match try_num_coords(d, var.len()) {
            Some(n) if n == cl => Ok(Tensor { point, var, comps }),
            _ => Err(TensorError::ShapeMismatch),
        }
    }

    /// Creates the tensor at `point` with the variance `var`, copying the
    /// components from the slice.  See `Tensor::new` for the shape rule.
    pub fn from_slice(point: Point, var: Vec<IndexKind>, comps: &[i64]) -> (r: Result<
        Tensor,
        TensorError,
    >)
        ensures
            r is Ok <==> point@.len() >= 1 && comps@.len() as int == pow(
                point@.len() as int,
                var@.len(),
            ),
            r matches Ok(t) ==> t.wf() && t@ == (TensorView {
                point: point@,
                var: var@,
                comps: scalar_ints(comps@),
            }),
            r matches Err(e) ==> e == TensorError::ShapeMismatch,
    {
        Tensor::new(point, var, copy_scalars(comps))
    }

    /// The point at which the tensor is anchored.
    pub fn get_point(&self) -> (p: &Point)
        ensures
            p@ == self@.point,
    {
        &self.point
    }

    /// Re-anchors the tensor at `p`, a point of the same dimension.
    pub fn set_point(&mut self, p: Point)
        requires
            p@.len() == old(self)@.point.len(),
        ensures
            final(self)@.point == p@,
            final(self)@.var == old(self)@.var,
            final(self)@.comps == old(self)@.comps,
    {
        self.point = p;
    }

    /// The flat component array.
    pub fn coords_array(&self) -> (r: &Vec<i64>)
        ensures
            scalar_ints(r@) == self@.comps,
    {
        &self.comps
    }

    /// The variance descriptor.
    pub fn get_variance(&self) -> (r: &Vec<IndexKind>)
        ensures
            r@ == self@.var,
    {
        &self.var
    }

    /// The rank.
    pub fn get_rank(&self) -> (r: usize)
        ensures
            r as int == self@.rank(),
    {
        self.var.len()
    }

    /// The dimension of the tensor's coordinate system.
    pub fn dimension(&self) -> (d: usize)
        ensures
            d as int == self@.dim(),
    {
        self.point.dimension()
    }

    /// The number of components, `dimension^rank`.
    pub fn get_num_coords(&self) -> (n: usize)
        ensures
            n == self@.comps.len(),
    {
        self.comps.len()
    }

    /// The flat offset of the multi-index `idx`, reported as
    /// `IndexOutOfBounds` unless `idx` has exactly `rank` slots, each below
    /// the dimension.
    pub fn get_coord(&self, idx: &[usize]) -> (r: Result<usize, TensorError>)
        requires
            self.wf(),
        ensures
            r is Ok <==> is_index(to_ints(idx@), self@.dim(), self@.rank()),
            r matches Ok(f) ==> f as int == flat(to_ints(idx@), self@.dim()) && f
                < self@.comps.len(),
            r matches Err(e) ==> e == TensorError::IndexOutOfBounds,
    {
        if idx.len() != self.var.len() {
            return Err(TensorError::IndexOutOfBounds);
        }
        let cl = self.comps.len();
        proof {
            assert(cl == self@.comps.len());
        }
        let d = self.point.dimension();
        match flat_offset(idx, d) {
            Some(f) => {
                proof {
                    lemma_flat_bounds(to_ints(idx@), d as int);
                }
                Ok(f)
            },
            None => {
                proof {
                    if is_index(to_ints(idx@), d as int, idx@.len() as int) {
                        lemma_flat_bounds(to_ints(idx@), d as int);
                    }
                }
                Err(TensorError::IndexOutOfBounds)
            },
        }
    }

    /// The component at the multi-index `idx`.
    pub fn get(&self, idx: &[usize]) -> (r: Result<i64, TensorError>)
        requires
            self.wf(),
        ensures
            r is Ok <==> is_index(to_ints(idx@), self@.dim(), self@.rank()),
            r matches Ok(v) ==> v as int == self@.at(to_ints(idx@)),
            r matches Err(e) ==> e == TensorError::IndexOutOfBounds,
    {
        match self.get_coord(idx) {
            Ok(f) => Ok(self.comps[f]),
            Err(e) => Err(e),
        }
    }

    /// Replaces the component at the multi-index `idx`.
    pub fn set(&mut self, idx: &[usize], val: i64) -> (r: Result<(), TensorError>)
        requires
            old(self).wf(),
        ensures
            final(self).wf(),
            r is Ok <==> is_index(to_ints(idx@), old(self)@.dim(), old(self)@.rank()),
            r is Ok ==> final(self)@ == (TensorView {
                comps: old(self)@.comps.update(flat(to_ints(idx@), old(self)@.dim()), val as int),
                ..old(self)@
            }),
            r matches Err(e) ==> e == TensorError::IndexOutOfBounds && final(self)@ == old(self)@,
    {
        match self.get_coord(idx) {
            Ok(f) => {
                self.comps.set(f, val);
                proof {
                    assert(self@.comps =~= old(self)@.comps.update(
                        flat(to_ints(idx@), old(self)@.dim()),
                        val as int,
                    ));
                }
                Ok(())
            },
            Err(e) => Err(e),
        }
    }

    /// The component at the flat offset `i`.
    pub fn get_flat(&self, i: usize) -> (r: Result<i64, TensorError>)
        ensures
            r is Ok <==> i < self@.comps.len(),
            r matches Ok(v) ==> v as int == self@.comps[i as int],
            r matches Err(e) ==> e == TensorError::IndexOutOfBounds,
    {
        if i < self.comps.len() {
            Ok(self.comps[i])
        } else {
            Err(TensorError::IndexOutOfBounds)
        }
    }

    /// The componentwise sum.  Both tensors must be anchored at the same
    /// point (else `IncompatiblePoints`) and carry the same variance (else
    /// `ShapeMismatch`).
    pub fn add(&self, other: &Tensor) -> (r: Result<Tensor, TensorError>)
        requires
            self.wf(),
            other.wf(),
            self@.combinable(other@) ==> forall|k: int|
                0 <= k < self@.comps.len() ==> i64::MIN <= #[trigger] (self@.comps[k]
                    + other@.comps[k]) <= i64::MAX,
        ensures
            r is Ok <==> self@.combinable(other@),
            r matches Ok(t) ==> t.wf() && t@ == add_model(self@, other@),
            (r == Err::<Tensor, TensorError>(TensorError::IncompatiblePoints) <==> self@.point
                != other@.point),
            (r == Err::<Tensor, TensorError>(TensorError::ShapeMismatch) <==> self@.point
                == other@.point && self@.var != other@.var),
    {
        if !(self.point == other.point) {
            return Err(TensorError::IncompatiblePoints);
        }
        if !kinds_equal(&self.var, &other.var) {
            return Err(TensorError::ShapeMismatch);
        }
        let n = self.comps.len();
        let mut comps: Vec<i64> = Vec::new();
        let mut k: usize = 0;
        while k < n
            invariant
                self.wf(),
                other.wf(),
                self@.combinable(other@),
                forall|t: int|
                    0 <= t < self@.comps.len() ==> i64::MIN <= #[trigger] (self@.comps[t]
                        + other@.comps[t]) <= i64::MAX,
                n == self@.comps.len(),
                other@.comps.len() == n,
                comps@.len() == k <= n,
                forall|t: int|
                    0 <= t < k ==> comps@[t] as int == self@.comps[t] + other@.comps[t],
            decreases n - k,
        {
            proof {
                assert(self@.comps[k as int] == self.comps@[k as int] as int);
                assert(other@.comps[k as int] == other.comps@[k as int] as int);
            }
            let v = self.comps[k] + other.comps[k];
            comps.push(v);
            k = k + 1;
        }
        let t = Tensor { point: self.point.clone(), var: copy_kinds(&self.var), comps };
        proof {
            assert(t@.comps =~= add_model(self@, other@).comps);
        }
        Ok(t)
    }

    /// The componentwise difference.  The shape rules of `Tensor::add`.
    pub fn subtract(&self, other: &Tensor) -> (r: Result<Tensor, TensorError>)
        requires
            self.wf(),
            other.wf(),
            self@.combinable(other@) ==> forall|k: int|
                0 <= k < self@.comps.len() ==> i64::MIN <= #[trigger] (self@.comps[k]
                    - other@.comps[k]) <= i64::MAX,
        ensures
            r is Ok <==> self@.combinable(other@),
            r matches Ok(t) ==> t.wf() && t@ == sub_model(self@, other@),
            (r == Err::<Tensor, TensorError>(TensorError::IncompatiblePoints) <==> self@.point
                != other@.point),
            (r == Err::<Tensor, TensorError>(TensorError::ShapeMismatch) <==> self@.point
                == other@.point && self@.var != other@.var),
    {
        if !(self.point == other.point) {
            return Err(TensorError::IncompatiblePoints);
        }
        if !kinds_equal(&self.var, &other.var) {
            return Err(TensorError::ShapeMismatch);
        }
        let n = self.comps.len();
        let mut comps: Vec<i64> = Vec::new();
        let mut k: usize = 0;
        while k < n
            invariant
                self.wf(),
                other.wf(),
                self@.combinable(other@),
                forall|t: int|
                    0 <= t < self@.comps.len() ==> i64::MIN <= #[trigger] (self@.comps[t]
                        - other@.comps[t]) <= i64::MAX,
                n == self@.comps.len(),
                other@.comps.len() == n,
                comps@.len() == k <= n,
                forall|t: int|
                    0 <= t < k ==> comps@[t] as int == self@.comps[t] - other@.comps[t],
            decreases n - k,
        {
            proof {
                assert(self@.comps[k as int] == self.comps@[k as int] as int);
                assert(other@.comps[k as int] == other.comps@[k as int] as int);
            }
            let v = self.comps[k] - other.comps[k];
            comps.push(v);
            k = k + 1;
        }
        let t = Tensor { point: self.point.clone(), var: copy_kinds(&self.var), comps };
        proof {
            assert(t@.comps =~= sub_model(self@, other@).comps);
        }
        Ok(t)
    }

    /// The tensor scaled componentwise by `s`.
    pub fn scale(&self, s: i64) -> (t: Tensor)
        requires
            self.wf(),
            forall|k: int|
                0 <= k < self@.comps.len() ==> i64::MIN <= #[trigger] (self@.comps[k] * s)
                    <= i64::MAX,
        ensures
            t.wf(),
            t@ == scale_model(self@, s as int),
    {
        let n = self.comps.len();
        let mut comps: Vec<i64> = Vec::new();
        let mut k: usize = 0;
        while k < n
            invariant
                self.wf(),
                forall|t: int|
                    0 <= t < self@.comps.len() ==> i64::MIN <= #[trigger] (self@.comps[t] * s)
                        <= i64::MAX,
                n == self@.comps.len(),
                comps@.len() == k <= n,
                forall|t: int| 0 <= t < k ==> comps@[t] as int == self@.comps[t] * s,
            decreases n - k,
        {
            proof {
                assert(self@.comps[k as int] == self.comps@[k as int] as int);
            }
            let v = self.comps[k] * s;
            comps.push(v);
            k = k + 1;
        }
        let t = Tensor { point: self.point.clone(), var: copy_kinds(&self.var), comps };
        proof {
            assert(t@.comps =~= scale_model(self@, s as int).comps);
        }
        t
    }

    /// The tensor divided componentwise by `s`, each quotient truncated
    /// toward zero as the host's integer division does.  Division by zero is
    /// the caller's to exclude, as is the one overflowing quotient of the
    /// smallest component by minus one.
    pub fn divide(&self, s: i64) -> (t: Tensor)
        requires
            self.wf(),
            s != 0,
            forall|k: int|
                0 <= k < self@.comps.len() ==> !(#[trigger] self@.comps[k] == i64::MIN as int
                    && s == -1i64),
        ensures
            t.wf(),
            t@ == divide_model(self@, s as int),
    {
        let us: u64 = magnitude(s);
        let n = self.comps.len();
        let mut comps: Vec<i64> = Vec::new();
        let mut k: usize = 0;
        while k < n
            invariant
                self.wf(),
                s != 0,
                us as int == abs(s as int),
                forall|t: int|
                    0 <= t < self@.comps.len() ==> !(#[trigger] self@.comps[t] == i64::MIN as int
                        && s == -1i64),
                n == self@.comps.len(),
                comps@.len() == k <= n,
                forall|t: int| 0 <= t < k ==> comps@[t] as int == trunc_div(self@.comps[t], s as int),
            decreases n - k,
        {
            proof {
                assert(self@.comps[k as int] == self.comps@[k as int] as int);
            }
            let a = self.comps[k];
            let ua: u64 = magnitude(a);
            let uq: u64 = ua / us;
            proof {
                lemma_div_nonincreasing(ua as int, us as int);
                lemma_div_pos_is_pos(ua as int, us as int);
            }
            let v: i64 = if (a < 0) == (s < 0) {
                proof {
                    if a == i64::MIN {
                        // Then s <= -2, so the quotient is at most half the magnitude.
                        vstd::arithmetic::div_mod::lemma_div_is_ordered_by_denominator(
                            ua as int,
                            2,
                            us as int,
                        );
                    }
                }
                uq as i64
            } else {
                if uq == 0 {
                    0
                } else {
                    -((uq - 1) as i64) - 1
                }
            };
            comps.push(v);
            k = k + 1;
        }
        let t = Tensor { point: self.point.clone(), var: copy_kinds(&self.var), comps };
        proof {
            assert(t@.comps =~= divide_model(self@, s as int).comps);
        }
        t
    }

    /// Componentwise equality: the same anchor point, the same variance and
    /// the same components, with no tolerance.
    pub fn equals(&self, other: &Tensor) -> (r: bool)
        ensures
            r == (self@ == other@),
    {
        if !(self.point == other.point) {
            return false;
        }
        if !kinds_equal(&self.var, &other.var) {
            return false;
        }
        if self.comps.len() != other.comps.len() {
            proof {
                assert(self@.comps.len() == self.comps@.len());
                assert(other@.comps.len() == other.comps@.len());
            }
            return false;
        }
        let mut k: usize = 0;
        while k < self.comps.len()
            invariant
                self.comps@.len() == other.comps@.len(),
                self@.point == other@.point,
                self@.var == other@.var,
                0 <= k <= self.comps@.len(),
                forall|t: int| 0 <= t < k ==> self@.comps[t] == other@.comps[t],
            decreases self.comps@.len() - k,
        {
            proof {
                assert(self@.comps[k as int] == self.comps@[k as int] as int);
                assert(other@.comps[k as int] == other.comps@[k as int] as int);
            }
            if self.comps[k] != other.comps[k] {
                return false;
            }
            k = k + 1;
        }
        proof {
            assert(self@.comps =~= other@.comps);
        }
        true
    }

    /// Replaces the component at the flat offset `i`.
    pub fn set_flat(&mut self, i: usize, val: i64) -> (r: Result<(), TensorError>)
        ensures
            r is Ok <==> i < old(self)@.comps.len(),
            r is Ok ==> final(self)@ == (TensorView {
                comps: old(self)@.comps.update(i as int, val as int),
                ..old(self)@
            }),
            r matches Err(e) ==> e == TensorError::IndexOutOfBounds && final(self)@ == old(self)@,
    {
        if i < self.comps.len() {
            self.comps.set(i, val);
            proof {
                assert(self@.comps =~= old(self)@.comps.update(i as int, val as int));
            }
            Ok(())
        } else {
            Err(TensorError::IndexOutOfBounds)
        }
    }
}

impl Clone for Tensor {
    /// Clones the tensor, preserving its point, variance and components.
    fn clone(&self) -> (r: Self)
        ensures
            r@ == self@,
    {
        Tensor {
            point: self.point.clone(),
            var: copy_kinds(&self.var),
            comps: copy_scalars(self.comps.as_slice()),
        }
    }
}

/// A restartable cursor over all multi-indices of a given rank over a given
/// dimension, yielded in canonical row-major order: the all-zero index
/// first, the last slot varying fastest.  A rank-0 cursor yields the empty
/// multi-index once.
pub struct CoordIterator {
    /// The dimension the slots range over.
    pub dim: usize,
    /// The number of slots per multi-index.
    pub rank: usize,
    /// The flat offset of the next multi-index to yield.
    pub pos: usize,
    /// The number of multi-indices, `dim^rank`.
    pub total: usize,
}

impl CoordIterator {
    /// Well-formed: a positive dimension, the exact total, and a cursor not
    /// yet past the end.
    pub open spec fn wf(self) -> bool {
        &&& self.dim >= 1
        &&& self.total as int == pow(self.dim as int, self.rank as nat)
        &&& self.pos <= self.total
    }

    /// A fresh cursor, positioned at the all-zero multi-index.
    pub fn new(dim: usize, rank: usize) -> (it: CoordIterator)
        requires
            dim >= 1,
            pow(dim as int, rank as nat) <= usize::MAX,
        ensures
            it.wf(),
            it.dim == dim,
            it.rank == rank,
            it.pos == 0,
    {
        let total = match try_num_coords(dim, rank) {
            Some(n) => n,
            None => {
                proof {
                    assert(false);
                }
                0
            },
        };
        CoordIterator { dim, rank, pos: 0, total }
    }

    /// The next multi-index, or `None` once all `dim^rank` have been
    /// yielded.  The multi-index yielded `n`-th (counting from zero) is the
    /// one with flat offset `n`.
    pub fn next(&mut self) -> (r: Option<Vec<usize>>)
        requires
            old(self).wf(),
        ensures
            final(self).wf(),
            final(self).dim == old(self).dim,
            final(self).rank == old(self).rank,
            final(self).total == old(self).total,
            old(self).pos < old(self).total ==> (r matches Some(m) && to_ints(m@) == unflat(
                old(self).pos as int,
                old(self).dim as int,
                old(self).rank as nat,
            ) && final(self).pos == old(self).pos + 1),
            old(self).pos >= old(self).total ==> r is None && final(self).pos == old(self).pos,
    {
        if self.pos < self.total {
            let m = unflat_index(self.pos, self.dim, self.rank);
            self.pos = self.pos + 1;
            Some(m)
        } else {
            None
        }
    }
}

impl Tensor {
    /// A fresh cursor over this tensor's multi-indices.
    pub fn iter_coords(&self) -> (it: CoordIterator)
        requires
            self.wf(),
        ensures
            it.wf(),
            it.dim as int == self@.dim(),
            it.rank as int == self@.rank(),
            it.pos == 0,
    {
        proof {
            assert(self.comps.len() == self@.comps.len());
        }
        CoordIterator::new(self.point.dimension(), self.var.len())
    }
}

} // verus!
