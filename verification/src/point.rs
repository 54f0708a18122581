//! Points on the manifold.
//!
//! A point is a fixed-length tuple of coordinates; its length is the
//! dimension of the coordinate system it belongs to.  Every tensor owns the
//! point it is anchored at, and two tensors combine only when their points
//! are equal.

use vstd::prelude::*;

verus! {

use crate::indexing::scalar_ints;

/// A point of a coordinate system: one coordinate per axis.  Its view is the
/// coordinate tuple as mathematical integers.
pub struct Point {
    /// One coordinate per axis of the coordinate system.
    pub coords: Vec<i64>,
}

impl View for Point {
    type V = Seq<int>;

    open spec fn view(&self) -> Seq<int> {
        scalar_ints(self.coords@)
    }
}

/// Copies an array of scalars.  Shared by points and component arrays.
pub(crate) fn copy_scalars(v: &[i64]) -> (r: Vec<i64>)
    ensures
        r@ == v@,
{
    let mut r: Vec<i64> = Vec::new();
    let mut k: usize = 0;
    while k < v.len()
        invariant
            0 <= k <= v@.len(),
            r@ == v@.take(k as int),
        decreases v@.len() - k,
    {
        proof {
            assert(v@.take(k + 1) =~= v@.take(k as int).push(v@[k as int]));
        }
        r.push(v[k]);
        k = k + 1;
    }
    proof {
        assert(v@.take(v@.len() as int) =~= v@);
    }
    r
}

impl Point {
    /// Creates the point with the given coordinate tuple.
    pub fn new(coords: Vec<i64>) -> (p: Point)
        ensures
            p@ == scalar_ints(coords@),
    {
        Point { coords }
    }

    /// Creates the point with the coordinates in the slice.
    pub fn from_slice(coords: &[i64]) -> (p: Point)
        ensures
            p@ == scalar_ints(coords@),
    {
        Point { coords: copy_scalars(coords) }
    }

    /// The dimension of the coordinate system the point belongs to.
    pub fn dimension(&self) -> (d: usize)
        ensures
            d == self@.len(),
    {
        self.coords.len()
    }

    /// The point's coordinates.
    pub fn coords_array(&self) -> (r: &Vec<i64>)
        ensures
            scalar_ints(r@) == self@,
    {
        &self.coords
    }

    /// The coordinate on the axis `i`.
    pub fn get(&self, i: usize) -> (c: i64)
        requires
            i < self@.len(),
        ensures
            c as int == self@[i as int],
    {
        self.coords[i]
    }

    /// Replaces the coordinate on the axis `i`; the way a perturbed
    /// neighbouring point is built.
    pub fn set(&mut self, i: usize, c: i64)
        requires
            i < old(self)@.len(),
        ensures
            final(self)@ == old(self)@.update(i as int, c as int),
    {
        self.coords.set(i, c);
        proof {
            assert(self@ =~= old(self)@.update(i as int, c as int));
        }
    }
}

impl Clone for Point {
    /// Clones the point, preserving its coordinates.
    fn clone(&self) -> (r: Self)
        ensures
            r@ == self@,
    {
        Point { coords: copy_scalars(self.coords.as_slice()) }
    }
}

impl PartialEq for Point {
    /// Points are equal when all their coordinates are.
    fn eq(&self, other: &Self) -> (r: bool) {
        if self.coords.len() != other.coords.len() {
            proof {
                assert(self@.len() == self.coords@.len());
                assert(other@.len() == other.coords@.len());
            }
            return false;
        }
        let mut k: usize = 0;
        while k < self.coords.len()
            invariant
                self.coords@.len() == other.coords@.len(),
                0 <= k <= self.coords@.len(),
                forall|t: int| 0 <= t < k ==> self@[t] == other@[t],
            decreases self.coords@.len() - k,
        {
            if self.coords[k] != other.coords[k] {
                assert(self@[k as int] != other@[k as int]);
                return false;
            }
            k = k + 1;
        }
        proof {
            assert(self@ =~= other@);
        }
        true
    }
}

impl Eq for Point {

}

impl vstd::std_specs::cmp::PartialEqSpecImpl for Point {
    open spec fn obeys_eq_spec() -> bool {
        true
    }

    open spec fn eq_spec(&self, other: &Point) -> bool {
        self@ == other@
    }
}

} // verus!
