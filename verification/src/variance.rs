//! Variance descriptors: the per-slot index kinds of a tensor.
//!
//! A tensor of rank `r` carries a sequence of `r` kinds, one per index slot.
//! Contraction removes a covariant/contravariant pair of slots, the tensor
//! product concatenates two descriptors, and transposition swaps the two
//! slots of a rank-2 descriptor.

use vstd::prelude::*;

verus! {

/// The kind of one tensor index slot.
#[derive(Clone, Copy, Debug, PartialEq, Eq, Structural)]
pub enum IndexKind {
    Covariant,
    Contravariant,
}

/// The opposite slot kind.  A slot pairs with one of the opposite kind in a
/// contraction, and matrix inversion swaps each slot to its opposite.
pub open spec fn flip(k: IndexKind) -> IndexKind {
    match k {
        IndexKind::Covariant => IndexKind::Contravariant,
        IndexKind::Contravariant => IndexKind::Covariant,
    }
}

/// Slots `lo < hi` of the variance `v` may be contracted: both exist and
/// they carry opposite kinds.
pub open spec fn contractible(v: Seq<IndexKind>, lo: int, hi: int) -> bool {
    &&& 0 <= lo < hi < v.len()
    &&& v[lo] == flip(v[hi])
}

/// The variance left after contracting away the slots `lo < hi`.
pub open spec fn contracted(v: Seq<IndexKind>, lo: int, hi: int) -> Seq<IndexKind> {
    v.remove(hi).remove(lo)
}

/// The opposite slot kind, computed.
pub fn flip_kind(k: IndexKind) -> (r: IndexKind)
    ensures
        r == flip(k),
{
    match k {
        IndexKind::Covariant => IndexKind::Contravariant,
        IndexKind::Contravariant => IndexKind::Covariant,
    }
}

/// Whether slots `lo < hi` of `v` form a contractible pair.
pub fn check_contractible(v: &Vec<IndexKind>, lo: usize, hi: usize) -> (r: bool)
    ensures
        r == contractible(v@, lo as int, hi as int),
{
    if lo < hi && hi < v.len() {
        let a = v[lo];
        let b = v[hi];
        proof {
            // The two kinds differ exactly when one is the flip of the other.
            assert(a != b <==> a == flip(b)) by {
                match b {
                    IndexKind::Covariant => {},
                    IndexKind::Contravariant => {},
                }
            }
        }
        a != b
    } else {
        false
    }
}

/// The variance of `v` with the contracted slots `lo < hi` removed.
pub fn contracted_kinds(v: &Vec<IndexKind>, lo: usize, hi: usize) -> (r: Vec<IndexKind>)
    requires
        lo < hi < v@.len(),
    ensures
        r@ == contracted(v@, lo as int, hi as int),
{
    let mut r: Vec<IndexKind> = Vec::new();
    let mut k: usize = 0;
    while k < v.len()
        invariant
            lo < hi < v@.len(),
            0 <= k <= v@.len(),
            r@ == if k <= lo {
                v@.take(k as int)
            } else if k <= hi {
                v@.take(k as int).remove(lo as int)
            } else {
                v@.take(k as int).remove(hi as int).remove(lo as int)
            },
        decreases v@.len() - k,
    {
        let ghost prev = r@;
        if k != lo && k != hi {
            r.push(v[k]);
        }
        proof {
            let kk = k as int;
            let t1 = v@.take(kk + 1);
            if kk < lo {
                assert(t1 =~= v@.take(kk).push(v@[kk]));
            } else if kk == lo {
                assert(t1.remove(lo as int) =~= v@.take(kk));
            } else if kk < hi {
                assert(t1.remove(lo as int) =~= v@.take(kk).remove(lo as int).push(v@[kk]));
            } else if kk == hi {
                assert(t1.remove(hi as int).remove(lo as int) =~= v@.take(kk).remove(lo as int));
            } else {
                assert(t1.remove(hi as int).remove(lo as int) =~= v@.take(kk).remove(
                    hi as int,
                ).remove(lo as int).push(v@[kk]));
            }
        }
        k = k + 1;
    }
    proof {
        assert(v@.take(v@.len() as int) =~= v@);
    }
    r
}

/// Copies a variance descriptor.
pub(crate) fn copy_kinds(v: &Vec<IndexKind>) -> (r: Vec<IndexKind>)
    ensures
        r@ == v@,
{
    let mut r: Vec<IndexKind> = Vec::new();
    let mut k: usize = 0;
    while k < v.len()
        invariant
            0 <= k <= v@.len(),
            r@ == v@.take(k as int),
        decreases v@.len() - k,
    {
        proof {
            assert(v@.take(k + 1) =~= v@.take(k as int).push(v@[k as int]));
        }
        r.push(v[k]);
        k = k + 1;
    }
    proof {
        assert(v@.take(v@.len() as int) =~= v@);
    }
    r
}

/// The concatenation of two variance descriptors, the left one first, as the
/// tensor product builds it.
pub fn joined_kinds(a: &Vec<IndexKind>, b: &Vec<IndexKind>) -> (r: Vec<IndexKind>)
    ensures
        r@ == a@ + b@,
{
    let mut r: Vec<IndexKind> = Vec::new();
    let mut k: usize = 0;
    while k < a.len()
        invariant
            0 <= k <= a@.len(),
            r@ == a@.take(k as int),
        decreases a@.len() - k,
    {
        proof {
            assert(a@.take(k + 1) =~= a@.take(k as int).push(a@[k as int]));
        }
        r.push(a[k]);
        k = k + 1;
    }
    let mut j: usize = 0;
    while j < b.len()
        invariant
            0 <= j <= b@.len(),
            r@ == a@.take(a@.len() as int) + b@.take(j as int),
        decreases b@.len() - j,
    {
        proof {
            let done = a@.take(a@.len() as int) + b@.take(j as int);
            assert(a@.take(a@.len() as int) + b@.take(j + 1) =~= done.push(b@[j as int]));
        }
        r.push(b[j]);
        j = j + 1;
    }
    proof {
        assert(a@.take(a@.len() as int) =~= a@);
        assert(b@.take(b@.len() as int) =~= b@);
    }
    r
}

} // verus!
