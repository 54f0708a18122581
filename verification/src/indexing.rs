//! The canonical dense encoding of multi-indices.
//!
//! A tensor of rank `r` over dimension `d` stores its components in a flat
//! array of length `d^r`, ordered row-major: the flat offset of a multi-index
//! `m` is `sum_k m[k] * d^(r - 1 - k)`, so the last slot varies fastest.
//! This module defines that flattening, its inverse, and the lemmas about
//! inserting slots into a multi-index that the stride arithmetic of the
//! algebraic operations rests on.

use vstd::prelude::*;

verus! {

use vstd::arithmetic::power::{
    pow, lemma_pow0, lemma_pow1, lemma_pow_positive, lemma_pow_adds, lemma_pow_increases,
};
use vstd::arithmetic::div_mod::{
    lemma_fundamental_div_mod, lemma_fundamental_div_mod_converse, lemma_div_pos_is_pos,
    lemma_div_denominator, lemma_mod_bound, lemma_multiply_divide_lt,
};
use vstd::arithmetic::mul::{
    lemma_mul_inequality, lemma_mul_is_commutative, lemma_mul_is_associative,
    lemma_mul_is_distributive_add_other_way, lemma_mul_nonnegative,
};

/// The slot values of `s`, widened to mathematical integers.
pub open spec fn to_ints(s: Seq<usize>) -> Seq<int> {
    s.map_values(|v: usize| v as int)
}

/// The scalars of `s`, widened to mathematical integers.  Coordinates and
/// tensor components are modelled as mathematical integers throughout.
pub open spec fn scalar_ints(s: Seq<i64>) -> Seq<int> {
    s.map_values(|v: i64| v as int)
}

/// `m` is a multi-index of rank `r` over dimension `d`: `r` slot values,
/// each in `[0, d)`.
pub open spec fn is_index(m: Seq<int>, d: int, r: int) -> bool {
    &&& m.len() == r
    &&& forall|k: int| 0 <= k < m.len() ==> 0 <= #[trigger] m[k] < d
}

/// The canonical row-major flat offset of the multi-index `m` over
/// dimension `d`: `sum_k m[k] * d^(len - 1 - k)`, written as a left fold so
/// that the last slot varies fastest.
pub open spec fn flat(m: Seq<int>, d: int) -> int
    decreases m.len(),
{
    if m.len() == 0 {
        0
    } else {
        flat(m.drop_last(), d) * d + m.last()
    }
}

/// The multi-index of rank `r` over dimension `d` whose canonical flat
/// offset is `x`.
pub open spec fn unflat(x: int, d: int, r: nat) -> Seq<int>
    decreases r,
{
    if r == 0 {
        Seq::empty()
    } else {
        unflat(x / d, d, (r - 1) as nat).push(x % d)
    }
}

/// A multi-index over dimension `d` flattens into `[0, d^rank)`.
pub proof fn lemma_flat_bounds(m: Seq<int>, d: int)
    requires
        d >= 1,
        forall|k: int| 0 <= k < m.len() ==> 0 <= #[trigger] m[k] < d,
    ensures
        0 <= flat(m, d) < pow(d, m.len()),
    decreases m.len(),
{
    if m.len() == 0 {
        lemma_pow0(d);
    } else {
        let dl = m.drop_last();
        lemma_flat_bounds(dl, d);
        assert(pow(d, m.len()) == d * pow(d, dl.len())) by {
            lemma_pow1(d);
            lemma_pow_adds(d, 1, dl.len());
        }
        assert(0 <= flat(dl, d) * d + m.last() < d * pow(d, dl.len())) by (nonlinear_arith)
            requires
                0 <= flat(dl, d) < pow(d, dl.len()),
                0 <= m.last() < d,
        ;
    }
}

/// Flattening distributes over concatenation: the left part is shifted by
/// `d^(length of the right part)`.
pub proof fn lemma_flat_concat(a: Seq<int>, b: Seq<int>, d: int)
    requires
        d >= 1,
    ensures
        flat(a + b, d) == flat(a, d) * pow(d, b.len()) + flat(b, d),
    decreases b.len(),
{
    if b.len() == 0 {
        assert(a + b =~= a);
        lemma_pow0(d);
    } else {
        let bl = b.drop_last();
        assert((a + b).drop_last() =~= a + bl);
        assert((a + b).last() == b.last());
        lemma_flat_concat(a, bl, d);
        assert(pow(d, b.len()) == pow(d, bl.len()) * d) by {
            lemma_pow1(d);
            lemma_pow_adds(d, bl.len(), 1);
        }
        assert((flat(a, d) * pow(d, bl.len()) + flat(bl, d)) * d
            == flat(a, d) * (pow(d, bl.len()) * d) + flat(bl, d) * d) by {
            lemma_mul_is_distributive_add_other_way(d, flat(a, d) * pow(d, bl.len()), flat(bl, d));
            lemma_mul_is_associative(flat(a, d), pow(d, bl.len()), d);
        }
    }
}

/// Unflattening a nonnegative offset yields a multi-index whose slots all
/// lie in `[0, d)`.
pub proof fn lemma_unflat_is_index(x: int, d: int, r: nat)
    requires
        d >= 1,
        x >= 0,
    ensures
        is_index(unflat(x, d, r), d, r as int),
    decreases r,
{
    if r > 0 {
        lemma_div_pos_is_pos(x, d);
        lemma_unflat_is_index(x / d, d, (r - 1) as nat);
        lemma_mod_bound(x, d);
    }
}

/// Flattening inverts unflattening on offsets within range.
pub proof fn lemma_flat_unflat(x: int, d: int, r: nat)
    requires
        d >= 1,
        0 <= x < pow(d, r),
    ensures
        flat(unflat(x, d, r), d) == x,
    decreases r,
{
    if r == 0 {
        lemma_pow0(d);
    } else {
        let m = unflat(x, d, r);
        assert(m.drop_last() =~= unflat(x / d, d, (r - 1) as nat));
        assert(pow(d, r) == d * pow(d, (r - 1) as nat)) by {
            lemma_pow1(d);
            lemma_pow_adds(d, 1, (r - 1) as nat);
        }
        lemma_div_pos_is_pos(x, d);
        lemma_multiply_divide_lt(x, d, pow(d, (r - 1) as nat));
        lemma_flat_unflat(x / d, d, (r - 1) as nat);
        lemma_fundamental_div_mod(x, d);
        lemma_mul_is_commutative(x / d, d);
    }
}

/// Unflattening inverts flattening on multi-indices.
pub proof fn lemma_unflat_flat(m: Seq<int>, d: int)
    requires
        d >= 1,
        forall|k: int| 0 <= k < m.len() ==> 0 <= #[trigger] m[k] < d,
    ensures
        unflat(flat(m, d), d, m.len()) == m,
    decreases m.len(),
{
    if m.len() == 0 {
        assert(unflat(flat(m, d), d, 0) =~= m);
    } else {
        let dl = m.drop_last();
        let x = flat(m, d);
        lemma_flat_bounds(dl, d);
        assert(x == flat(dl, d) * d + m.last());
        lemma_fundamental_div_mod_converse(x, d, flat(dl, d), m.last());
        lemma_unflat_flat(dl, d);
        assert(unflat(x, d, m.len()) =~= m);
    }
}

/// Inserting an in-range slot value keeps a multi-index in range.
pub proof fn lemma_insert_is_index(m: Seq<int>, d: int, p: int, i: int)
    requires
        0 <= p <= m.len(),
        0 <= i < d,
        forall|k: int| 0 <= k < m.len() ==> 0 <= #[trigger] m[k] < d,
    ensures
        is_index(m.insert(p, i), d, m.len() + 1 as int),
{
    let r = m.insert(p, i);
    m.insert_ensures(p, i);
    assert forall|k: int| 0 <= k < r.len() implies 0 <= #[trigger] r[k] < d by {
        if k < p {
        } else if k == p {
        } else {
            assert(r[k] == m[k - 1]);
        }
    }
}

/// Inserting into the left part of a concatenation.
pub proof fn lemma_insert_concat_left<A>(a: Seq<A>, b: Seq<A>, p: int, x: A)
    requires
        0 <= p <= a.len(),
    ensures
        (a + b).insert(p, x) == a.insert(p, x) + b,
{
    (a + b).insert_ensures(p, x);
    a.insert_ensures(p, x);
    assert((a + b).insert(p, x) =~= a.insert(p, x) + b);
}

/// Inserting into the right part of a concatenation.
pub proof fn lemma_insert_concat_right<A>(a: Seq<A>, b: Seq<A>, p: int, x: A)
    requires
        a.len() <= p <= a.len() + b.len(),
    ensures
        (a + b).insert(p, x) == a + b.insert(p - a.len(), x),
{
    (a + b).insert_ensures(p, x);
    b.insert_ensures(p - a.len(), x);
    assert((a + b).insert(p, x) =~= a + b.insert(p - a.len(), x));
}

/// A one-slot multi-index flattens to its single slot value.
pub proof fn lemma_flat_single(i: int, d: int)
    ensures
        flat(seq![i], d) == i,
{
    assert(seq![i].drop_last() =~= Seq::<int>::empty());
    assert(flat(Seq::<int>::empty(), d) == 0);
}

/// Inserting a slot value `i` at position `p` of a multi-index rewrites the
/// flat offset by its quotient and remainder at the stride `d^(len - p)`:
/// the slots before `p` are shifted up one place, `i` lands at that stride,
/// and the slots after `p` keep their weights.
pub proof fn lemma_flat_insert(m: Seq<int>, d: int, p: int, i: int)
    requires
        d >= 1,
        0 <= p <= m.len(),
        0 <= i < d,
        forall|k: int| 0 <= k < m.len() ==> 0 <= #[trigger] m[k] < d,
    ensures
        ({
            let s = pow(d, (m.len() - p) as nat);
            let c = flat(m, d);
            flat(m.insert(p, i), d) == (c / s) * (s * d) + i * s + (c % s)
        }),
{
    let s = pow(d, (m.len() - p) as nat);
    let c = flat(m, d);
    let u = m.take(p);
    let w = m.skip(p);
    assert(m =~= u + w);
    assert(forall|k: int| 0 <= k < w.len() ==> 0 <= #[trigger] w[k] < d);
    lemma_flat_concat(u, w, d);
    lemma_flat_bounds(w, d);
    lemma_fundamental_div_mod_converse(c, s, flat(u, d), flat(w, d));
    let iw = seq![i] + w;
    assert(m.insert(p, i) =~= u + iw);
    lemma_flat_single(i, d);
    lemma_flat_concat(seq![i], w, d);
    lemma_flat_concat(u, iw, d);
    assert(pow(d, iw.len()) == s * d) by {
        lemma_pow1(d);
        lemma_pow_adds(d, (m.len() - p) as nat, 1);
        lemma_mul_is_commutative(d, s);
    }
}

/// Inserting the same slot value `i` at two positions `lo < hi` (as
/// contraction does when it rebuilds a source multi-index from a result
/// multi-index) rewrites the flat offset by its parts at the two strides
/// `modl = d^(len - lo)` and `modh = d^(len + 1 - hi)`.
pub proof fn lemma_flat_insert2(m: Seq<int>, d: int, lo: int, hi: int, i: int)
    requires
        d >= 1,
        0 <= lo < hi <= m.len() + 1,
        0 <= i < d,
        forall|k: int| 0 <= k < m.len() ==> 0 <= #[trigger] m[k] < d,
    ensures
        ({
            let modl = pow(d, (m.len() - lo) as nat);
            let modh = pow(d, (m.len() + 1 - hi) as nat);
            let c = flat(m, d);
            flat(m.insert(lo, i).insert(hi, i), d) == (c / modl) * (modl * d * d) + i * (modl * d)
                + ((c % modl) / modh) * (modh * d) + i * modh + ((c % modl) % modh)
        }),
{
    let modl = pow(d, (m.len() - lo) as nat);
    let modh = pow(d, (m.len() + 1 - hi) as nat);
    let c = flat(m, d);
    let u = m.take(lo);
    let v = m.subrange(lo, hi - 1);
    let w = m.skip(hi - 1);
    assert(forall|k: int| 0 <= k < v.len() ==> 0 <= #[trigger] v[k] < d);
    assert(forall|k: int| 0 <= k < w.len() ==> 0 <= #[trigger] w[k] < d);
    let fu = flat(u, d);
    let fv = flat(v, d);
    let fw = flat(w, d);
    lemma_flat_bounds(v, d);
    lemma_flat_bounds(w, d);
    lemma_pow_positive(d, (m.len() - lo) as nat);
    lemma_pow_positive(d, (m.len() + 1 - hi) as nat);

    // Decompose c = fu * modl + (fv * modh + fw), with the tail below modl.
    assert(m =~= u + (v + w));
    lemma_flat_concat(v, w, d);
    lemma_flat_concat(u, v + w, d);
    lemma_pow_adds(d, v.len() as nat, w.len() as nat);
    assert(pow(d, v.len()) * modh == modl);
    assert(0 <= fv * modh + fw < modl) by (nonlinear_arith)
        requires
            0 <= fv < pow(d, v.len()),
            0 <= fw < modh,
            modh >= 1,
            pow(d, v.len()) * modh == modl,
    ;
    lemma_fundamental_div_mod_converse(c, modl, fu, fv * modh + fw);
    lemma_fundamental_div_mod_converse(fv * modh + fw, modh, fv, fw);

    // Flatten u + [i] + v + [i] + w from the inside out.
    let ivw = seq![i] + (v + (seq![i] + w));
    assert(m.insert(lo, i).insert(hi, i) =~= u + ivw);
    lemma_flat_single(i, d);
    lemma_flat_concat(seq![i], w, d);
    lemma_flat_concat(v, seq![i] + w, d);
    lemma_flat_concat(seq![i], v + (seq![i] + w), d);
    lemma_flat_concat(u, ivw, d);
    // flat(ivw) = i * pow(d, len+1-lo-1)... expand the stride products.
    let pv = pow(d, v.len() as nat);
    assert(pow(d, (seq![i] + w).len()) == modh * d) by {
        lemma_pow1(d);
        lemma_pow_adds(d, (m.len() + 1 - hi) as nat, 1);
        lemma_mul_is_commutative(d, modh);
    }
    assert(pow(d, (v + (seq![i] + w)).len()) == modl * d) by {
        lemma_pow1(d);
        lemma_pow_adds(d, (m.len() - lo) as nat, 1);
        lemma_mul_is_commutative(d, modl);
    }
    assert(pow(d, ivw.len()) == modl * d * d) by {
        lemma_pow1(d);
        lemma_pow_adds(d, (m.len() + 1 - lo) as nat, 1);
        lemma_mul_is_associative(modl, d, d);
        lemma_mul_is_commutative(d, modl * d);
    }
    // Assemble: flat = fu*(modl*d*d) + i*(modl*d) + fv*(modh*d) + i*modh + fw.
    assert(flat(ivw, d) == i * (modl * d) + (fv * (modh * d) + (i * modh + fw))) by (nonlinear_arith)
        requires
            flat(ivw, d) == i * pow(d, (v + (seq![i] + w)).len()) + (fv * pow(
                d,
                (seq![i] + w).len(),
            ) + (i * modh + fw)),
            pow(d, (seq![i] + w).len()) == modh * d,
            pow(d, (v + (seq![i] + w)).len()) == modl * d,
    ;
}

/// The slot `k` of an unflattened offset is the base-`d` digit of weight
/// `d^(r - 1 - k)`.
pub proof fn lemma_unflat_digit(x: int, d: int, r: nat, k: int)
    requires
        d >= 1,
        x >= 0,
        0 <= k < r,
    ensures
        unflat(x, d, r)[k] == (x / pow(d, (r - 1 - k) as nat)) % d,
    decreases r,
{
    lemma_div_pos_is_pos(x, d);
    lemma_unflat_is_index(x / d, d, (r - 1) as nat);
    if k == r - 1 {
        lemma_pow0(d);
        assert(x / 1 == x) by {
            lemma_fundamental_div_mod_converse(x, 1, x, 0);
        }
    } else {
        lemma_unflat_digit(x / d, d, (r - 1) as nat, k);
        let e = (r - 2 - k) as nat;
        assert(pow(d, e + 1) == d * pow(d, e)) by {
            lemma_pow1(d);
            lemma_pow_adds(d, 1, e);
        }
        lemma_pow_positive(d, e);
        lemma_div_denominator(x, d, pow(d, e));
    }
}

/// Dropping trailing slots of a multi-index never increases the flat offset.
pub proof fn lemma_flat_prefix_le(m: Seq<int>, d: int, j: int)
    requires
        d >= 1,
        0 <= j <= m.len(),
        forall|k: int| 0 <= k < m.len() ==> 0 <= #[trigger] m[k] < d,
    ensures
        flat(m.take(j), d) <= flat(m, d),
    decreases m.len() - j,
{
    if j == m.len() {
        assert(m.take(j) =~= m);
    } else {
        lemma_flat_prefix_le(m, d, j + 1);
        let p = m.take(j + 1);
        assert(p.drop_last() =~= m.take(j));
        assert(p.last() == m[j]);
        lemma_flat_bounds(m.take(j), d);
        lemma_mul_inequality(1, d, flat(m.take(j), d));
        lemma_mul_is_commutative(flat(m.take(j), d), d);
    }
}

/// The component count `d^r` of a tensor of rank `r` over dimension `d`,
/// or `None` when that count does not fit the machine word.
pub fn try_num_coords(d: usize, r: usize) -> (o: Option<usize>)
    ensures
        o is Some <==> pow(d as int, r as nat) <= usize::MAX,
        o is Some ==> o.unwrap() as int == pow(d as int, r as nat),
{
    if d == 0 {
        if r == 0 {
            proof {
                lemma_pow0(0);
            }
            return Some(1);
        }
        proof {
            vstd::arithmetic::power::lemma0_pow(r as nat);
        }
        return Some(0);
    }
    let mut p: usize = 1;
    let mut k: usize = 0;
    proof {
        lemma_pow0(d as int);
    }
    while k < r
        invariant
            d >= 1,
            0 <= k <= r,
            p as int == pow(d as int, k as nat),
        decreases r - k,
    {
        if p > usize::MAX / d {
            proof {
                let q = usize::MAX as int / d as int;
                lemma_fundamental_div_mod(usize::MAX as int, d as int);
                lemma_mod_bound(usize::MAX as int, d as int);
                lemma_mul_inequality(q + 1, p as int, d as int);
                lemma_mul_is_distributive_add_other_way(d as int, q, 1);
                lemma_mul_is_commutative(q, d as int);
                assert(pow(d as int, (k + 1) as nat) == pow(d as int, k as nat) * d) by {
                    lemma_pow1(d as int);
                    lemma_pow_adds(d as int, k as nat, 1);
                    lemma_mul_is_commutative(d as int, pow(d as int, k as nat));
                }
                lemma_pow_increases(d as nat, (k + 1) as nat, r as nat);
            }
            return None;
        }
        proof {
            let q = usize::MAX as int / d as int;
            lemma_mul_inequality(p as int, q, d as int);
            lemma_fundamental_div_mod(usize::MAX as int, d as int);
            lemma_mod_bound(usize::MAX as int, d as int);
            lemma_mul_is_commutative(q, d as int);
            assert(pow(d as int, (k + 1) as nat) == pow(d as int, k as nat) * d) by {
                lemma_pow1(d as int);
                lemma_pow_adds(d as int, k as nat, 1);
                lemma_mul_is_commutative(d as int, pow(d as int, k as nat));
            }
        }
        p = p * d;
        k = k + 1;
    }
    Some(p)
}

/// The canonical flat offset of a multi-index, or `None` when a slot is out
/// of range for the dimension or the offset does not fit the machine word.
pub fn flat_offset(idx: &[usize], dim: usize) -> (r: Option<usize>)
    ensures
        r is Some <==> is_index(to_ints(idx@), dim as int, idx@.len() as int) && flat(
            to_ints(idx@),
            dim as int,
        ) <= usize::MAX,
        r is Some ==> r.unwrap() as int == flat(to_ints(idx@), dim as int),
{
    let ghost mi = to_ints(idx@);
    let mut acc: usize = 0;
    let mut k: usize = 0;
    while k < idx.len()
        invariant
            0 <= k <= idx@.len(),
            mi == to_ints(idx@),
            forall|t: int| 0 <= t < k ==> 0 <= #[trigger] mi[t] < dim,
            acc as int == flat(mi.take(k as int), dim as int),
        decreases idx@.len() - k,
    {
        let v = idx[k];
        proof {
            assert(mi[k as int] == idx@[k as int] as int);
        }
        if v >= dim {
            return None;
        }
        proof {
            assert(mi.take(k + 1).drop_last() =~= mi.take(k as int));
            assert(mi.take(k + 1).last() == mi[k as int]);
        }
        if acc > (usize::MAX - v) / dim {
            // acc * dim + v exceeds the machine word, so the full offset would too.
            proof {
                let q = (usize::MAX - v) as int / dim as int;
                lemma_fundamental_div_mod((usize::MAX - v) as int, dim as int);
                lemma_mod_bound((usize::MAX - v) as int, dim as int);
                lemma_mul_inequality(q + 1, acc as int, dim as int);
                lemma_mul_is_distributive_add_other_way(dim as int, q, 1);
                lemma_mul_is_commutative(q, dim as int);
                assert(acc as int * dim as int + v > usize::MAX);
                if is_index(mi, dim as int, mi.len() as int) {
                    lemma_flat_prefix_le(mi, dim as int, k + 1);
                }
            }
            return None;
        }
        proof {
            let q = (usize::MAX - v) as int / dim as int;
            lemma_mul_inequality(acc as int, q, dim as int);
            lemma_fundamental_div_mod((usize::MAX - v) as int, dim as int);
            lemma_mod_bound((usize::MAX - v) as int, dim as int);
            lemma_mul_is_commutative(q, dim as int);
        }
        acc = acc * dim + v;
        k = k + 1;
    }
    proof {
        assert(mi.take(idx@.len() as int) =~= mi);
    }
    Some(acc)
}

/// The multi-index of rank `r` over dimension `d` at the flat offset `x`,
/// recovered digit by digit from the last slot backward.
pub fn unflat_index(x: usize, d: usize, r: usize) -> (m: Vec<usize>)
    requires
        d >= 1,
    ensures
        to_ints(m@) == unflat(x as int, d as int, r as nat),
        m@.len() == r,
{
    let ghost target = unflat(x as int, d as int, r as nat);
    proof {
        lemma_unflat_is_index(x as int, d as int, r as nat);
    }
    let mut m: Vec<usize> = Vec::new();
    let mut j: usize = 0;
    while j < r
        invariant
            m@.len() == j <= r,
        decreases r - j,
    {
        m.push(0);
        j = j + 1;
    }
    let mut x_left: usize = x;
    let mut k: usize = r;
    proof {
        lemma_pow0(d as int);
        lemma_fundamental_div_mod_converse(x as int, 1, x as int, 0);
    }
    while k > 0
        invariant
            d >= 1,
            m@.len() == r,
            0 <= k <= r,
            target == unflat(x as int, d as int, r as nat),
            is_index(target, d as int, r as int),
            x_left as int == x as int / pow(d as int, (r - k) as nat),
            forall|t: int| k <= t < r ==> to_ints(m@)[t] == #[trigger] target[t],
        decreases k,
    {
        k = k - 1;
        let digit: usize = x_left % d;
        proof {
            lemma_unflat_digit(x as int, d as int, r as nat, k as int);
        }
        m.set(k, digit);
        x_left = x_left / d;
        proof {
            let e = (r - k - 1) as nat;
            lemma_pow_positive(d as int, e);
            lemma_div_denominator(x as int, pow(d as int, e), d as int);
            assert(pow(d as int, e) * (d as int) == pow(d as int, (r - k) as nat)) by {
                lemma_pow1(d as int);
                lemma_pow_adds(d as int, e, 1);
            }
        }
    }
    proof {
        assert(to_ints(m@) =~= target);
    }
    m
}

} // verus!
