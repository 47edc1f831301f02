//! The predictor of the transient analysis is exact on quadratics.
use vstd::prelude::*;

use crate::field;
use crate::num;
use crate::num::Real;
use crate::transient;

verus! {

/// `(0 - (a + b)) + a == 0 - b`
proof fn cancels<R: Real>(a: R, b: R)
    requires
        num::is_field::<R>(),
    ensures
        R::nil().minus(a.plus(b)).plus(a) == R::nil().minus(b),
{
    let n = R::nil().minus(a);
    field::minus_sum(R::nil(), a, b);
    field::sum_minus(n, a, b);
    field::minus_plus(R::nil(), a);
}

/// A factor that is not zero can be dropped.
proof fn factor_cancels<R: Real>(a: R, b: R, c: R)
    requires
        num::is_field::<R>(),
        c != R::nil(),
        a.times(c) == b.times(c),
    ensures
        a == b,
{
    field::over_unique(a.times(c), c, a);
    field::over_unique(a.times(c), c, b);
}

/// The weights of the predictor are proper.
pub open spec fn spaced<R: Real>(h: R, d1: R, d2: R) -> bool {
    let d = d1.plus(d2);
    &&& h.opposite() == R::nil().minus(h)
    &&& d1.times(d) != R::nil()
    &&& d1.times(d2) != R::nil()
    &&& d.times(d2) != R::nil()
}

/// The weights of the earlier points sum up to the step ahead.
proof fn lemma_first_moment<R: Real>(h: R, d1: R, d2: R)
    requires
        num::is_field::<R>(),
        spaced(h, d1, d2),
    ensures
        ({
            let (l0, l1, l2) = transient::predictor_weights(h, d1, d2);
            let d = d1.plus(d2);
            &&& l2.times(d.times(d2)) == h.times(h.plus(d1))
            &&& l1.times(d1).plus(l2.times(d)) == R::nil().minus(h)
        }),
{
    let (l0, l1, l2) = transient::predictor_weights(h, d1, d2);
    let d = d1.plus(d2);
    let a = h.plus(d1);
    let b = a.plus(d2);
    let n = R::nil().minus(h);
    let ha = h.times(a);
    let hd = h.times(d2);
    let u = l1.times(d1).plus(l2.times(d));
    if d2 == R::nil() {
        field::times_nil(d1);
    }
    field::over_times(ha, d.times(d2));
    field::over_times(n.times(b), d1.times(d2));
    field::plus_distributes(l1.times(d1), l2.times(d), d2);
    field::times_assoc(l1, d1, d2);
    field::times_assoc(l2, d, d2);
    assert(u.times(d2) == n.times(b).plus(ha));
    field::opposite_times(h, b);
    field::distributes(h, a, d2);
    cancels(ha, hd);
    field::opposite_times(h, d2);
    assert(u.times(d2) == n.times(d2));
    factor_cancels(u, n, d2);
}

/// The weights sum up to one.
proof fn lemma_zeroth_moment<R: Real>(h: R, d1: R, d2: R)
    requires
        num::is_field::<R>(),
        spaced(h, d1, d2),
    ensures
        ({
            let (l0, l1, l2) = transient::predictor_weights(h, d1, d2);
            l0.plus(l1).plus(l2) == R::unit()
        }),
{
    let (l0, l1, l2) = transient::predictor_weights(h, d1, d2);
    let d = d1.plus(d2);
    let a = h.plus(d1);
    let b = a.plus(d2);
    let n = R::nil().minus(h);
    let ha = h.times(a);
    let hd = h.times(d);
    let e = d1.times(d);
    let v = l2.times(d);
    lemma_first_moment(h, d1, d2);
    // l1 d1 == (0 - h) - v
    field::minus_unique(n, v, l1.times(d1));
    // l1 e == (0 - h d) - (v d1 + h a)
    field::times_assoc(l1, d1, d);
    field::minus_distributes(n, v, d);
    field::opposite_times(h, d);
    field::distributes(v, d1, d2);
    field::times_assoc(l2, d, d2);
    let vd = v.times(d1);
    assert(l1.times(e) == R::nil().minus(hd).minus(vd.plus(ha)));
    // l2 e == v d1
    field::times_comm(d1, d);
    field::times_assoc(l2, d, d1);
    assert(l2.times(e) == vd);
    // l1 e + l2 e == (0 - h d) - h a
    let z = R::nil().minus(hd);
    field::minus_sum(z, vd, ha);
    field::minus_swap(z, vd, ha);
    field::minus_plus(z.minus(ha), vd);
    assert(l1.times(e).plus(l2.times(e)) == z.minus(ha));
    // l0 e == a b == h a + (h d + e)
    field::over_times(a.times(b), e);
    field::plus_assoc(h, d1, d2);
    field::distributes(a, h, d);
    field::times_comm(a, h);
    field::plus_distributes(h, d1, d);
    assert(l0.times(e) == ha.plus(hd.plus(e)));
    // the sum is e
    let s = l0.plus(l1).plus(l2);
    field::plus_distributes(l0.plus(l1), l2, e);
    field::plus_distributes(l0, l1, e);
    field::plus_assoc(l0.times(e), l1.times(e), l2.times(e));
    assert(s.times(e) == ha.plus(hd.plus(e)).plus(z.minus(ha)));
    field::plus_comm(ha, hd.plus(e));
    field::plus_assoc(hd.plus(e), ha, z.minus(ha));
    field::plus_comm(ha, z.minus(ha));
    field::minus_plus(z, ha);
    field::plus_comm(hd, e);
    field::plus_assoc(e, hd, z);
    field::plus_comm(hd, z);
    field::minus_plus(R::nil(), hd);
    field::plus_nil(e);
    field::times_unit(e);
    assert(s.times(e) == R::unit().times(e));
    factor_cancels(s, R::unit(), e);
}

/// In exact arithmetic the predictor continues quadratics: if the current and
/// the two earlier values of an unknown lie on a quadratic in time, written
/// here as `c0 + c1 t + c2 t (t + d1)` with the current time at 0, then what is
/// predicted for the time `h` ahead lies on it too.
pub proof fn predictor_continues_quadratics<R: Real>(
    x: Seq<R>,
    old: Seq<(Seq<R>, R)>,
    h: R,
    i: int,
    c1: R,
    c2: R,
)
    requires
        num::is_field::<R>(),
        old.len() == 2,
        spaced(h, old[0].1, old[1].1),
        0 <= i < x.len(),
        ({
            let d1 = old[0].1;
            let d = d1.plus(old[1].1);
            &&& old[0].0[i] == x[i].minus(c1.times(d1))
            &&& old[1].0[i] == x[i].minus(c1.times(d)).plus(c2.times(d.times(old[1].1)))
        }),
    ensures
        transient::predicted(x, old, h)[i] == x[i].plus(c1.times(h)).plus(
            c2.times(h.times(h.plus(old[0].1))),
        ),
{
    let d1 = old[0].1;
    let d2 = old[1].1;
    let d = d1.plus(d2);
    let (l0, l1, l2) = transient::predictor_weights(h, d1, d2);
    let x0 = x[i];
    let ha = h.times(h.plus(d1));
    let k = c2.times(ha);
    lemma_first_moment(h, d1, d2);
    lemma_zeroth_moment(h, d1, d2);
    // l1 (x0 - c1 d1) == l1 x0 - c1 (l1 d1)
    let p = c1.times(l1.times(d1));
    field::distributes_minus(l1, x0, c1.times(d1));
    field::times_assoc(l1, c1, d1);
    field::times_comm(l1, c1);
    field::times_assoc(c1, l1, d1);
    let first = l1.times(x0).minus(p);
    assert(l1.times(old[0].0[i]) == first);
    // l2 (x0 - c1 d + c2 d d2) == l2 x0 - c1 (l2 d) + c2 h a
    let q = c1.times(l2.times(d));
    let dd = d.times(d2);
    field::distributes(l2, x0.minus(c1.times(d)), c2.times(dd));
    field::distributes_minus(l2, x0, c1.times(d));
    field::times_assoc(l2, c1, d);
    field::times_comm(l2, c1);
    field::times_assoc(c1, l2, d);
    field::times_assoc(l2, c2, dd);
    field::times_comm(l2, c2);
    field::times_assoc(c2, l2, dd);
    let second = l2.times(x0).minus(q).plus(k);
    assert(l2.times(old[1].0[i]) == second);
    // together
    let s0 = l0.times(x0);
    let s1 = l1.times(x0);
    let s2 = l2.times(x0);
    field::plus_minus(s0, s1, p);
    assert(s0.plus(first) == s0.plus(s1).minus(p));
    field::plus_assoc(s0.plus(s1).minus(p), s2.minus(q), k);
    field::minus_exchange(s0.plus(s1), p, s2, q);
    field::plus_distributes(l0.plus(l1), l2, x0);
    field::plus_distributes(l0, l1, x0);
    field::times_unit(x0);
    assert(s0.plus(s1).plus(s2) == x0);
    field::distributes(c1, l1.times(d1), l2.times(d));
    let n = R::nil().minus(h);
    assert(p.plus(q) == c1.times(n));
    field::distributes_minus(c1, R::nil(), h);
    field::times_nil(c1);
    field::minus_difference(x0, R::nil(), c1.times(h));
    field::minus_nil(x0);
}

} // verus!
