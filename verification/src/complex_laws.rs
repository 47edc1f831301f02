//! Complex numbers over an exact arithmetic are exact.
use vstd::prelude::*;

use crate::field;
use crate::num;
use crate::num::{Cx, Num, Real};

verus! {

/// A sum of two squares is zero only if both are.
pub open spec fn squares_add_up<R: Real>() -> bool {
    forall|a: R, b: R| #[trigger]
        a.times(a).plus(b.times(b)) == R::nil() ==> a == R::nil() && b == R::nil()
}

proof fn lemma_plus<R: Real>(a: Cx<R>, b: Cx<R>, c: Cx<R>)
    requires
        num::is_field::<R>(),
    ensures
        a.plus(b) == b.plus(a),
        a.plus(b).plus(c) == a.plus(b.plus(c)),
        a.plus(Cx::<R>::nil()) == a,
        a.minus(b).plus(b) == a,
{
    field::plus_comm(a.re, b.re);
    field::plus_comm(a.im, b.im);
    field::plus_assoc(a.re, b.re, c.re);
    field::plus_assoc(a.im, b.im, c.im);
    field::plus_nil(a.re);
    field::plus_nil(a.im);
    field::minus_plus(a.re, b.re);
    field::minus_plus(a.im, b.im);
}

proof fn lemma_times_comm<R: Real>(a: Cx<R>, b: Cx<R>)
    requires
        num::is_field::<R>(),
    ensures
        a.times(b) == b.times(a),
{
    field::times_comm(a.re, b.re);
    field::times_comm(a.im, b.im);
    field::times_comm(a.re, b.im);
    field::times_comm(a.im, b.re);
    field::plus_comm(a.re.times(b.im), a.im.times(b.re));
}

proof fn lemma_times_unit<R: Real>(a: Cx<R>)
    requires
        num::is_field::<R>(),
    ensures
        a.times(Cx::<R>::unit()) == a,
{
    field::times_unit(a.re);
    field::times_unit(a.im);
    field::times_nil(a.re);
    field::times_nil(a.im);
    field::minus_nil(a.re);
    field::plus_nil(a.im);
}

proof fn lemma_distributes<R: Real>(a: Cx<R>, b: Cx<R>, c: Cx<R>)
    requires
        num::is_field::<R>(),
    ensures
        a.times(b.plus(c)) == a.times(b).plus(a.times(c)),
{
    field::distributes(a.re, b.re, c.re);
    field::distributes(a.im, b.im, c.im);
    field::distributes(a.re, b.im, c.im);
    field::distributes(a.im, b.re, c.re);
    field::minus_exchange(
        a.re.times(b.re),
        a.im.times(b.im),
        a.re.times(c.re),
        a.im.times(c.im),
    );
    field::plus_exchange(
        a.re.times(b.im),
        a.re.times(c.im),
        a.im.times(b.re),
        a.im.times(c.re),
    );
}

proof fn lemma_times_assoc<R: Real>(x: Cx<R>, y: Cx<R>, z: Cx<R>)
    requires
        num::is_field::<R>(),
    ensures
        x.times(y).times(z) == x.times(y.times(z)),
{
    let a = x.re.times(y.re.times(z.re));
    let b = x.im.times(y.im.times(z.re));
    let c = x.re.times(y.im.times(z.im));
    let d = x.im.times(y.re.times(z.im));
    let e = x.re.times(y.re.times(z.im));
    let f = x.im.times(y.im.times(z.im));
    let g = x.re.times(y.im.times(z.re));
    let h = x.im.times(y.re.times(z.re));
    field::times_assoc(x.re, y.re, z.re);
    field::times_assoc(x.im, y.im, z.re);
    field::times_assoc(x.re, y.im, z.im);
    field::times_assoc(x.im, y.re, z.im);
    field::times_assoc(x.re, y.re, z.im);
    field::times_assoc(x.im, y.im, z.im);
    field::times_assoc(x.re, y.im, z.re);
    field::times_assoc(x.im, y.re, z.re);
    // the left hand side
    field::minus_distributes(x.re.times(y.re), x.im.times(y.im), z.re);
    field::plus_distributes(x.re.times(y.im), x.im.times(y.re), z.im);
    field::minus_distributes(x.re.times(y.re), x.im.times(y.im), z.im);
    field::plus_distributes(x.re.times(y.im), x.im.times(y.re), z.re);
    assert(x.times(y).times(z).re == a.minus(b).minus(c.plus(d)));
    assert(x.times(y).times(z).im == e.minus(f).plus(g.plus(h)));
    // the right hand side
    field::distributes_minus(x.re, y.re.times(z.re), y.im.times(z.im));
    field::distributes(x.im, y.re.times(z.im), y.im.times(z.re));
    field::distributes(x.re, y.re.times(z.im), y.im.times(z.re));
    field::distributes_minus(x.im, y.re.times(z.re), y.im.times(z.im));
    assert(x.times(y.times(z)).re == a.minus(c).minus(d.plus(b)));
    assert(x.times(y.times(z)).im == e.plus(g).plus(h.minus(f)));
    // (a - b) - (c + d) == (a - c) - (d + b)
    field::minus_sum(a.minus(b), c, d);
    field::minus_swap(a, b, c);
    field::plus_comm(d, b);
    field::minus_sum(a.minus(c), b, d);
    // (e - f) + (g + h) == (e + g) + (h - f)
    field::sum_minus(e, g.plus(h), f);
    field::plus_assoc(e, g, h);
    field::plus_minus(e.plus(g), h, f);
}

/// `(p r - q s) d == (p d) r - (q d) s`
proof fn lemma_scaled_difference<R: Real>(p: R, q: R, r: R, s: R, d: R)
    requires
        num::is_field::<R>(),
    ensures
        p.times(r).minus(q.times(s)).times(d) == p.times(d).times(r).minus(q.times(d).times(s)),
        p.times(r).plus(q.times(s)).times(d) == p.times(d).times(r).plus(q.times(d).times(s)),
{
    field::minus_distributes(p.times(r), q.times(s), d);
    field::plus_distributes(p.times(r), q.times(s), d);
    field::times_assoc(p, r, d);
    field::times_comm(r, d);
    field::times_assoc(p, d, r);
    field::times_assoc(q, s, d);
    field::times_comm(s, d);
    field::times_assoc(q, d, s);
}

/// `(x y) z == (x z) y`
proof fn lemma_swap<R: Real>(x: R, y: R, z: R)
    requires
        num::is_field::<R>(),
    ensures
        x.times(y).times(z) == x.times(z).times(y),
{
    field::times_assoc(x, y, z);
    field::times_comm(y, z);
    field::times_assoc(x, z, y);
}

proof fn lemma_over<R: Real>(a: Cx<R>, b: Cx<R>)
    requires
        num::is_field::<R>(),
        squares_add_up::<R>(),
        b != Cx::<R>::nil(),
    ensures
        a.over(b).times(b) == a,
{
    let d = b.re.times(b.re).plus(b.im.times(b.im));
    assert(d != R::nil());
    let pp = a.re.times(b.re).plus(a.im.times(b.im));
    let qq = a.im.times(b.re).minus(a.re.times(b.im));
    let p = pp.over(d);
    let q = qq.over(d);
    field::over_times(pp, d);
    field::over_times(qq, d);
    lemma_scaled_difference(p, q, b.re, b.im, d);
    lemma_scaled_difference(p, q, b.im, b.re, d);
    // pp re - qq im == (u + w) - (w - v) == u + v == a.re d
    let u = a.re.times(b.re).times(b.re);
    let v = a.re.times(b.im).times(b.im);
    let w = a.im.times(b.im).times(b.re);
    field::plus_distributes(a.re.times(b.re), a.im.times(b.im), b.re);
    field::minus_distributes(a.im.times(b.re), a.re.times(b.im), b.im);
    lemma_swap(a.im, b.re, b.im);
    field::minus_difference(u.plus(w), w, v);
    field::plus_minus(u, w, w);
    field::minus_self(w);
    field::plus_nil(u);
    field::distributes(a.re, b.re.times(b.re), b.im.times(b.im));
    field::times_assoc(a.re, b.re, b.re);
    field::times_assoc(a.re, b.im, b.im);
    let re = p.times(b.re).minus(q.times(b.im));
    assert(re.times(d) == a.re.times(d));
    field::over_unique(a.re.times(d), d, re);
    field::over_unique(a.re.times(d), d, a.re);
    // pp im + qq re == (s + t) + (r - s) == t + r == a.im d
    let r = a.im.times(b.re).times(b.re);
    let t = a.im.times(b.im).times(b.im);
    let s = a.re.times(b.re).times(b.im);
    field::plus_distributes(a.re.times(b.re), a.im.times(b.im), b.im);
    field::minus_distributes(a.im.times(b.re), a.re.times(b.im), b.re);
    lemma_swap(a.re, b.im, b.re);
    field::plus_comm(s, t);
    field::plus_assoc(t, s, r.minus(s));
    field::plus_comm(s, r.minus(s));
    field::minus_plus(r, s);
    field::plus_comm(t, r);
    field::distributes(a.im, b.re.times(b.re), b.im.times(b.im));
    field::times_assoc(a.im, b.re, b.re);
    field::times_assoc(a.im, b.im, b.im);
    let im = p.times(b.im).plus(q.times(b.re));
    assert(im.times(d) == a.im.times(d));
    field::over_unique(a.im.times(d), d, im);
    field::over_unique(a.im.times(d), d, a.im);
}

/// The complex numbers over a field in which squares do not cancel are a field
/// again, so what holds of exact solutions holds of the small signal analysis
/// too.
pub proof fn complex_numbers_are_exact<R: Real>()
    requires
        num::is_field::<R>(),
        squares_add_up::<R>(),
    ensures
        num::is_field::<Cx<R>>(),
{
    assert forall|a: Cx<R>, b: Cx<R>, c: Cx<R>| #[trigger]
        a.plus(b).plus(c) == a.plus(b.plus(c)) by {
        lemma_plus(a, b, c);
    }
    assert forall|a: Cx<R>, b: Cx<R>| #[trigger] a.plus(b) == b.plus(a) by {
        lemma_plus(a, b, a);
    }
    assert forall|a: Cx<R>| #[trigger] a.plus(Cx::<R>::nil()) == a by {
        lemma_plus(a, a, a);
    }
    assert forall|a: Cx<R>, b: Cx<R>| #[trigger] a.minus(b).plus(b) == a by {
        lemma_plus(a, b, a);
    }
    assert forall|a: Cx<R>, b: Cx<R>| #[trigger] a.times(b) == b.times(a) by {
        lemma_times_comm(a, b);
    }
    assert forall|a: Cx<R>, b: Cx<R>, c: Cx<R>| #[trigger]
        a.times(b).times(c) == a.times(b.times(c)) by {
        lemma_times_assoc(a, b, c);
    }
    assert forall|a: Cx<R>| #[trigger] a.times(Cx::<R>::unit()) == a by {
        lemma_times_unit(a);
    }
    assert forall|a: Cx<R>, b: Cx<R>, c: Cx<R>| #[trigger]
        a.times(b.plus(c)) == a.times(b).plus(a.times(c)) by {
        lemma_distributes(a, b, c);
    }
    assert forall|a: Cx<R>, b: Cx<R>| b != Cx::<R>::nil() implies #[trigger] a.over(b).times(b)
        == a by {
        lemma_over(a, b);
    }
    field::unit_is_not_nil::<R>();
    assert(Cx::<R>::nil() != Cx::<R>::unit());
    reveal(num::is_field);
}

/// Complex numbers are compared by their length, and one shorter than `1e-300`
/// counts as zero.
pub proof fn complex_sizes_are_lengths<R: Real>(a: Cx<R>, b: Cx<R>)
    ensures
        a.outweighs(b) <==> b.re.hypotenuse(b.im).below(a.re.hypotenuse(a.im)),
        a.negligible() <==> a.re.hypotenuse(a.im).below(R::decimal(1, -300)),
{
}

} // verus!
