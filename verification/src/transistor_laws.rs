//! The square law transistor: its conductances are the slopes of its current.
use vstd::prelude::*;

use crate::field;
use crate::model_laws;
use crate::models;
use crate::num;
use crate::num::Real;

verus! {

/// Two halves make one.
pub open spec fn halves<R: Real>() -> bool {
    R::decimal(5, -1).plus(R::decimal(5, -1)) == R::unit()
}

/// The transistor conducts.
pub open spec fn conducts<R: Real>(vgs: R, vt0: R) -> bool {
    !vgs.minus(vt0).at_most(R::nil())
}

/// The transistor conducts and the drain is not pinched off.
pub open spec fn is_open<R: Real>(vgs: R, vds: R, vt0: R) -> bool {
    conducts(vgs, vt0) && vds.below(vgs.minus(vt0))
}

/// The transistor conducts and the drain is pinched off.
pub open spec fn is_saturated<R: Real>(vgs: R, vds: R, vt0: R) -> bool {
    conducts(vgs, vt0) && !vds.below(vgs.minus(vt0))
}

/// `(p - q) - (r - s) == (p - r) - (q - s)`
pub(crate) proof fn lemma_difference_exchange<R: Real>(p: R, q: R, r: R, s: R)
    requires
        num::is_field::<R>(),
    ensures
        p.minus(q).minus(r.minus(s)) == p.minus(r).minus(q.minus(s)),
{
    field::minus_difference(p.minus(q), r, s);
    field::minus_swap(p, q, r);
    field::minus_difference(p.minus(r), q, s);
}

/// `a * (b * c) == b * (a * c)`
pub(crate) proof fn lemma_pull<R: Real>(a: R, b: R, c: R)
    requires
        num::is_field::<R>(),
    ensures
        a.times(b.times(c)) == b.times(a.times(c)),
{
    field::times_assoc(a, b, c);
    field::times_comm(a, b);
    field::times_assoc(b, a, c);
}

/// `half * (v + v) == v`
pub(crate) proof fn lemma_half<R: Real>(v: R)
    requires
        num::is_field::<R>(),
        halves::<R>(),
    ensures
        R::decimal(5, -1).times(v.plus(v)) == v,
{
    let half = R::decimal(5, -1);
    field::distributes(half, v, v);
    field::plus_distributes(half, half, v);
    field::times_unit(v);
}

/// Without modulation the factor of the channel length is one.
proof fn lemma_unmodulated<R: Real>(vds: R)
    requires
        num::is_field::<R>(),
    ensures
        R::unit().plus(R::nil().times(vds)) == R::unit(),
{
    field::times_nil(vds);
    field::plus_nil(R::unit());
}

/// Current and conductances in the two regions, without modulation.
proof fn lemma_regions<R: Real>(vgs: R, vds: R, kp: R, vt0: R)
    requires
        num::is_field::<R>(),
    ensures
        ({
            let v = vgs.minus(vt0);
            let half = R::decimal(5, -1);
            let f = models::square_law(vgs, vds, kp, vt0, R::nil());
            &&& is_open(vgs, vds, vt0) ==> f.0 == kp.times(
                v.times(vds).minus(half.times(vds).times(vds)),
            ) && f.1 == kp.times(vds) && f.2 == kp.times(v.minus(vds))
            &&& is_saturated(vgs, vds, vt0) ==> f.0 == half.times(kp).times(v).times(v) && f.1
                == kp.times(v) && f.2 == R::nil()
        }),
{
    let v = vgs.minus(vt0);
    let half = R::decimal(5, -1);
    lemma_unmodulated(vds);
    let a = kp.times(v.times(vds).minus(half.times(vds).times(vds)));
    let b = half.times(kp).times(v).times(v);
    field::times_unit(a);
    field::times_unit(b);
    field::times_unit(kp.times(vds));
    field::times_unit(kp.times(v));
    field::times_unit(kp.times(v.minus(vds)));
    field::times_nil(a);
    field::times_nil(b);
    field::plus_nil(kp.times(v.minus(vds)));
}

/// The parabola of the open channel between two drain voltages.
proof fn lemma_parabola<R: Real>(v: R, kp: R, a: R, b: R)
    requires
        num::is_field::<R>(),
        halves::<R>(),
    ensures
        ({
            let half = R::decimal(5, -1);
            let ia = kp.times(v.times(a).minus(half.times(a).times(a)));
            let ib = kp.times(v.times(b).minus(half.times(b).times(b)));
            ib.minus(ia) == half.times(
                kp.times(v.minus(a)).plus(kp.times(v.minus(b))),
            ).times(b.minus(a))
        }),
{
    let half = R::decimal(5, -1);
    let w = b.minus(a);
    let s = b.plus(a);
    let (pa, pb) = (v.times(a), v.times(b));
    let (qa, qb) = (half.times(a).times(a), half.times(b).times(b));
    // the difference of the parabolas is v w - half (w s)
    lemma_difference_exchange(pb, qb, pa, qa);
    field::distributes_minus(v, b, a);
    field::times_assoc(half, a, a);
    field::times_assoc(half, b, b);
    field::distributes_minus(half, b.times(b), a.times(a));
    model_laws::lemma_squares(b, a);
    field::distributes_minus(kp, pb.minus(qb), pa.minus(qa));
    let d = v.times(w).minus(half.times(w.times(s)));
    // the mean slope is kp (v - half s)
    field::distributes(kp, v.minus(a), v.minus(b));
    field::minus_exchange(v, a, v, b);
    field::plus_comm(a, b);
    let t = v.plus(v).minus(s);
    lemma_pull(half, kp, t);
    field::distributes_minus(half, v.plus(v), s);
    lemma_half(v);
    let m = v.minus(half.times(s));
    field::times_assoc(kp, m, w);
    field::minus_distributes(v, half.times(s), w);
    field::times_assoc(half, s, w);
    field::times_comm(s, w);
}

/// The output conductance is the slope of the current over the drain voltage.
/// Up to pinch off, and including it, the current grows by the mean of the
/// conductances at the two ends; behind it the current does not depend on the
/// drain voltage. Without channel length modulation.
pub proof fn output_conductance_is_the_slope<R: Real>(vgs: R, a: R, b: R, kp: R, vt0: R)
    requires
        num::is_field::<R>(),
        halves::<R>(),
    ensures
        ({
            let f = models::square_law(vgs, a, kp, vt0, R::nil());
            let g = models::square_law(vgs, b, kp, vt0, R::nil());
            let mean = R::decimal(5, -1).times(f.2.plus(g.2));
            &&& is_open(vgs, a, vt0) && is_open(vgs, b, vt0) ==> g.0.minus(f.0) == mean.times(
                b.minus(a),
            )
            &&& is_open(vgs, a, vt0) && is_saturated(vgs, b, vt0) && b == vgs.minus(vt0)
                ==> g.0.minus(f.0) == mean.times(b.minus(a))
            &&& is_saturated(vgs, a, vt0) && is_saturated(vgs, b, vt0) ==> g.0 == f.0 && g.2
                == R::nil()
        }),
{
    let v = vgs.minus(vt0);
    lemma_regions(vgs, a, kp, vt0);
    lemma_regions(vgs, b, kp, vt0);
    lemma_parabola(v, kp, a, b);
    if b == v {
        model_laws::square_law_is_continuous(v, kp, R::nil());
        field::minus_self(v);
        field::times_nil(kp);
    }
}

/// The transconductance is the slope of the current over its controlling
/// voltage. In the open channel the current is linear in it; pinched off it
/// grows by the mean of the transconductances at the two ends. Without channel
/// length modulation.
pub proof fn transconductance_is_the_slope<R: Real>(a: R, b: R, vds: R, kp: R, vt0: R)
    requires
        num::is_field::<R>(),
        halves::<R>(),
    ensures
        ({
            let f = models::square_law(a, vds, kp, vt0, R::nil());
            let g = models::square_law(b, vds, kp, vt0, R::nil());
            let mean = R::decimal(5, -1).times(f.1.plus(g.1));
            &&& is_open(a, vds, vt0) && is_open(b, vds, vt0) ==> g.0.minus(f.0) == f.1.times(
                b.minus(a),
            ) && g.1 == f.1
            &&& is_saturated(a, vds, vt0) && is_saturated(b, vds, vt0) ==> g.0.minus(f.0)
                == mean.times(b.minus(a))
        }),
{
    let half = R::decimal(5, -1);
    let (u, v) = (a.minus(vt0), b.minus(vt0));
    lemma_regions(a, vds, kp, vt0);
    lemma_regions(b, vds, kp, vt0);
    // v - u == b - a
    lemma_difference_exchange(b, vt0, a, vt0);
    field::minus_self(vt0);
    field::minus_nil(b.minus(a));
    let w = b.minus(a);
    // the open channel: kp ((v x - q) - (u x - q)) == kp (w x)
    let q = half.times(vds).times(vds);
    field::distributes_minus(kp, v.times(vds).minus(q), u.times(vds).minus(q));
    lemma_difference_exchange(v.times(vds), q, u.times(vds), q);
    field::minus_self(q);
    field::minus_nil(v.times(vds).minus(u.times(vds)));
    field::minus_distributes(v, u, vds);
    field::times_comm(w, vds);
    field::times_assoc(kp, vds, w);
    // pinched off: half kp (v v - u u) == half (kp u + kp v) w
    let k = half.times(kp);
    field::times_assoc(k, u, u);
    field::times_assoc(k, v, v);
    field::distributes_minus(k, v.times(v), u.times(u));
    model_laws::lemma_squares(v, u);
    let s = v.plus(u);
    field::plus_comm(u, v);
    field::distributes(kp, u, v);
    field::times_assoc(half, kp, s);
    field::times_assoc(k, s, w);
    field::times_comm(s, w);
}

/// What the transistor carries: nothing below the threshold and nothing without
/// a drain voltage; pinched off its transconductance is `kp` times the voltage
/// over the threshold, and twice the current is the transconductance times that
/// voltage; in the open channel the transconductance is `kp` times the drain
/// voltage, and the two conductances add up to that of pinch off. Without
/// channel length modulation.
pub proof fn the_transistor_is_quadratic<R: Real>(vgs: R, vds: R, kp: R, vt0: R)
    requires
        num::is_field::<R>(),
        halves::<R>(),
    ensures
        ({
            let v = vgs.minus(vt0);
            let f = models::square_law(vgs, vds, kp, vt0, R::nil());
            &&& !conducts(vgs, vt0) ==> f.0 == R::nil() && f.1 == R::nil() && f.2 == R::nil()
            &&& is_open(vgs, vds, vt0) && vds == R::nil() ==> f.0 == R::nil()
            &&& is_open(vgs, vds, vt0) ==> f.1 == kp.times(vds) && f.1.plus(f.2) == kp.times(v)
            &&& is_saturated(vgs, vds, vt0) ==> f.1 == kp.times(v) && f.0.plus(f.0)
                == f.1.times(v)
        }),
{
    let v = vgs.minus(vt0);
    let half = R::decimal(5, -1);
    lemma_regions(vgs, vds, kp, vt0);
    if vds == R::nil() {
        field::times_nil(v);
        field::times_nil(half.times(vds));
        field::minus_self(R::nil());
        field::times_nil(kp);
    }
    field::distributes(kp, vds, v.minus(vds));
    field::plus_comm(vds, v.minus(vds));
    field::minus_plus(v, vds);
    let p = kp.times(v).times(v);
    field::times_assoc(half, kp, v);
    field::times_assoc(half, kp.times(v), v);
    field::distributes(half, p, p);
    lemma_half(p);
}

/// Channel length modulation multiplies current and transconductance by
/// `1 + lambda vds`; the output conductance follows by the product rule.
pub proof fn modulation_is_a_factor<R: Real>(vgs: R, vds: R, kp: R, vt0: R, lambda: R)
    requires
        num::is_field::<R>(),
    ensures
        ({
            let f = models::square_law(vgs, vds, kp, vt0, R::nil());
            let g = models::square_law(vgs, vds, kp, vt0, lambda);
            let factor = R::unit().plus(lambda.times(vds));
            &&& g.0 == f.0.times(factor)
            &&& g.1 == f.1.times(factor)
            &&& g.2 == f.2.times(factor).plus(f.0.times(lambda))
        }),
{
    let factor = R::unit().plus(lambda.times(vds));
    lemma_regions(vgs, vds, kp, vt0);
    field::times_nil(factor);
    field::times_nil(lambda);
    field::plus_nil(R::nil());
    let i = models::square_law(vgs, vds, kp, vt0, R::nil()).0;
    field::plus_nil(i.times(lambda));
}

} // verus!
