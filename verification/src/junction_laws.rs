//! Junctions: their current, the limiting of their voltage and their charge.
use vstd::prelude::*;

use crate::field;
use crate::models;
use crate::num;
use crate::num::Real;
use crate::wave_laws;

verus! {

/// The junction is below the bound on its exponent.
pub open spec fn is_moderate<R: Real>(v: R, vt: R) -> bool {
    v.over(vt).lesser_of(R::decimal(200, 0)) == v.over(vt)
}

/// The exponential undoes the logarithm of a positive number.
pub open spec fn logarithms_are_exact<R: Real>() -> bool {
    forall|a: R| R::nil().below(a) ==> (#[trigger] a.logarithm()).exponential() == a
}

/// A diode without a voltage carries nothing, and the minimal conductance lies
/// in parallel to it.
pub proof fn diodes_rest_at_zero<R: Real>(v: R, is: R, vt: R, gmin: R)
    requires
        num::is_field::<R>(),
        vt != R::nil(),
        is_moderate(R::nil(), vt),
        R::nil().exponential() == R::unit(),
    ensures
        models::diode_point(R::nil(), is, vt, gmin).0 == R::nil(),
        models::diode_point(v, is, vt, gmin).0 == models::diode_point(
            v,
            is,
            vt,
            R::nil(),
        ).0.plus(gmin.times(v)),
        models::diode_point(v, is, vt, gmin).1 == models::diode_point(
            v,
            is,
            vt,
            R::nil(),
        ).1.plus(gmin),
{
    field::times_nil(vt);
    field::over_unique(R::nil(), vt, R::nil());
    field::minus_self(R::unit());
    field::times_nil(is);
    field::times_nil(gmin);
    field::plus_nil(R::nil());
    let e = models::junction_gain(v, vt);
    field::times_nil(v);
    field::plus_nil(is.times(e.minus(R::unit())));
    field::plus_nil(is.times(e).over(vt));
}

/// The conductance of a diode is the slope of an exponential: `vt` times it is
/// the current above the saturation current, which flows backwards.
pub proof fn diode_conductance_follows_its_current<R: Real>(v: R, is: R, vt: R, gmin: R)
    requires
        num::is_field::<R>(),
        vt != R::nil(),
    ensures
        ({
            let (i, g) = models::diode_point(v, is, vt, gmin);
            g.minus(gmin).times(vt) == i.minus(gmin.times(v)).plus(is)
        }),
{
    let e = models::junction_gain(v, vt);
    let (i, g) = models::diode_point(v, is, vt, gmin);
    let a = is.times(e);
    field::plus_minus(a.over(vt), gmin, gmin);
    field::minus_self(gmin);
    field::plus_nil(a.over(vt));
    field::over_times(a, vt);
    let b = is.times(e.minus(R::unit()));
    let gv = gmin.times(v);
    field::plus_minus(b, gv, gv);
    field::minus_self(gv);
    field::plus_nil(b);
    field::distributes_minus(is, e, R::unit());
    field::times_unit(is);
    field::minus_plus(a, is);
}

/// The current of a diode grows exponentially: with `u` more volts, what flows
/// above the saturation current is `exp(u / vt)` times as much.
pub proof fn diodes_grow_exponentially<R: Real>(v: R, u: R, is: R, vt: R)
    requires
        num::is_field::<R>(),
        wave_laws::exponentials_multiply::<R>(),
        vt != R::nil(),
        is_moderate(v, vt),
        is_moderate(v.plus(u), vt),
    ensures
        models::diode_point(v.plus(u), is, vt, R::nil()).0.plus(is) == models::diode_point(
            v,
            is,
            vt,
            R::nil(),
        ).0.plus(is).times(u.over(vt).exponential()),
{
    // (v + u) / vt == v / vt + u / vt
    let (a, b) = (v.over(vt), u.over(vt));
    field::plus_distributes(a, b, vt);
    field::over_times(v, vt);
    field::over_times(u, vt);
    field::over_unique(v.plus(u), vt, a.plus(b));
    lemma_above(v, is, vt);
    lemma_above(v.plus(u), is, vt);
    assert(a.plus(b).exponential() == a.exponential().times(b.exponential()));
    field::times_assoc(is, a.exponential(), b.exponential());
}

proof fn lemma_above<R: Real>(v: R, is: R, vt: R)
    requires
        num::is_field::<R>(),
    ensures
        models::diode_point(v, is, vt, R::nil()).0.plus(is) == is.times(
            models::junction_gain(v, vt),
        ),
{
    let e = models::junction_gain(v, vt);
    field::times_nil(v);
    field::plus_nil(is.times(e.minus(R::unit())));
    field::distributes_minus(is, e, R::unit());
    field::times_unit(is);
    field::minus_plus(is.times(e), is);
}

/// The limiting of a junction voltage. A conducting junction moves to where its
/// exponential has grown as the tangent at the last voltage says, one that did
/// not conduct to where the exponential is the new voltage over `vt`. Only
/// moves by more than `2 vt` to beyond the critical voltage are limited.
pub proof fn limited_junctions_follow_the_tangent<R: Real>(vnew: R, vold: R, vt: R, vcrit: R)
    requires
        num::is_field::<R>(),
        logarithms_are_exact::<R>(),
        vt != R::nil(),
    ensures
        ({
            let v = models::limited_voltage(vnew, vold, vt, vcrit);
            let far = vcrit.below(vnew) && R::decimal(2, 0).times(vt).below(
                vnew.minus(vold).size(),
            );
            let growth = R::unit().plus(vnew.minus(vold).over(vt));
            &&& !far ==> v == vnew
            &&& far && R::nil().below(vold) && R::nil().below(growth) ==> v.minus(vold).over(
                vt,
            ).exponential().minus(R::unit()).times(vt) == vnew.minus(vold)
            &&& far && R::nil().below(vold) && !R::nil().below(growth) ==> v == vcrit
            &&& far && !R::nil().below(vold) && R::nil().below(vnew.over(vt)) ==> v.over(
                vt,
            ).exponential().times(vt) == vnew
        }),
{
    let d = vnew.minus(vold);
    let growth = R::unit().plus(d.over(vt));
    let l = growth.logarithm();
    // ((vold + vt l) - vold) / vt == l
    field::sum_minus(vold, vt.times(l), vold);
    field::minus_self(vold);
    field::plus_nil(vt.times(l));
    field::times_comm(vt, l);
    field::over_unique(vt.times(l), vt, l);
    // ((1 + d / vt) - 1) vt == d
    field::sum_minus(R::unit(), d.over(vt), R::unit());
    field::minus_self(R::unit());
    field::plus_nil(d.over(vt));
    field::over_times(d, vt);
    let m = vnew.over(vt).logarithm();
    field::times_comm(vt, m);
    field::over_unique(vt.times(m), vt, m);
    field::over_times(vnew, vt);
}

/// At the critical voltage of a junction, the root of two times the current
/// scale times the exponential is the thermal voltage.
pub proof fn critical_voltage_by_its_exponential<R: Real>(vt: R, is: R)
    requires
        num::is_field::<R>(),
        logarithms_are_exact::<R>(),
        vt != R::nil(),
        R::decimal(14142135623730951, -16).times(is) != R::nil(),
        R::nil().below(vt.over(R::decimal(14142135623730951, -16).times(is))),
    ensures
        models::critical_voltage(vt, is).over(vt).exponential().times(
            R::decimal(14142135623730951, -16).times(is),
        ) == vt,
{
    let a = R::decimal(14142135623730951, -16).times(is);
    let l = vt.over(a).logarithm();
    field::times_comm(vt, l);
    field::over_unique(vt.times(l), vt, l);
    field::over_times(vt, a);
}

/// A junction is reported as held back exactly if the limiting moved it by more
/// than a microvolt, and it is limited at its critical voltage.
pub proof fn junctions_are_held_back_by_a_microvolt<R: Real>(
    raw: R,
    last: R,
    vt: R,
    is: R,
)
    ensures
        ({
            let v = models::junction_voltage(raw, last, vt, is);
            &&& models::held_back(v, raw) <==> R::decimal(1, -6).below(v.minus(raw).size())
            &&& v == models::limited_voltage(raw, last, vt, models::critical_voltage(vt, is))
        }),
{
}

/// Charge and capacitance of a graded junction below half a volt. Where the
/// grading is not one, `(1 - m) q == c0 - (1 - v) c`, which is the charge whose
/// slope is the capacitance; where it is one the charge is `-c0 ln(1 - v)`.
/// Without a voltage there is no charge, and the capacitance is `c0`.
pub proof fn graded_charge_fits_its_capacitance<R: Real>(v: R, c0: R, m: R)
    requires
        num::is_field::<R>(),
        v.below(R::decimal(5, -1)),
        R::nil().below(R::decimal(5, -1)),
        !(m.at_most(R::nil()) && R::nil().at_most(m)),
        m.at_most(R::unit()) && R::unit().at_most(m) <==> m == R::unit(),
        forall|p: R, k: R| #[trigger]
            p.power(R::unit().minus(k)) == p.times(p.power(k.opposite())),
        forall|k: R| #[trigger] R::unit().power(k) == R::unit(),
        R::unit().logarithm() == R::nil(),
    ensures
        ({
            let (q, c) = models::charge(v, c0, m);
            let p = R::unit().minus(v);
            &&& c == c0.times(p.power(m.opposite()))
            &&& m != R::unit() ==> R::unit().minus(m).times(q) == c0.minus(p.times(c))
            &&& m == R::unit() ==> q.plus(c0.times(p.logarithm())) == R::nil()
            &&& v == R::nil() ==> q == R::nil() && c == c0
        }),
{
    let half = R::decimal(5, -1);
    field::times_unit(half);
    field::times_unit(v);
    field::unit_is_not_nil::<R>();
    field::over_unique(v, R::unit(), v);
    let p = R::unit().minus(v);
    let e = R::unit().minus(m);
    let (q, c) = models::charge(v, c0, m);
    field::times_unit(c0);
    if v == R::nil() {
        field::minus_nil(R::unit());
    }
    if m == R::unit() {
        let l = c0.times(p.logarithm());
        field::minus_plus(R::nil(), l);
        field::times_nil(c0);
        field::minus_self(R::nil());
    } else {
        if e == R::nil() {
            field::minus_plus(R::unit(), m);
            field::plus_nil(m);
        }
        let w = p.power(e);
        let k = c0.over(e);
        // e ((c0 / e) (1 - w)) == c0 (1 - w)
        field::times_comm(e, q);
        field::times_assoc(k, R::unit().minus(w), e);
        field::times_comm(R::unit().minus(w), e);
        field::times_assoc(k, e, R::unit().minus(w));
        field::over_times(c0, e);
        field::distributes_minus(c0, R::unit(), w);
        let s = p.power(m.opposite());
        assert(w == p.times(s));
        field::times_assoc(c0, p, s);
        field::times_comm(c0, p);
        field::times_assoc(p, c0, s);
        field::minus_self(R::unit());
        field::times_nil(k);
    }
}

/// Above half a volt the capacitance of a graded junction is linear in the
/// voltage, with the slope that the graded form has at half a volt.
pub proof fn capacitance_continues_with_its_slope<R: Real>(a: R, b: R, c0: R, m: R)
    requires
        num::is_field::<R>(),
        !(m.at_most(R::nil()) && R::nil().at_most(m)),
        !a.below(R::decimal(5, -1)),
        !b.below(R::decimal(5, -1)),
        R::decimal(5, -1).plus(R::decimal(5, -1)) == R::unit(),
    ensures
        ({
            let half = R::decimal(5, -1);
            let (ca, cb) = (models::charge(a, c0, m).1, models::charge(b, c0, m).1);
            cb.minus(ca).times(half) == m.times(c0.times(half.power(m.opposite()))).times(
                b.minus(a),
            )
        }),
{
    let half = R::decimal(5, -1);
    field::times_unit(half);
    // 1 - half == half
    field::minus_unique(R::unit(), half, half);
    let cf = c0.times(half.power(m.opposite()));
    field::unit_is_not_nil::<R>();
    if half == R::nil() {
        field::plus_nil(half);
    }
    let slope = cf.times(m).over(half);
    let (da, db) = (a.minus(half), b.minus(half));
    let (sa, sb) = (slope.times(da), slope.times(db));
    // (cf + sb) - (cf + sa) == sb - sa
    field::minus_sum(cf.plus(sb), cf, sa);
    field::sum_minus(cf, sb, cf);
    field::minus_self(cf);
    field::plus_nil(sb);
    field::distributes_minus(slope, db, da);
    // (b - half) - (a - half) == b - a
    field::minus_difference(db, a, half);
    field::minus_swap(b, half, a);
    field::minus_plus(b.minus(a), half);
    let d = b.minus(a);
    field::times_assoc(slope, d, half);
    field::times_comm(d, half);
    field::times_assoc(slope, half, d);
    field::over_times(cf.times(m), half);
    field::times_comm(cf, m);
}

/// Between two corners a course is on the line through them: it has risen from
/// the first in proportion to the time.
pub proof fn interpolation_is_in_proportion<R: Real>(a: (R, R), b: (R, R), t: R)
    requires
        num::is_field::<R>(),
        b.0.minus(a.0) != R::nil(),
    ensures
        models::interpolated(a, b, t).minus(a.1).times(b.0.minus(a.0)) == b.1.minus(a.1).times(
            t.minus(a.0),
        ),
{
    let q = b.1.minus(a.1).times(t.minus(a.0)).over(b.0.minus(a.0));
    field::sum_minus(a.1, q, a.1);
    field::minus_self(a.1);
    field::plus_nil(q);
    field::over_times(b.1.minus(a.1).times(t.minus(a.0)), b.0.minus(a.0));
}

/// The exponent of a junction is bounded by 200: beyond it the current of a
/// diode grows only through the minimal conductance.
pub proof fn exponents_are_bounded<R: Real>(u: R, v: R, is: R, vt: R, gmin: R)
    requires
        num::is_field::<R>(),
        u.over(vt).lesser_of(R::decimal(200, 0)) == R::decimal(200, 0),
        v.over(vt).lesser_of(R::decimal(200, 0)) == R::decimal(200, 0),
    ensures
        models::diode_point(u, is, vt, gmin).0.plus(is).minus(gmin.times(u)) == is.times(
            R::decimal(200, 0).exponential(),
        ),
        models::diode_point(u, is, vt, gmin).1 == models::diode_point(v, is, vt, gmin).1,
{
    let e = R::decimal(200, 0).exponential();
    let a = is.times(e.minus(R::unit()));
    let g = gmin.times(u);
    field::sum_minus(a.plus(g), is, g);
    field::plus_minus(a, g, g);
    field::minus_self(g);
    field::plus_nil(a);
    field::distributes_minus(is, e, R::unit());
    field::times_unit(is);
    field::minus_plus(is.times(e), is);
}

} // verus!
