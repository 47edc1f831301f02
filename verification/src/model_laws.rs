//! What holds of the device models.
use vstd::prelude::*;

use crate::assembly::ModeModel;
use crate::circuit::{DevModel, WaveModel};
use crate::equations;
use crate::field;
use crate::kirchhoff;
use crate::models;
use crate::num;
use crate::num::Real;
use crate::signs;
use crate::stamps;

verus! {

/// The times of the corners rise strictly.
pub open spec fn rising<R: Real>(pts: Seq<(R, R)>) -> bool {
    forall|i: int, j: int|
        0 <= i < j < pts.len() ==> (#[trigger] pts[i]).0.below((#[trigger] pts[j]).0)
}

proof fn lemma_corner<R: Real>(pts: Seq<(R, R)>, k: int, j: int, v: R)
    requires
        num::is_order::<R>(),
        rising(pts),
        0 <= k <= j < pts.len(),
        pts[j].0.at_most(pts[j].0),
    ensures
        models::corner_value(pts, pts[j].0, k, v) == if k < j {
            pts[j].1
        } else {
            v
        },
    decreases j - k,
{
    reveal(num::is_order);
    if k < j {
        if k + 1 < j {
            assert(pts[k + 1].0.below(pts[j].0));
        }
        assert(pts[k + 1].0.at_most(pts[j].0));
        lemma_corner(pts, k + 1, j, pts[k + 1].1);
    } else if j + 1 < pts.len() {
        assert(pts[j].0.below(pts[j + 1].0));
        assert(!pts[j].0.below(pts[j].0));
    }
}

/// A piecewise linear source passes through its corners.
pub proof fn sources_pass_their_corners<R: Real>(dc: R, pts: Seq<(R, R)>, per: R, j: int)
    requires
        num::is_order::<R>(),
        rising(pts),
        !R::nil().below(per),
        0 <= j < pts.len(),
        pts[j].0.at_most(pts[j].0),
    ensures
        models::source_value(dc, Some(WaveModel::Pwl { pts, per }), pts[j].0) == pts[j].1,
{
    lemma_corner(pts, 0, j, pts[0].1);
}

proof fn lemma_after<R: Real>(pts: Seq<(R, R)>, t: R, k: int, v: R)
    requires
        0 <= k < pts.len(),
        forall|i: int| k < i < pts.len() ==> (#[trigger] pts[i]).0.at_most(t),
    ensures
        models::corner_value(pts, t, k, v) == if k + 1 < pts.len() {
            pts.last().1
        } else {
            v
        },
    decreases pts.len() - k,
{
    if k + 1 < pts.len() {
        assert(pts[k + 1].0.at_most(t));
        lemma_after(pts, t, k + 1, pts[k + 1].1);
    }
}

/// Before its first corner a piecewise linear source holds the first value and
/// behind its last corner the last one.
pub proof fn sources_hold_their_ends<R: Real>(dc: R, pts: Seq<(R, R)>, per: R, t: R)
    requires
        num::is_order::<R>(),
        rising(pts),
        !R::nil().below(per),
        pts.len() > 0,
    ensures
        t.below(pts[0].0) ==> models::source_value(dc, Some(WaveModel::Pwl { pts, per }), t)
            == pts[0].1,
        pts.last().0.at_most(t) ==> models::source_value(dc, Some(WaveModel::Pwl { pts, per }), t)
            == pts.last().1,
{
    reveal(num::is_order);
    if t.below(pts[0].0) && pts.len() > 1 {
        assert(pts[0].0.below(pts[1].0));
        if pts[1].0.at_most(t) {
            assert(pts[1].0.at_most(pts[0].0));
        }
        assert(!pts[0].0.below(t));
    }
    if pts.last().0.at_most(t) {
        assert forall|i: int| 0 < i < pts.len() implies (#[trigger] pts[i]).0.at_most(t) by {
            if i < pts.len() - 1 {
                assert(pts[i].0.below(pts[pts.len() - 1].0));
            }
        }
        lemma_after(pts, t, 0, pts[0].1);
    }
}

/// Between two corners a piecewise linear source follows the line through
/// them.
pub proof fn sources_are_linear_between_corners<R: Real>(
    dc: R,
    pts: Seq<(R, R)>,
    per: R,
    j: int,
    t: R,
)
    requires
        num::is_order::<R>(),
        rising(pts),
        !R::nil().below(per),
        0 <= j,
        j + 1 < pts.len(),
        pts[j].0.below(t),
        t.below(pts[j + 1].0),
    ensures
        models::source_value(dc, Some(WaveModel::Pwl { pts, per }), t) == models::interpolated(
            pts[j],
            pts[j + 1],
            t,
        ),
{
    lemma_between(pts, 0, j, t, pts[0].1);
}

proof fn lemma_between<R: Real>(pts: Seq<(R, R)>, k: int, j: int, t: R, v: R)
    requires
        num::is_order::<R>(),
        rising(pts),
        0 <= k <= j,
        j + 1 < pts.len(),
        pts[j].0.below(t),
        t.below(pts[j + 1].0),
    ensures
        models::corner_value(pts, t, k, v) == models::interpolated(pts[j], pts[j + 1], t),
    decreases j - k,
{
    reveal(num::is_order);
    if k < j {
        if k + 1 < j {
            assert(pts[k + 1].0.below(pts[j].0));
        }
        assert(pts[k + 1].0.at_most(t));
        lemma_between(pts, k + 1, j, t, pts[k + 1].1);
    }
}

/// Without grading a capacitor is linear.
pub proof fn ungraded_capacitors_are_linear<R: Real>(v: R, c0: R)
    requires
        R::nil().at_most(R::nil()),
    ensures
        models::charge(v, c0, R::nil()) == (c0.times(v), c0),
{
}

/// In exact arithmetic charge and capacitance of a graded junction are
/// continuous where the linearization begins: there the linearized form gives
/// what the graded form gives.
pub proof fn junction_charge_is_continuous<R: Real>(c0: R, m: R)
    requires
        num::is_field::<R>(),
        num::is_order::<R>(),
        !num::same(m, R::nil()),
    ensures
        ({
            let edge = R::decimal(5, -1).times(R::unit());
            models::charge(edge, c0, m) == (
                models::graded_charge(edge, c0, m),
                c0.times(R::unit().minus(edge.over(R::unit())).power(m.opposite())),
            )
        }),
{
    let half = R::decimal(5, -1);
    let edge = half.times(R::unit());
    let cf = c0.times(R::unit().minus(half).power(m.opposite()));
    let slope = cf.times(m).over(R::unit().times(R::unit().minus(half)));
    let q = models::graded_charge(edge, c0, m);
    let dv = edge.minus(edge);
    assert(!edge.below(edge)) by {
        reveal(num::is_order);
    }
    field::minus_self(edge);
    field::times_nil(cf);
    field::times_nil(slope);
    field::plus_nil(q);
    field::times_nil(half.times(slope).times(R::nil()));
    field::plus_nil(cf);
    field::times_unit(half);
    field::unit_is_not_nil::<R>();
    field::over_unique(half, R::unit(), half);
}

/// In exact arithmetic the charge integrates the capacitance where that is a
/// constant or linear: without grading the charge grows by the capacitance
/// times the voltage, and above half a volt by the mean capacitance times the
/// voltage.
pub proof fn charge_integrates_the_capacitance<R: Real>(a: R, b: R, c0: R, m: R)
    requires
        num::is_field::<R>(),
        R::nil().at_most(R::nil()),
        R::decimal(5, -1).plus(R::decimal(5, -1)) == R::unit(),
    ensures
        models::charge(b, c0, R::nil()).0.minus(models::charge(a, c0, R::nil()).0) == c0.times(
            b.minus(a),
        ),
        ({
            let half = R::decimal(5, -1);
            let edge = half.times(R::unit());
            let (qa, ca) = models::charge(a, c0, m);
            let (qb, cb) = models::charge(b, c0, m);
            !num::same(m, R::nil()) && !a.below(edge) && !b.below(edge) ==> qb.minus(qa)
                == half.times(ca.plus(cb)).times(b.minus(a))
        }),
{
    field::distributes_minus(c0, b, a);
    let half = R::decimal(5, -1);
    let edge = half.times(R::unit());
    let cf = c0.times(R::unit().minus(half).power(m.opposite()));
    let k = cf.times(m).over(R::unit().times(R::unit().minus(half)));
    let q = models::graded_charge(edge, c0, m);
    let (x, y) = (a.minus(edge), b.minus(edge));
    // b - a == y - x
    let w = b.minus(a);
    lemma_shifted_difference(b, a, edge);
    // the linear part grows by cf w
    let (cx, cy) = (cf.times(x), cf.times(y));
    field::distributes_minus(cf, y, x);
    // the quadratic part grows by half k (x + y) w
    let h = half.times(k);
    let (sx, sy) = (h.times(x).times(x), h.times(y).times(y));
    field::times_assoc(h, x, x);
    field::times_assoc(h, y, y);
    field::distributes_minus(h, y.times(y), x.times(x));
    lemma_squares(y, x);
    // qb - qa
    field::plus_assoc(q, cy, sy);
    field::plus_assoc(q, cx, sx);
    lemma_common_part(q, cy.plus(sy), cx.plus(sx));
    field::minus_exchange(cy, cx, sy, sx);
    let s = y.plus(x);
    let grown = cf.times(w).plus(h.times(w.times(s)));
    // half (ca + cb) == cf + half k (x + y)
    let (kx, ky) = (k.times(x), k.times(y));
    field::plus_exchange(cf, kx, cf, ky);
    field::distributes(half, cf.plus(cf), kx.plus(ky));
    field::distributes(half, cf, cf);
    field::plus_distributes(half, half, cf);
    field::times_unit(cf);
    field::distributes(k, x, y);
    field::times_assoc(half, k, x.plus(y));
    field::plus_comm(x, y);
    field::plus_distributes(cf, h.times(s), w);
    field::times_assoc(h, s, w);
    field::times_comm(s, w);
}

/// `(a - c) - (b - c) == a - b`
proof fn lemma_shifted_difference<R: Real>(a: R, b: R, c: R)
    requires
        num::is_field::<R>(),
    ensures
        a.minus(c).minus(b.minus(c)) == a.minus(b),
{
    field::minus_difference(a.minus(c), b, c);
    field::minus_swap(a, c, b);
    field::minus_plus(a.minus(b), c);
}

/// `(q + a) - (q + b) == a - b`
proof fn lemma_common_part<R: Real>(q: R, a: R, b: R)
    requires
        num::is_field::<R>(),
    ensures
        q.plus(a).minus(q.plus(b)) == a.minus(b),
{
    field::minus_sum(q.plus(a), q, b);
    field::plus_comm(q, a);
    field::plus_minus(a, q, q);
    field::minus_self(q);
    field::plus_nil(a);
}

/// `(a - b) * (a + b) == a * a - b * b`
pub(crate) proof fn lemma_squares<R: Real>(a: R, b: R)
    requires
        num::is_field::<R>(),
    ensures
        a.minus(b).times(a.plus(b)) == a.times(a).minus(b.times(b)),
{
    let s = a.plus(b);
    field::minus_distributes(a, b, s);
    field::distributes(a, a, b);
    field::distributes(b, a, b);
    field::times_comm(b, a);
    // (aa + ab) - (ab + bb) == aa - bb
    let (aa, ab, bb) = (a.times(a), a.times(b), b.times(b));
    field::minus_sum(aa.plus(ab), ab, bb);
    field::plus_minus(aa, ab, ab);
    field::minus_self(ab);
    field::plus_nil(aa);
}

/// A junction voltage that moves by no more than twice the thermal voltage, or
/// that stays below the critical voltage, is not limited.
pub proof fn small_moves_are_not_limited<R: Real>(vnew: R, vold: R, vt: R, vcrit: R)
    requires
        num::is_order::<R>(),
        vnew.minus(vold).size().at_most(R::decimal(2, 0).times(vt)) || vnew.at_most(vcrit),
    ensures
        models::limited_voltage(vnew, vold, vt, vcrit) == vnew,
{
    reveal(num::is_order);
}

/// In exact arithmetic the square law is continuous where saturation begins:
/// there the expressions of both regions agree.
pub proof fn square_law_is_continuous<R: Real>(vov: R, kp: R, lambda: R)
    requires
        num::is_field::<R>(),
        R::decimal(5, -1).plus(R::decimal(5, -1)) == R::unit(),
    ensures
        ({
            let half = R::decimal(5, -1);
            let lam = R::unit().plus(lambda.times(vov));
            let linear = kp.times(vov.times(vov).minus(half.times(vov).times(vov)));
            let saturated = half.times(kp).times(vov).times(vov);
            &&& linear == saturated
            &&& kp.times(vov.minus(vov)).times(lam).plus(linear.times(lambda)) == saturated.times(
                lambda,
            )
        }),
{
    let half = R::decimal(5, -1);
    let lam = R::unit().plus(lambda.times(vov));
    let sq = vov.times(vov);
    let linear = kp.times(sq.minus(half.times(vov).times(vov)));
    // sq - half sq == half sq
    field::times_assoc(half, vov, vov);
    field::plus_distributes(half, half, sq);
    field::times_unit(sq);
    field::minus_unique(sq, half.times(sq), half.times(sq));
    // kp (half sq) == half kp vov vov
    field::times_assoc(kp, half, sq);
    field::times_comm(kp, half);
    field::times_assoc(half.times(kp), vov, vov);
    field::minus_self(vov);
    field::times_nil(kp);
    field::times_nil(lam);
    field::plus_nil(linear.times(lambda));
}

/// Exchanging drain and source of a field effect transistor does not change
/// its effective operating point, as long as one of the two is the higher one.
pub proof fn drain_and_source_are_exchangeable<R: Real>(
    d: usize,
    g: usize,
    s: usize,
    kp: R,
    vt0: R,
    lambda: R,
    pmos: bool,
    x: Seq<R>,
)
    requires
        ({
            let sg = models::polarity::<R>(pmos);
            R::nil().at_most(sg.times(x[d as int].minus(x[s as int]))) != R::nil().at_most(
                sg.times(x[s as int].minus(x[d as int])),
            )
        }),
    ensures
        models::fet_point(d, g, s, kp, vt0, lambda, pmos, x) == models::fet_point(
            s,
            g,
            d,
            kp,
            vt0,
            lambda,
            pmos,
            x,
        ),
{
}

/// The frame of a field effect transistor at finite voltages. Effective drain
/// and source are the two terminals, and the voltage between them, in the sign
/// of the polarity, is not negative. Exchanging the terminals changes nothing
/// unless they are at the same voltage.
pub proof fn the_frame_is_upright<R: Real>(
    d: usize,
    g: usize,
    s: usize,
    kp: R,
    vt0: R,
    lambda: R,
    pmos: bool,
    x: Seq<R>,
)
    requires
        signs::signs_pass::<R>(),
        signs::signs_are_opposed::<R>(),
        x[d as int].finite(),
        x[s as int].finite(),
    ensures
        ({
            let sg = models::polarity::<R>(pmos);
            let o = models::fet_point(d, g, s, kp, vt0, lambda, pmos, x);
            &&& (o.ed == d && o.es == s) || (o.ed == s && o.es == d)
            &&& R::nil().at_most(sg.times(x[o.ed as int].minus(x[o.es as int])))
            &&& !num::same(x[d as int], x[s as int]) ==> models::fet_point(
                s,
                g,
                d,
                kp,
                vt0,
                lambda,
                pmos,
                x,
            ) == o
        }),
{
    let sg = models::polarity::<R>(pmos);
    let (a, b) = (x[d as int], x[s as int]);
    let u = sg.times(a.minus(b));
    let v = sg.times(b.minus(a));
    assert(signs::opposed(u, v)) by {
        signs::lemma_alike_itself(sg);
        assert(signs::opposed(a.minus(b), b.minus(a))) by {
            reveal(signs::opposites_pair);
        }
        reveal(signs::opposition_passes);
    }
    assert(u.at_most(u) && (num::same(u, R::nil()) ==> num::same(a, b)));
    if R::nil().at_most(u) != R::nil().at_most(v) {
        drain_and_source_are_exchangeable(d, g, s, kp, vt0, lambda, pmos, x);
    }
}

/// The square law does not tell voltages apart that are alike.
proof fn lemma_square_law<R: Real>(vgs: R, vds: R, wgs: R, wds: R, kp: R, vt0: R, lambda: R)
    requires
        signs::signs_pass::<R>(),
        signs::alike(vgs, wgs),
        signs::alike(vds, wds),
    ensures
        ({
            let a = models::square_law(vgs, vds, kp, vt0, lambda);
            let b = models::square_law(wgs, wds, kp, vt0, lambda);
            &&& signs::alike(a.0, b.0)
            &&& signs::alike(a.1, b.1)
            &&& signs::alike(a.2, b.2)
        }),
{
    let half = R::decimal(5, -1);
    signs::lemma_alike_itself(kp);
    signs::lemma_alike_itself(vt0);
    signs::lemma_alike_itself(lambda);
    signs::lemma_alike_itself(half);
    signs::lemma_alike_itself(R::nil());
    signs::lemma_alike_itself(R::unit());
    signs::lemma_alike_itself(half.times(kp));
    let (v, w) = (vgs.minus(vt0), wgs.minus(vt0));
    assert(signs::alike(v, w)) by {
        reveal(signs::likeness_passes);
    }
    signs::lemma_compared(v, R::nil(), w, R::nil());
    signs::lemma_compared(vds, v, wds, w);
    reveal(signs::likeness_passes);
}

/// The complementary field effect transistor at voltages with their signs
/// turned round has the same frame and the same slopes, and carries the
/// opposite current.
pub proof fn complementary_points_mirror<R: Real>(
    d: usize,
    g: usize,
    s: usize,
    kp: R,
    vt0: R,
    lambda: R,
    pmos: bool,
    x: Seq<R>,
    y: Seq<R>,
)
    requires
        signs::signs_pass::<R>(),
        signs::all_opposed(x, y),
        d < x.len(),
        g < x.len(),
        s < x.len(),
    ensures
        ({
            let a = models::fet_point(d, g, s, kp, vt0, lambda, pmos, x);
            let b = models::fet_point(d, g, s, kp, vt0, lambda, !pmos, y);
            &&& b.ed == a.ed
            &&& b.es == a.es
            &&& signs::opposed(a.i, b.i)
            &&& signs::alike(a.gm, b.gm)
            &&& signs::alike(a.gds, b.gds)
        }),
{
    let (di, gi, si) = (d as int, g as int, s as int);
    let (p, q) = (models::polarity::<R>(pmos), models::polarity::<R>(!pmos));
    assert(signs::opposed(x[di], y[di]) && signs::opposed(x[gi], y[gi]) && signs::opposed(
        x[si],
        y[si],
    ));
    signs::lemma_frame(pmos, x[di], x[si], y[di], y[si]);
    signs::lemma_alike_itself(R::nil());
    signs::lemma_compared(
        R::nil(),
        p.times(x[di].minus(x[si])),
        R::nil(),
        q.times(y[di].minus(y[si])),
    );
    let a = models::fet_point(d, g, s, kp, vt0, lambda, pmos, x);
    let (ed, es) = (a.ed as int, a.es as int);
    signs::lemma_frame(pmos, x[gi], x[es], y[gi], y[es]);
    signs::lemma_frame(pmos, x[ed], x[es], y[ed], y[es]);
    let (vgs, wgs) = (p.times(x[gi].minus(x[es])), q.times(y[gi].minus(y[es])));
    let (vds, wds) = (p.times(x[ed].minus(x[es])), q.times(y[ed].minus(y[es])));
    lemma_square_law(vgs, vds, wgs, wds, kp, vt0, lambda);
    signs::lemma_current_frame(
        pmos,
        models::square_law(vgs, vds, kp, vt0, lambda).0,
        models::square_law(wgs, wds, kp, vt0, lambda).0,
    );
}

/// The complementary device.
pub open spec fn complementary<R>(d: DevModel<R>) -> DevModel<R> {
    match d {
        DevModel::M { d, g, s, kp, vt0, lambda, pmos } => DevModel::M {
            d,
            g,
            s,
            kp,
            vt0,
            lambda,
            pmos: !pmos,
        },
        DevModel::Q { c, b, e, is, bf, br, pnp } => DevModel::Q {
            c,
            b,
            e,
            is,
            bf,
            br,
            pnp: !pnp,
        },
        _ => d,
    }
}

/// Control pairs between the same unknowns with slopes that are alike.
pub(crate) open spec fn controls_alike<R: Real>(
    a: Seq<(usize, usize, R)>,
    b: Seq<(usize, usize, R)>,
    n: int,
) -> bool {
    &&& a.len() == b.len()
    &&& forall|i: int|
        0 <= i < a.len() ==> {
            &&& (#[trigger] a[i]).0 == (#[trigger] b[i]).0
            &&& a[i].1 == b[i].1
            &&& signs::alike(a[i].2, b[i].2)
            &&& a[i].0 < n
            &&& a[i].1 < n
        }
}

/// A slope times a control voltage.
proof fn lemma_control<R: Real>(
    a: Seq<(usize, usize, R)>,
    b: Seq<(usize, usize, R)>,
    x: Seq<R>,
    y: Seq<R>,
    k: int,
)
    requires
        signs::signs_pass::<R>(),
        signs::all_opposed(x, y),
        controls_alike(a, b, x.len() as int),
        0 <= k < a.len(),
    ensures
        signs::opposed(
            a[k].2.times(x[a[k].0 as int].minus(x[a[k].1 as int])),
            b[k].2.times(y[b[k].0 as int].minus(y[b[k].1 as int])),
        ),
{
    let (p, n) = (a[k].0 as int, a[k].1 as int);
    assert(b[k].0 == p && b[k].1 == n);
    assert(signs::opposed(x[p], y[p]) && signs::opposed(x[n], y[n]));
    reveal(signs::opposition_passes);
    assert(signs::opposed(x[p].minus(x[n]), y[p].minus(y[n])));
}

proof fn lemma_sloped<R: Real>(
    a: Seq<(usize, usize, R)>,
    b: Seq<(usize, usize, R)>,
    x: Seq<R>,
    y: Seq<R>,
    k: int,
)
    requires
        signs::signs_pass::<R>(),
        signs::all_opposed(x, y),
        controls_alike(a, b, x.len() as int),
        0 <= k <= a.len(),
    ensures
        signs::opposed(stamps::sloped(a, x, k), stamps::sloped(b, y, k)),
    decreases k,
{
    if k > 0 {
        lemma_sloped(a, b, x, y, k - 1);
        lemma_control(a, b, x, y, k - 1);
        reveal(signs::opposition_passes);
    } else {
        signs::lemma_nil_opposed::<R>();
    }
}

pub(crate) proof fn lemma_offset<R: Real>(
    i: R,
    j: R,
    a: Seq<(usize, usize, R)>,
    b: Seq<(usize, usize, R)>,
    x: Seq<R>,
    y: Seq<R>,
    k: int,
)
    requires
        signs::signs_pass::<R>(),
        signs::opposed(i, j),
        signs::all_opposed(x, y),
        controls_alike(a, b, x.len() as int),
        0 <= k <= a.len(),
    ensures
        signs::opposed(
            equations::offset_current(i, a, x, k),
            equations::offset_current(j, b, y, k),
        ),
    decreases k,
{
    if k > 0 {
        lemma_offset(i, j, a, b, x, y, k - 1);
        lemma_control(a, b, x, y, k - 1);
        reveal(signs::opposition_passes);
    }
}

/// A current continued from the point that is turned round.
proof fn lemma_flow<R: Real>(
    p: usize,
    n: usize,
    i: R,
    j: R,
    a: Seq<(usize, usize, R)>,
    b: Seq<(usize, usize, R)>,
    x: Seq<R>,
    y: Seq<R>,
    u: Seq<R>,
    v: Seq<R>,
)
    requires
        signs::signs_pass::<R>(),
        signs::opposed(i, j),
        signs::all_opposed(x, y),
        signs::all_opposed(u, v),
        x.len() == u.len(),
        controls_alike(a, b, x.len() as int),
    ensures
        signs::opposed(
            kirchhoff::flow(p, n, i, a, x, u).2,
            kirchhoff::flow(p, n, j, b, y, v).2,
        ),
{
    let len = a.len() as int;
    lemma_sloped(a, b, u, v, len);
    lemma_offset(i, j, a, b, x, y, len);
    reveal(signs::opposition_passes);
}

/// A junction does not tell voltages apart that are alike.
pub(crate) proof fn lemma_junction<R: Real>(raw: R, last: R, raw2: R, last2: R, vt: R, is: R)
    requires
        signs::signs_pass::<R>(),
        signs::alike(raw, raw2),
        signs::alike(last, last2),
    ensures
        ({
            let v = models::junction_voltage(raw, last, vt, is);
            let w = models::junction_voltage(raw2, last2, vt, is);
            &&& signs::alike(v, w)
            &&& models::held_back(v, raw) == models::held_back(w, raw2)
            &&& signs::alike(models::junction_gain(v, vt), models::junction_gain(w, vt))
            &&& signs::alike(raw.minus(v), raw2.minus(w))
        }),
{
    let crit = models::critical_voltage(vt, is);
    let two = R::decimal(2, 0).times(vt);
    let (d, e) = (raw.minus(last), raw2.minus(last2));
    let (p, q) = (R::unit().plus(d.over(vt)), R::unit().plus(e.over(vt)));
    signs::lemma_alike_itself(crit);
    signs::lemma_alike_itself(two);
    signs::lemma_alike_itself(vt);
    signs::lemma_alike_itself(R::nil());
    signs::lemma_alike_itself(R::unit());
    signs::lemma_alike_itself(R::decimal(200, 0));
    signs::lemma_alike_itself(models::voltage_grain::<R>());
    assert(signs::alike(d, e) && signs::alike(p, q)) by {
        reveal(signs::likeness_passes);
    }
    assert(signs::alike(d.size(), e.size())) by {
        reveal(signs::functions_agree);
    }
    signs::lemma_compared(crit, raw, crit, raw2);
    signs::lemma_compared(two, d.size(), two, e.size());
    signs::lemma_compared(R::nil(), last, R::nil(), last2);
    signs::lemma_compared(R::nil(), p, R::nil(), q);
    let v = models::junction_voltage(raw, last, vt, is);
    let w = models::junction_voltage(raw2, last2, vt, is);
    assert(signs::alike(v, w)) by {
        reveal(signs::likeness_passes);
        reveal(signs::functions_agree);
    }
    assert(signs::alike(v.minus(raw), w.minus(raw2)) && signs::alike(
        raw.minus(v),
        raw2.minus(w),
    )) by {
        reveal(signs::likeness_passes);
    }
    let grain = models::voltage_grain::<R>();
    assert(signs::alike(v.minus(raw).size(), w.minus(raw2).size())) by {
        reveal(signs::functions_agree);
    }
    signs::lemma_compared(grain, v.minus(raw).size(), grain, w.minus(raw2).size());
    assert(signs::alike(models::junction_gain(v, vt), models::junction_gain(w, vt))) by {
        reveal(signs::likeness_passes);
        reveal(signs::functions_agree);
    }
}

/// What the two junctions of a bipolar transistor come to: their voltages, the
/// currents of its three paths and the conductances.
pub struct BipolarPoint<R> {
    pub vbe: R,
    pub vbc: R,
    pub i: (R, R, R),
    pub gpi: R,
    pub gmu: R,
    pub gmf: R,
    pub gmr: R,
    pub held: bool,
}

pub(crate) open spec fn bipolar_point<R: Real>(
    vbr: R,
    vcr: R,
    last: (R, R),
    is: R,
    bf: R,
    br: R,
    gmin: R,
) -> BipolarPoint<R> {
    let vt = models::thermal::<R>();
    let vbe = models::junction_voltage(vbr, last.0, vt, is);
    let vbc = models::junction_voltage(vcr, last.1, vt, is);
    let ef = models::junction_gain(vbe, vt);
    let er = models::junction_gain(vbc, vt);
    let gmf = is.times(ef).over(vt);
    let gmr = is.times(er).over(vt);
    let gpi = gmf.over(bf).plus(gmin);
    let gmu = gmr.over(br).plus(gmin);
    let dbe = vbr.minus(vbe);
    let dbc = vcr.minus(vbc);
    let ibe = is.times(ef.minus(R::unit())).over(bf).plus(gmin.times(vbe));
    let ibc = is.times(er.minus(R::unit())).over(br).plus(gmin.times(vbc));
    let ict = is.times(ef.minus(er));
    BipolarPoint {
        vbe,
        vbc,
        i: (
            ibe.plus(gpi.times(dbe)),
            ibc.plus(gmu.times(dbc)),
            ict.plus(gmf.times(dbe)).minus(gmr.times(dbc)),
        ),
        gpi,
        gmu,
        gmf,
        gmr,
        held: models::held_back(vbe, vbr) || models::held_back(vbc, vcr),
    }
}

pub(crate) proof fn lemma_bipolar_point<R: Real>(
    vbr: R,
    vcr: R,
    last: (R, R),
    wbr: R,
    wcr: R,
    last2: (R, R),
    is: R,
    bf: R,
    br: R,
    gmin: R,
)
    requires
        signs::signs_pass::<R>(),
        signs::alike(vbr, wbr),
        signs::alike(vcr, wcr),
        signs::alike(last.0, last2.0),
        signs::alike(last.1, last2.1),
    ensures
        ({
            let a = bipolar_point(vbr, vcr, last, is, bf, br, gmin);
            let b = bipolar_point(wbr, wcr, last2, is, bf, br, gmin);
            &&& signs::alike(a.vbe, b.vbe)
            &&& signs::alike(a.vbc, b.vbc)
            &&& signs::alike(a.i.0, b.i.0)
            &&& signs::alike(a.i.1, b.i.1)
            &&& signs::alike(a.i.2, b.i.2)
            &&& signs::alike(a.gpi, b.gpi)
            &&& signs::alike(a.gmu, b.gmu)
            &&& signs::alike(a.gmf, b.gmf)
            &&& signs::alike(a.gmr, b.gmr)
            &&& a.held == b.held
        }),
{
    let vt = models::thermal::<R>();
    lemma_junction(vbr, last.0, wbr, last2.0, vt, is);
    lemma_junction(vcr, last.1, wcr, last2.1, vt, is);
    signs::lemma_alike_itself(is);
    signs::lemma_alike_itself(gmin);
    signs::lemma_alike_itself(R::unit());
    reveal(signs::likeness_passes);
}

/// The complementary transistor is the mirror image: with the signs of all
/// voltages turned round it carries the same currents the other way, along the
/// same paths.
pub proof fn complementary_transistors_mirror<R: Real>(
    d: DevModel<R>,
    di: int,
    x: Seq<R>,
    y: Seq<R>,
    lim: Seq<(R, R)>,
    mode: ModeModel<R>,
    gmin: R,
    u: Seq<R>,
    v: Seq<R>,
)
    requires
        signs::signs_pass::<R>(),
        signs::all_opposed(x, y),
        signs::all_opposed(u, v),
        d is M || d is Q,
        x.len() == u.len(),
        d.placed(x.len() as int),
    ensures
        ({
            let a = kirchhoff::currents(d, di, x, lim, mode, gmin, u);
            let b = kirchhoff::currents(complementary(d), di, y, lim, mode, gmin, v);
            &&& b.len() == a.len()
            &&& forall|k: int|
                0 <= k < a.len() ==> {
                    &&& (#[trigger] b[k]).0 == (#[trigger] a[k]).0
                    &&& b[k].1 == a[k].1
                    &&& signs::opposed(a[k].2, b[k].2)
                }
        }),
{
    match d {
        DevModel::M { d: nd, g, s: ns, kp, vt0, lambda, pmos } => {
            let a = models::fet_point(nd, g, ns, kp, vt0, lambda, pmos, x);
            let b = models::fet_point(nd, g, ns, kp, vt0, lambda, !pmos, y);
            complementary_points_mirror(nd, g, ns, kp, vt0, lambda, pmos, x, y);
            assert(signs::alike(a.gds.plus(gmin), b.gds.plus(gmin))) by {
                signs::lemma_alike_itself(gmin);
                reveal(signs::likeness_passes);
            }
            lemma_flow(
                a.ed,
                a.es,
                a.i,
                b.i,
                seq![(g, a.es, a.gm), (a.ed, a.es, a.gds.plus(gmin))],
                seq![(g, b.es, b.gm), (b.ed, b.es, b.gds.plus(gmin))],
                x,
                y,
                u,
                v,
            );
        },
        DevModel::Q { c, b, e, is, bf, br, pnp } => {
            let (ci, bi, ei) = (c as int, b as int, e as int);
            let (p, q) = (models::polarity::<R>(pnp), models::polarity::<R>(!pnp));
            assert(signs::opposed(x[bi], y[bi]) && signs::opposed(x[ei], y[ei])
                && signs::opposed(x[ci], y[ci]));
            signs::lemma_frame(pnp, x[bi], x[ei], y[bi], y[ei]);
            signs::lemma_frame(pnp, x[bi], x[ci], y[bi], y[ci]);
            signs::lemma_alike_itself(lim[di].0);
            signs::lemma_alike_itself(lim[di].1);
            let (vbr, wbr) = (p.times(x[bi].minus(x[ei])), q.times(y[bi].minus(y[ei])));
            let (vcr, wcr) = (p.times(x[bi].minus(x[ci])), q.times(y[bi].minus(y[ci])));
            lemma_bipolar_point(vbr, vcr, lim[di], wbr, wcr, lim[di], is, bf, br, gmin);
            let s = bipolar_point(vbr, vcr, lim[di], is, bf, br, gmin);
            let t = bipolar_point(wbr, wcr, lim[di], is, bf, br, gmin);
            signs::lemma_current_frame(pnp, s.i.0, t.i.0);
            signs::lemma_current_frame(pnp, s.i.1, t.i.1);
            signs::lemma_current_frame(pnp, s.i.2, t.i.2);
            assert(signs::alike(s.gmr.opposite(), t.gmr.opposite())) by {
                reveal(signs::functions_agree);
            }
            lemma_flow(
                b,
                e,
                p.times(s.i.0),
                q.times(t.i.0),
                seq![(b, e, s.gpi)],
                seq![(b, e, t.gpi)],
                x,
                y,
                u,
                v,
            );
            lemma_flow(
                b,
                c,
                p.times(s.i.1),
                q.times(t.i.1),
                seq![(b, c, s.gmu)],
                seq![(b, c, t.gmu)],
                x,
                y,
                u,
                v,
            );
            lemma_flow(
                c,
                e,
                p.times(s.i.2),
                q.times(t.i.2),
                seq![(b, e, s.gmf), (b, c, s.gmr.opposite())],
                seq![(b, e, t.gmf), (b, c, t.gmr.opposite())],
                x,
                y,
                u,
                v,
            );
        },
        _ => {},
    }
}

} // verus!
