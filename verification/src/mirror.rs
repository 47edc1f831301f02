//! The mirror image of a circuit: sources turned round, diodes turned round and
//! transistors replaced by complementary ones. Its operating point is the
//! negative one.
//!
//! The law asks only that signs pass through the arithmetic, so it holds of
//! rounded numbers. What it says is up to the sign of zero.
use vstd::prelude::*;

use crate::assembly;
use crate::assembly::{ModeModel, Stamped};
use crate::circuit;
use crate::circuit::{CircuitModel, DevModel, WaveModel};
use crate::equations;
use crate::equations::Equations;
use crate::fault::SimFault;
use crate::field;
use crate::model_laws;
use crate::models;
use crate::num;
use crate::num::Real;
use crate::signs;
use crate::solver;
use crate::solver::Iterated;

verus! {

/// A time course with its values turned round.
pub open spec fn turned<R: Real>(wave: Option<WaveModel<R>>) -> Option<WaveModel<R>> {
    match wave {
        None => None,
        Some(WaveModel::Sin { vo, va, fr, td, theta }) => Some(
            WaveModel::Sin { vo: vo.opposite(), va: va.opposite(), fr, td, theta },
        ),
        Some(WaveModel::Pwl { pts, per }) => Some(WaveModel::Pwl { pts: lowered(pts), per }),
    }
}

/// Corners with their values turned round.
pub open spec fn lowered<R: Real>(pts: Seq<(R, R)>) -> Seq<(R, R)> {
    Seq::new(pts.len(), |i: int| (pts[i].0, pts[i].1.opposite()))
}

/// The mirror image of a device.
pub open spec fn mirrored_device<R: Real>(d: DevModel<R>) -> DevModel<R> {
    match d {
        DevModel::V { p, n, dc, ac, wave, br } => DevModel::V {
            p,
            n,
            dc: dc.opposite(),
            ac,
            wave: turned(wave),
            br,
        },
        DevModel::I { p, n, dc, ac, wave } => DevModel::I {
            p,
            n,
            dc: dc.opposite(),
            ac,
            wave: turned(wave),
        },
        DevModel::D { p, n, is, nf } => DevModel::D { p: n, n: p, is, nf },
        _ => model_laws::complementary(d),
    }
}

/// The mirror image of a circuit.
pub open spec fn mirrored<R: Real>(c: CircuitModel<R>) -> CircuitModel<R> {
    CircuitModel { devs: Seq::new(c.devs.len(), |i: int| mirrored_device(c.devs[i])), ..c }
}

/// The device is no diode with both ends on the same node other than ground.
pub open spec fn unshorted<R: Real>(d: DevModel<R>) -> bool {
    match d {
        DevModel::D { p, n, .. } => p != n || p == 0,
        _ => true,
    }
}

/// Junction voltages that are alike.
pub open spec fn limits_alike<R: Real>(a: Seq<(R, R)>, b: Seq<(R, R)>) -> bool {
    &&& a.len() == b.len()
    &&& forall|i: int|
        0 <= i < a.len() ==> signs::alike((#[trigger] a[i]).0, (#[trigger] b[i]).0)
            && signs::alike(a[i].1, b[i].1)
}

/// Rows with coefficients in the same columns, alike one by one.
spec fn row_alike<R: Real>(a: Map<int, R>, b: Map<int, R>) -> bool {
    &&& forall|j: int| #[trigger] a.contains_key(j) <==> #[trigger] b.contains_key(j)
    &&& forall|j: int| #[trigger] a.contains_key(j) ==> signs::alike(a[j], b[j])
}

/// `t` has the coefficients of `s` and the opposite right hand sides.
spec fn mirrors<R: Real>(s: Equations<R>, t: Equations<R>) -> bool {
    &&& s.rows.len() == s.b.len()
    &&& t.rows.len() == s.rows.len()
    &&& forall|i: int| 0 <= i < s.rows.len() ==> row_alike(#[trigger] s.rows[i], t.rows[i])
    &&& signs::all_opposed(s.b, t.b)
}

// ---- sources

proof fn lemma_opposite<R: Real>(a: R)
    requires
        signs::signs_pass::<R>(),
    ensures
        signs::opposed(a, a.opposite()),
{
    reveal(signs::opposites_pair);
}

proof fn lemma_interpolated<R: Real>(a: (R, R), b: (R, R), tt: R)
    requires
        signs::signs_pass::<R>(),
    ensures
        signs::opposed(
            models::interpolated(a, b, tt),
            models::interpolated((a.0, a.1.opposite()), (b.0, b.1.opposite()), tt),
        ),
{
    lemma_opposite(a.1);
    lemma_opposite(b.1);
    signs::lemma_alike_itself(tt.minus(a.0));
    reveal(signs::opposition_passes);
}

proof fn lemma_corner_value<R: Real>(pts: Seq<(R, R)>, tt: R, k: int, v: R, w: R)
    requires
        signs::signs_pass::<R>(),
        signs::opposed(v, w),
        0 <= k,
    ensures
        signs::opposed(
            models::corner_value(pts, tt, k, v),
            models::corner_value(lowered(pts), tt, k, w),
        ),
    decreases pts.len() - k,
{
    if k + 1 < pts.len() {
        lemma_opposite(pts[k + 1].1);
        lemma_corner_value(pts, tt, k + 1, pts[k + 1].1, pts[k + 1].1.opposite());
        lemma_interpolated(pts[k], pts[k + 1], tt);
    }
}

/// A source that is turned round has the opposite value at any time.
proof fn lemma_source<R: Real>(dc: R, wave: Option<WaveModel<R>>, t: R)
    requires
        signs::signs_pass::<R>(),
        circuit::cornered(wave),
    ensures
        signs::opposed(
            models::source_value(dc, wave, t),
            models::source_value(dc.opposite(), turned(wave), t),
        ),
{
    match wave {
        None => {
            lemma_opposite(dc);
        },
        Some(WaveModel::Sin { vo, va, fr, td, theta }) => {
            let tp = t.minus(td).greater_of(R::nil());
            let damping = tp.opposite().times(theta).exponential();
            let swing = R::decimal(2, 0).times(num::circle::<R>()).times(fr).times(tp).sine();
            lemma_opposite(vo);
            lemma_opposite(va);
            signs::lemma_alike_itself(damping);
            signs::lemma_alike_itself(swing);
            reveal(signs::opposition_passes);
        },
        Some(WaveModel::Pwl { pts, per }) => {
            lemma_opposite(pts[0].1);
            lemma_corner_value(
                pts,
                models::wrapped(pts[0].0, per, t),
                0,
                pts[0].1,
                pts[0].1.opposite(),
            );
        },
    }
}

// ---- contributions to the equations

proof fn lemma_with<R: Real>(s: Equations<R>, t: Equations<R>, i: int, j: int, v: R, w: R)
    requires
        signs::signs_pass::<R>(),
        mirrors(s, t),
        0 <= i < s.order(),
        signs::alike(v, w),
    ensures
        mirrors(s.with(i, j, v), t.with(i, j, w)),
        s.with(i, j, v).order() == s.order(),
{
    if i != 0 && j != 0 {
        let (a, b) = (s.rows[i], t.rows[i]);
        assert(row_alike(a, b));
        assert(a.contains_key(j) <==> b.contains_key(j));
        let (sn, tn) = (s.with(i, j, v), t.with(i, j, w));
        if a.contains_key(j) {
            assert(signs::alike(a[j], b[j]));
            assert(signs::alike(a[j].plus(v), b[j].plus(w))) by {
                reveal(signs::likeness_passes);
            }
        }
        assert(row_alike(sn.rows[i], tn.rows[i])) by {
            assert forall|k: int| #[trigger] sn.rows[i].contains_key(k) implies signs::alike(
                sn.rows[i][k],
                tn.rows[i][k],
            ) by {
                if k != j {
                    assert(a.contains_key(k));
                }
            }
            assert forall|k: int| #[trigger]
                sn.rows[i].contains_key(k) <==> #[trigger] tn.rows[i].contains_key(k) by {
                assert(a.contains_key(k) <==> b.contains_key(k));
            }
        }
        assert forall|r: int| 0 <= r < sn.rows.len() implies row_alike(
            #[trigger] sn.rows[r],
            tn.rows[r],
        ) by {
            if r != i {
                assert(row_alike(s.rows[r], t.rows[r]));
            }
        }
    }
}

proof fn lemma_rhs<R: Real>(s: Equations<R>, t: Equations<R>, i: int, v: R, w: R)
    requires
        signs::signs_pass::<R>(),
        mirrors(s, t),
        0 <= i < s.order(),
        signs::opposed(v, w),
    ensures
        mirrors(s.with_rhs(i, v), t.with_rhs(i, w)),
        s.with_rhs(i, v).order() == s.order(),
{
    let (sn, tn) = (s.with_rhs(i, v), t.with_rhs(i, w));
    assert(signs::opposed(s.b[i], t.b[i]));
    assert(signs::opposed(s.b[i].plus(v), t.b[i].plus(w))) by {
        reveal(signs::opposition_passes);
    }
    assert forall|r: int| 0 <= r < sn.b.len() implies signs::opposed(
        #[trigger] sn.b[r],
        #[trigger] tn.b[r],
    ) by {
        assert(signs::opposed(s.b[r], t.b[r]));
    }
    assert forall|r: int| 0 <= r < sn.rows.len() implies row_alike(
        #[trigger] sn.rows[r],
        tn.rows[r],
    ) by {
        assert(row_alike(s.rows[r], t.rows[r]));
    }
}

proof fn lemma_quad<R: Real>(
    s: Equations<R>,
    t: Equations<R>,
    p: int,
    n: int,
    cp: int,
    cn: int,
    g: R,
    h: R,
)
    requires
        signs::signs_pass::<R>(),
        mirrors(s, t),
        0 <= p < s.order(),
        0 <= n < s.order(),
        signs::alike(g, h),
    ensures
        mirrors(s.with_quad(p, n, cp, cn, g), t.with_quad(p, n, cp, cn, h)),
        s.with_quad(p, n, cp, cn, g).order() == s.order(),
{
    let (mg, mh) = (R::nil().minus(g), R::nil().minus(h));
    assert(signs::alike(mg, mh)) by {
        signs::lemma_alike_itself(R::nil());
        reveal(signs::likeness_passes);
    }
    lemma_with(s, t, p, cp, g, h);
    let (s1, t1) = (s.with(p, cp, g), t.with(p, cp, h));
    lemma_with(s1, t1, p, cn, mg, mh);
    let (s2, t2) = (s1.with(p, cn, mg), t1.with(p, cn, mh));
    lemma_with(s2, t2, n, cp, mg, mh);
    lemma_with(s2.with(n, cp, mg), t2.with(n, cp, mh), n, cn, g, h);
}

proof fn lemma_controls<R: Real>(
    s: Equations<R>,
    t: Equations<R>,
    p: int,
    n: int,
    a: Seq<(usize, usize, R)>,
    b: Seq<(usize, usize, R)>,
    len: int,
    k: int,
)
    requires
        signs::signs_pass::<R>(),
        mirrors(s, t),
        0 <= p < s.order(),
        0 <= n < s.order(),
        model_laws::controls_alike(a, b, len),
        0 <= k <= a.len(),
    ensures
        mirrors(s.with_controls(p, n, a, k), t.with_controls(p, n, b, k)),
        s.with_controls(p, n, a, k).order() == s.order(),
    decreases k,
{
    if k > 0 {
        lemma_controls(s, t, p, n, a, b, len, k - 1);
        let c = a[k - 1];
        assert(b[k - 1].0 == c.0 && b[k - 1].1 == c.1);
        lemma_quad(
            s.with_controls(p, n, a, k - 1),
            t.with_controls(p, n, b, k - 1),
            p,
            n,
            c.0 as int,
            c.1 as int,
            c.2,
            b[k - 1].2,
        );
    }
}

/// The opposite current at the point turned round.
proof fn lemma_current<R: Real>(
    s: Equations<R>,
    t: Equations<R>,
    p: int,
    n: int,
    i: R,
    j: R,
    a: Seq<(usize, usize, R)>,
    b: Seq<(usize, usize, R)>,
    x: Seq<R>,
    y: Seq<R>,
)
    requires
        signs::signs_pass::<R>(),
        mirrors(s, t),
        0 <= p < s.order(),
        0 <= n < s.order(),
        signs::opposed(i, j),
        signs::all_opposed(x, y),
        model_laws::controls_alike(a, b, x.len() as int),
    ensures
        mirrors(s.with_current(p, n, i, a, x), t.with_current(p, n, j, b, y)),
        s.with_current(p, n, i, a, x).order() == s.order(),
{
    let len = a.len() as int;
    let e = equations::offset_current(i, a, x, len);
    let f = equations::offset_current(j, b, y, len);
    model_laws::lemma_offset(i, j, a, b, x, y, len);
    signs::lemma_both_from_nil(e, f);
    lemma_controls(s, t, p, n, a, b, x.len() as int, len);
    let (s1, t1) = (s.with_controls(p, n, a, len), t.with_controls(p, n, b, len));
    let (me, mf) = (R::nil().minus(e), R::nil().minus(f));
    lemma_rhs(s1, t1, p, me, mf);
    lemma_rhs(s1.with_rhs(p, me), t1.with_rhs(p, mf), n, e, f);
}

proof fn lemma_gains<R: Real>(
    s: Equations<R>,
    t: Equations<R>,
    br: int,
    ctl: Seq<(usize, usize, R)>,
    k: int,
)
    requires
        signs::signs_pass::<R>(),
        mirrors(s, t),
        0 <= br < s.order(),
    ensures
        mirrors(s.with_gains(br, ctl, k), t.with_gains(br, ctl, k)),
        s.with_gains(br, ctl, k).order() == s.order(),
    decreases k,
{
    if k > 0 {
        lemma_gains(s, t, br, ctl, k - 1);
        let c = ctl[k - 1];
        let m = R::nil().minus(c.2);
        let (s1, t1) = (s.with_gains(br, ctl, k - 1), t.with_gains(br, ctl, k - 1));
        signs::lemma_alike_itself(m);
        signs::lemma_alike_itself(c.2);
        lemma_with(s1, t1, br, c.0 as int, m, m);
        lemma_with(s1.with(br, c.0 as int, m), t1.with(br, c.0 as int, m), br, c.1 as int, c.2, c.2);
    }
}

/// The opposite voltage.
proof fn lemma_voltage<R: Real>(
    s: Equations<R>,
    t: Equations<R>,
    p: int,
    n: int,
    br: int,
    v: R,
    w: R,
    ctl: Seq<(usize, usize, R)>,
)
    requires
        signs::signs_pass::<R>(),
        mirrors(s, t),
        0 <= p < s.order(),
        0 <= n < s.order(),
        0 <= br < s.order(),
        signs::opposed(v, w),
    ensures
        mirrors(s.with_voltage(p, n, br, v, ctl), t.with_voltage(p, n, br, w, ctl)),
        s.with_voltage(p, n, br, v, ctl).order() == s.order(),
{
    let len = ctl.len() as int;
    let u = R::unit();
    let m = R::nil().minus(u);
    signs::lemma_alike_itself(u);
    signs::lemma_alike_itself(m);
    lemma_with(s, t, p, br, u, u);
    let (s1, t1) = (s.with(p, br, u), t.with(p, br, u));
    lemma_with(s1, t1, n, br, m, m);
    let (s2, t2) = (s1.with(n, br, m), t1.with(n, br, m));
    lemma_with(s2, t2, br, p, u, u);
    let (s3, t3) = (s2.with(br, p, u), t2.with(br, p, u));
    lemma_with(s3, t3, br, n, m, m);
    let (s4, t4) = (s.with_branch(p, n, br), t.with_branch(p, n, br));
    lemma_gains(s4, t4, br, ctl, len);
    lemma_rhs(s4.with_gains(br, ctl, len), t4.with_gains(br, ctl, len), br, v, w);
}

/// Coefficients in different places can be added in either order.
proof fn lemma_with_commutes<R: Real>(
    s: Equations<R>,
    i: int,
    j: int,
    v: R,
    k: int,
    l: int,
    w: R,
)
    requires
        i != k || j != l,
        0 <= i < s.rows.len(),
        0 <= k < s.rows.len(),
    ensures
        s.with(i, j, v).with(k, l, w) == s.with(k, l, w).with(i, j, v),
{
    let a = s.with(i, j, v).with(k, l, w);
    let b = s.with(k, l, w).with(i, j, v);
    assert forall|r: int| 0 <= r < s.rows.len() implies #[trigger] a.rows[r] == b.rows[r] by {
        assert(a.rows[r] =~= b.rows[r]);
    }
    assert(a.rows =~= b.rows);
}

/// The conductance between two nodes does not depend on its direction.
proof fn lemma_quad_turned<R: Real>(s: Equations<R>, p: int, n: int, g: R)
    requires
        0 <= p < s.rows.len(),
        0 <= n < s.rows.len(),
    ensures
        s.with_quad(p, n, p, n, g) == s.with_quad(n, p, n, p, g),
{
    if p != n {
        let m = R::nil().minus(g);
        // pp pn np nn, and from there the last to the front
        let a = s.with(p, p, g);
        let ab = a.with(p, n, m);
        lemma_with_commutes(ab, n, p, m, n, n, g);
        lemma_with_commutes(a, p, n, m, n, n, g);
        lemma_with_commutes(s, p, p, g, n, n, g);
        // nn pp pn np
        let d = s.with(n, n, g);
        let da = d.with(p, p, g);
        lemma_with_commutes(da, p, n, m, n, p, m);
        lemma_with_commutes(d, p, p, g, n, p, m);
        // nn np pp pn
        let dc = d.with(n, p, m);
        lemma_with_commutes(dc, p, p, g, p, n, m);
    }
}

/// The right hand sides of a current that is turned round.
proof fn lemma_turned_rhs<R: Real>(s: Equations<R>, t: Equations<R>, p: int, n: int, e: R, f: R)
    requires
        signs::signs_pass::<R>(),
        mirrors(s, t),
        0 <= p < s.order(),
        0 <= n < s.order(),
        p != n || p == 0 || num::is_field::<R>(),
        signs::alike(e, f),
    ensures
        mirrors(
            s.with_rhs(p, R::nil().minus(e)).with_rhs(n, e),
            t.with_rhs(n, R::nil().minus(f)).with_rhs(p, f),
        ),
{
    let (me, mf) = (R::nil().minus(e), R::nil().minus(f));
    let (sn, tn) = (s.with_rhs(p, me).with_rhs(n, e), t.with_rhs(n, mf).with_rhs(p, f));
    if p != n {
        signs::lemma_from_nil(e, f);
        lemma_rhs(s, t, p, me, f);
        lemma_rhs(s.with_rhs(p, me), t.with_rhs(p, f), n, e, mf);
        assert(t.with_rhs(p, f).with_rhs(n, mf).b =~= tn.b);
        assert(t.with_rhs(p, f).with_rhs(n, mf) == tn);
    } else if p != 0 {
        let (b, d) = (s.b[p], t.b[p]);
        field::plus_opposite(b, e);
        field::minus_plus(b, e);
        field::plus_opposite(d, f);
        field::minus_plus(d, f);
        assert(sn.b =~= s.b);
        assert(tn.b =~= t.b);
    }
}

/// The same current through a conductance that is turned round.
proof fn lemma_turned_current<R: Real>(
    s: Equations<R>,
    t: Equations<R>,
    p: usize,
    n: usize,
    i: R,
    j: R,
    g: R,
    h: R,
    x: Seq<R>,
    y: Seq<R>,
)
    requires
        signs::signs_pass::<R>(),
        mirrors(s, t),
        p < s.order(),
        n < s.order(),
        p < x.len(),
        n < x.len(),
        p != n || p == 0 || num::is_field::<R>(),
        signs::alike(i, j),
        signs::alike(g, h),
        signs::all_opposed(x, y),
    ensures
        mirrors(
            s.with_current(p as int, n as int, i, seq![(p, n, g)], x),
            t.with_current(n as int, p as int, j, seq![(n, p, h)], y),
        ),
        s.with_current(p as int, n as int, i, seq![(p, n, g)], x).order() == s.order(),
{
    let (cs, ct) = (seq![(p, n, g)], seq![(n, p, h)]);
    let (pi, ni) = (p as int, n as int);
    reveal_with_fuel(equations::offset_current, 2);
    reveal_with_fuel(Equations::with_controls, 2);
    assert(signs::opposed(x[pi], y[pi]) && signs::opposed(x[ni], y[ni]));
    signs::lemma_turned_difference(x[pi], x[ni], y[pi], y[ni]);
    let e = equations::offset_current(i, cs, x, 1);
    let f = equations::offset_current(j, ct, y, 1);
    assert(signs::alike(e, f)) by {
        reveal(signs::likeness_passes);
    }
    lemma_quad(s, t, pi, ni, pi, ni, g, h);
    lemma_quad_turned(t, pi, ni, h);
    let a = s.with_quad(pi, ni, pi, ni, g);
    let b = t.with_quad(ni, pi, ni, pi, h);
    assert(s.with_controls(pi, ni, cs, 1) == a);
    assert(t.with_controls(ni, pi, ct, 1) == b);
    lemma_turned_rhs(a, b, pi, ni, e, f);
}

/// Two states of an assembly mirror each other.
spec fn states_mirror<R: Real>(s: Stamped<R>, t: Stamped<R>) -> bool {
    &&& mirrors(s.eq, t.eq)
    &&& limits_alike(s.lim, t.lim)
    &&& t.limited == s.limited
}

/// The mirror image of a diode.
proof fn lemma_diode<R: Real>(
    s: Stamped<R>,
    t: Stamped<R>,
    di: int,
    p: usize,
    n: usize,
    is: R,
    nf: R,
    x: Seq<R>,
    y: Seq<R>,
    gmin: R,
)
    requires
        signs::signs_pass::<R>(),
        states_mirror(s, t),
        signs::all_opposed(x, y),
        s.eq.order() == x.len(),
        0 <= di < s.lim.len(),
        p < x.len(),
        n < x.len(),
        p != n || p == 0 || num::is_field::<R>(),
    ensures
        ({
            let u = assembly::stamp_diode(s, di, p, n, is, nf, x, gmin);
            let v = assembly::stamp_diode(t, di, n, p, is, nf, y, gmin);
            states_mirror(u, v) && u.eq.order() == s.eq.order()
        }),
{
    let (pi, ni) = (p as int, n as int);
    let vt = nf.times(models::thermal::<R>());
    let (vr, wr) = (assembly::across(x, p, n), assembly::across(y, n, p));
    assert(signs::opposed(x[pi], y[pi]) && signs::opposed(x[ni], y[ni]));
    signs::lemma_turned_difference(x[pi], x[ni], y[pi], y[ni]);
    let (la, lb) = (s.lim[di], t.lim[di]);
    assert(signs::alike(la.0, lb.0) && signs::alike(la.1, lb.1));
    model_laws::lemma_junction(vr, la.0, wr, lb.0, vt, is);
    let vd = models::junction_voltage(vr, la.0, vt, is);
    let wd = models::junction_voltage(wr, lb.0, vt, is);
    let (id, gd) = models::diode_point(vd, is, vt, gmin);
    let (jd, hd) = models::diode_point(wd, is, vt, gmin);
    let (i, j) = (id.plus(gd.times(vr.minus(vd))), jd.plus(hd.times(wr.minus(wd))));
    assert(signs::alike(gd, hd) && signs::alike(i, j)) by {
        signs::lemma_alike_itself(is);
        signs::lemma_alike_itself(gmin);
        signs::lemma_alike_itself(R::unit());
        reveal(signs::likeness_passes);
    }
    lemma_turned_current(s.eq, t.eq, p, n, i, j, gd, hd, x, y);
    let u = assembly::stamp_diode(s, di, p, n, is, nf, x, gmin);
    let v = assembly::stamp_diode(t, di, n, p, is, nf, y, gmin);
    assert forall|k: int| 0 <= k < u.lim.len() implies signs::alike(
        (#[trigger] u.lim[k]).0,
        (#[trigger] v.lim[k]).0,
    ) && signs::alike(u.lim[k].1, v.lim[k].1) by {
        assert(signs::alike(s.lim[k].0, t.lim[k].0) && signs::alike(s.lim[k].1, t.lim[k].1));
    }
}

/// The mirror image of a bipolar transistor.
proof fn lemma_bipolar<R: Real>(
    s: Stamped<R>,
    t: Stamped<R>,
    di: int,
    c: usize,
    b: usize,
    e: usize,
    is: R,
    bf: R,
    br: R,
    pnp: bool,
    x: Seq<R>,
    y: Seq<R>,
    gmin: R,
)
    requires
        signs::signs_pass::<R>(),
        states_mirror(s, t),
        signs::all_opposed(x, y),
        s.eq.order() == x.len(),
        0 <= di < s.lim.len(),
        c < x.len(),
        b < x.len(),
        e < x.len(),
    ensures
        ({
            let u = assembly::stamp_bipolar(s, di, c, b, e, is, bf, br, pnp, x, gmin);
            let v = assembly::stamp_bipolar(t, di, c, b, e, is, bf, br, !pnp, y, gmin);
            states_mirror(u, v) && u.eq.order() == s.eq.order()
        }),
{
    let (ci, bi, ei) = (c as int, b as int, e as int);
    let (p, q) = (models::polarity::<R>(pnp), models::polarity::<R>(!pnp));
    assert(signs::opposed(x[bi], y[bi]) && signs::opposed(x[ei], y[ei]) && signs::opposed(
        x[ci],
        y[ci],
    ));
    signs::lemma_frame(pnp, x[bi], x[ei], y[bi], y[ei]);
    signs::lemma_frame(pnp, x[bi], x[ci], y[bi], y[ci]);
    let (la, lb) = (s.lim[di], t.lim[di]);
    assert(signs::alike(la.0, lb.0) && signs::alike(la.1, lb.1));
    let (vbr, wbr) = (p.times(x[bi].minus(x[ei])), q.times(y[bi].minus(y[ei])));
    let (vcr, wcr) = (p.times(x[bi].minus(x[ci])), q.times(y[bi].minus(y[ci])));
    model_laws::lemma_bipolar_point(vbr, vcr, la, wbr, wcr, lb, is, bf, br, gmin);
    let k = model_laws::bipolar_point(vbr, vcr, la, is, bf, br, gmin);
    let l = model_laws::bipolar_point(wbr, wcr, lb, is, bf, br, gmin);
    signs::lemma_current_frame(pnp, k.i.0, l.i.0);
    signs::lemma_current_frame(pnp, k.i.1, l.i.1);
    signs::lemma_current_frame(pnp, k.i.2, l.i.2);
    assert(signs::alike(k.gmr.opposite(), l.gmr.opposite())) by {
        reveal(signs::functions_agree);
    }
    let (c1, d1) = (seq![(b, e, k.gpi)], seq![(b, e, l.gpi)]);
    let (c2, d2) = (seq![(b, c, k.gmu)], seq![(b, c, l.gmu)]);
    let c3 = seq![(b, e, k.gmf), (b, c, k.gmr.opposite())];
    let d3 = seq![(b, e, l.gmf), (b, c, l.gmr.opposite())];
    let (i1, j1) = (p.times(k.i.0), q.times(l.i.0));
    let (i2, j2) = (p.times(k.i.1), q.times(l.i.1));
    let (i3, j3) = (p.times(k.i.2), q.times(l.i.2));
    lemma_current(s.eq, t.eq, bi, ei, i1, j1, c1, d1, x, y);
    let (s1, t1) = (
        s.eq.with_current(bi, ei, i1, c1, x),
        t.eq.with_current(bi, ei, j1, d1, y),
    );
    lemma_current(s1, t1, bi, ci, i2, j2, c2, d2, x, y);
    let (s2, t2) = (s1.with_current(bi, ci, i2, c2, x), t1.with_current(bi, ci, j2, d2, y));
    lemma_current(s2, t2, ci, ei, i3, j3, c3, d3, x, y);
    let u = assembly::stamp_bipolar(s, di, c, b, e, is, bf, br, pnp, x, gmin);
    let v = assembly::stamp_bipolar(t, di, c, b, e, is, bf, br, !pnp, y, gmin);
    assert(u.eq == s2.with_current(ci, ei, i3, c3, x));
    assert(v.eq == t2.with_current(ci, ei, j3, d3, y));
    assert forall|r: int| 0 <= r < u.lim.len() implies signs::alike(
        (#[trigger] u.lim[r]).0,
        (#[trigger] v.lim[r]).0,
    ) && signs::alike(u.lim[r].1, v.lim[r].1) by {
        assert(signs::alike(s.lim[r].0, t.lim[r].0) && signs::alike(s.lim[r].1, t.lim[r].1));
    }
}

/// The contribution of the mirror image of a device.
proof fn lemma_stamped<R: Real>(
    s: Stamped<R>,
    t: Stamped<R>,
    dev: DevModel<R>,
    di: int,
    x: Seq<R>,
    y: Seq<R>,
    fac: R,
    gmin: R,
)
    requires
        signs::signs_pass::<R>(),
        states_mirror(s, t),
        signs::all_opposed(x, y),
        s.eq.order() == x.len(),
        0 <= di < s.lim.len(),
        dev.placed(x.len() as int),
        0 <= dev.branch() < x.len(),
        unshorted(dev) || num::is_field::<R>(),
    ensures
        ({
            let mode = ModeModel::Dc { fac };
            let u = assembly::stamped(s, dev, di, x, mode, gmin);
            let v = assembly::stamped(t, mirrored_device(dev), di, y, mode, gmin);
            states_mirror(u, v) && u.eq.order() == s.eq.order()
        }),
{
    let none = Seq::<(usize, usize, R)>::empty();
    signs::lemma_nil_opposed::<R>();
    match dev {
        DevModel::R { p, n, v } => {
            let (u, w) = (assembly::across(x, p, n), assembly::across(y, p, n));
            assert(signs::opposed(x[p as int], y[p as int]));
            assert(signs::opposed(x[n as int], y[n as int]));
            assert(signs::opposed(u.over(v), w.over(v))) by {
                reveal(signs::opposition_passes);
            }
            let ctl = seq![(p, n, R::unit().over(v))];
            signs::lemma_alike_itself(R::unit().over(v));
            lemma_current(
                s.eq,
                t.eq,
                p as int,
                n as int,
                u.over(v),
                w.over(v),
                ctl,
                ctl,
                x,
                y,
            );
        },
        DevModel::C { .. } => {},
        DevModel::L { p, n, br, .. } => {
            lemma_voltage(s.eq, t.eq, p as int, n as int, br as int, R::nil(), R::nil(), none);
        },
        DevModel::V { p, n, dc, wave, br, .. } => {
            let v = models::source_value(dc, wave, R::nil());
            let w = models::source_value(dc.opposite(), turned(wave), R::nil());
            lemma_source(dc, wave, R::nil());
            signs::lemma_alike_itself(fac);
            assert(signs::opposed(fac.times(v), fac.times(w))) by {
                reveal(signs::opposition_passes);
            }
            lemma_voltage(
                s.eq,
                t.eq,
                p as int,
                n as int,
                br as int,
                fac.times(v),
                fac.times(w),
                none,
            );
        },
        DevModel::I { p, n, dc, wave, .. } => {
            let v = models::source_value(dc, wave, R::nil());
            let w = models::source_value(dc.opposite(), turned(wave), R::nil());
            lemma_source(dc, wave, R::nil());
            signs::lemma_alike_itself(fac);
            assert(signs::opposed(fac.times(v), fac.times(w))) by {
                reveal(signs::opposition_passes);
            }
            lemma_current(
                s.eq,
                t.eq,
                p as int,
                n as int,
                fac.times(v),
                fac.times(w),
                none,
                none,
                x,
                y,
            );
        },
        DevModel::D { p, n, is, nf } => {
            lemma_diode(s, t, di, p, n, is, nf, x, y, gmin);
        },
        DevModel::M { d, g, s: src, kp, vt0, lambda, pmos } => {
            let a = models::fet_point(d, g, src, kp, vt0, lambda, pmos, x);
            let b = models::fet_point(d, g, src, kp, vt0, lambda, !pmos, y);
            model_laws::complementary_points_mirror(d, g, src, kp, vt0, lambda, pmos, x, y);
            assert(signs::alike(a.gds.plus(gmin), b.gds.plus(gmin))) by {
                signs::lemma_alike_itself(gmin);
                reveal(signs::likeness_passes);
            }
            let ca = seq![(g, a.es, a.gm), (a.ed, a.es, a.gds.plus(gmin))];
            let cb = seq![(g, b.es, b.gm), (b.ed, b.es, b.gds.plus(gmin))];
            lemma_current(s.eq, t.eq, a.ed as int, a.es as int, a.i, b.i, ca, cb, x, y);
        },
        DevModel::E { p, n, cp, cn, k, br } => {
            lemma_voltage(
                s.eq,
                t.eq,
                p as int,
                n as int,
                br as int,
                R::nil(),
                R::nil(),
                seq![(cp, cn, k)],
            );
        },
        DevModel::G { p, n, cp, cn, k } => {
            let (u, w) = (assembly::across(x, cp, cn), assembly::across(y, cp, cn));
            assert(signs::opposed(x[cp as int], y[cp as int]));
            assert(signs::opposed(x[cn as int], y[cn as int]));
            signs::lemma_alike_itself(k);
            assert(signs::opposed(k.times(u), k.times(w))) by {
                reveal(signs::opposition_passes);
                assert(signs::opposed(u, w));
            }
            let ctl = seq![(cp, cn, k)];
            lemma_current(
                s.eq,
                t.eq,
                p as int,
                n as int,
                k.times(u),
                k.times(w),
                ctl,
                ctl,
                x,
                y,
            );
        },
        DevModel::Q { c, b, e, is, bf, br, pnp } => {
            lemma_bipolar(s, t, di, c, b, e, is, bf, br, pnp, x, y, gmin);
        },
    }
}

/// No diode of the circuit is shorted, or arithmetic is exact.
pub open spec fn diodes_apart<R: Real>(c: CircuitModel<R>) -> bool {
    num::is_field::<R>() || forall|i: int|
        0 <= i < c.devs.len() ==> unshorted(#[trigger] c.devs[i])
}

/// The equations of the mirror image at the point turned round.
proof fn lemma_assembled<R: Real>(
    c: CircuitModel<R>,
    x: Seq<R>,
    y: Seq<R>,
    la: Seq<(R, R)>,
    lb: Seq<(R, R)>,
    fac: R,
    gmin: R,
    i: int,
)
    requires
        signs::signs_pass::<R>(),
        diodes_apart(c),
        c.wf(),
        signs::all_opposed(x, y),
        limits_alike(la, lb),
        la.len() == c.devs.len(),
        x.len() == c.unknowns(),
        0 <= i <= c.devs.len(),
    ensures
        ({
            let mode = ModeModel::Dc { fac };
            let u = assembly::assembled(c, x, la, mode, gmin, false, i);
            let v = assembly::assembled(mirrored(c), y, lb, mode, gmin, false, i);
            &&& states_mirror(u, v)
            &&& u.eq.order() == x.len()
            &&& u.lim.len() == c.devs.len()
        }),
    decreases i,
{
    let mode = ModeModel::Dc { fac };
    if i == 0 {
        signs::lemma_nil_opposed::<R>();
    } else {
        lemma_assembled(c, x, y, la, lb, fac, gmin, i - 1);
        let d = c.devs[i - 1];
        assert(d.placed(c.nodes.len() as int));
        circuit::lemma_branch_count(c.devs, 0, i - 1);
        circuit::lemma_branch_count(c.devs, i - 1, c.devs.len() as int);
        lemma_stamped(
            assembly::assembled(c, x, la, mode, gmin, false, i - 1),
            assembly::assembled(mirrored(c), y, lb, mode, gmin, false, i - 1),
            d,
            i - 1,
            x,
            y,
            fac,
            gmin,
        );
    }
}

// ---- the solution of the equations

proof fn lemma_weightiest<R: Real>(s: Equations<R>, t: Equations<R>, k: int, i: int)
    requires
        signs::signs_pass::<R>(),
        mirrors(s, t),
        i <= s.order(),
    ensures
        equations::weightiest(t, k, i).0 == equations::weightiest(s, k, i).0,
        signs::alike(equations::weightiest(s, k, i).1, equations::weightiest(t, k, i).1),
    decreases i,
{
    if i > k && i > 0 {
        lemma_weightiest(s, t, k, i - 1);
        let (w, v) = (equations::weightiest(s, k, i - 1).1, equations::weightiest(t, k, i - 1).1);
        assert(row_alike(s.rows[i - 1], t.rows[i - 1]));
        assert(s.rows[i - 1].contains_key(k) <==> t.rows[i - 1].contains_key(k));
        if s.rows[i - 1].contains_key(k) {
            signs::lemma_compared(s.rows[i - 1][k], w, t.rows[i - 1][k], v);
        }
    } else {
        signs::lemma_alike_itself(R::nil());
    }
}

/// The rows before `k` have a coefficient on the diagonal that can be divided
/// by.
spec fn divisible<R: Real>(s: Equations<R>, k: int) -> bool {
    forall|i: int|
        1 <= i < k && i < s.order() ==> (#[trigger] s.rows[i]).contains_key(i)
            && !s.rows[i][i].negligible()
}

/// A row that column `k` is taken out of.
proof fn lemma_cleared_row<R: Real>(s: Equations<R>, t: Equations<R>, k: int, i: int)
    requires
        signs::signs_pass::<R>(),
        mirrors(s, t),
        0 <= k < s.order(),
        k < i < s.order(),
        s.rows[k].contains_key(k),
        !s.rows[k][k].negligible(),
        s.rows[i].contains_key(k),
    ensures
        row_alike(equations::cleared_row(s, k, i), equations::cleared_row(t, k, i)),
        signs::opposed(equations::cleared_rhs(s, k, i), equations::cleared_rhs(t, k, i)),
{
    let (a, b) = (s.rows[i], t.rows[i]);
    let (p, q) = (s.rows[k], t.rows[k]);
    assert(row_alike(a, b) && row_alike(p, q));
    assert(a.contains_key(k) <==> b.contains_key(k));
    assert(signs::alike(p[k], q[k]) && signs::alike(a[k], b[k]));
    let (f, g) = (a[k].over(p[k]), b[k].over(q[k]));
    assert(signs::alike(f, g)) by {
        reveal(signs::likeness_passes);
        assert(signs::divide_alike(p[k], q[k]));
    }
    let (u, v) = (equations::cleared_row(s, k, i), equations::cleared_row(t, k, i));
    assert forall|j: int| #[trigger] u.contains_key(j) <==> #[trigger] v.contains_key(j) by {
        assert(a.contains_key(j) <==> b.contains_key(j));
        assert(p.contains_key(j) <==> q.contains_key(j));
    }
    assert forall|j: int| #[trigger] u.contains_key(j) implies signs::alike(u[j], v[j]) by {
        assert(a.contains_key(j) <==> b.contains_key(j));
        assert(p.contains_key(j) <==> q.contains_key(j));
        assert(a.contains_key(j) ==> signs::alike(a[j], b[j]));
        assert(p.contains_key(j) ==> signs::alike(p[j], q[j]));
        signs::lemma_alike_itself(R::nil());
        reveal(signs::likeness_passes);
    }
    assert(signs::opposed(s.b[k], t.b[k]) && signs::opposed(s.b[i], t.b[i]));
    assert(signs::opposed(f.times(s.b[k]), g.times(t.b[k]))) by {
        reveal(signs::opposition_passes);
    }
    reveal(signs::opposition_passes);
}

proof fn lemma_step<R: Real>(s: Equations<R>, t: Equations<R>, k: int, p: int)
    requires
        signs::signs_pass::<R>(),
        mirrors(s, t),
        1 <= k < s.order(),
        k <= p < s.order(),
        s.rows[p].contains_key(k),
        !s.rows[p][k].negligible(),
        divisible(s, k),
    ensures
        ({
            let u = equations::cleared(equations::exchanged(s, k, p), k);
            let v = equations::cleared(equations::exchanged(t, k, p), k);
            mirrors(u, v) && divisible(u, k + 1) && u.order() == s.order()
        }),
{
    let (a, b) = (equations::exchanged(s, k, p), equations::exchanged(t, k, p));
    assert(row_alike(s.rows[k], t.rows[k]) && row_alike(s.rows[p], t.rows[p]));
    assert(signs::opposed(s.b[k], t.b[k]) && signs::opposed(s.b[p], t.b[p]));
    assert forall|i: int| 0 <= i < a.rows.len() implies row_alike(
        #[trigger] a.rows[i],
        b.rows[i],
    ) by {
        assert(row_alike(s.rows[i], t.rows[i]));
    }
    assert forall|i: int| 0 <= i < a.b.len() implies signs::opposed(
        #[trigger] a.b[i],
        #[trigger] b.b[i],
    ) by {
        assert(signs::opposed(s.b[i], t.b[i]));
    }
    assert(mirrors(a, b));
    assert(a.rows[k] == s.rows[p]);
    let (u, v) = (equations::cleared(a, k), equations::cleared(b, k));
    assert forall|i: int| 0 <= i < u.rows.len() implies row_alike(
        #[trigger] u.rows[i],
        v.rows[i],
    ) by {
        assert(row_alike(a.rows[i], b.rows[i]));
        assert(a.rows[i].contains_key(k) <==> b.rows[i].contains_key(k));
        if i > k && a.rows[i].contains_key(k) {
            lemma_cleared_row(a, b, k, i);
        }
    }
    assert forall|i: int| 0 <= i < u.b.len() implies signs::opposed(
        #[trigger] u.b[i],
        #[trigger] v.b[i],
    ) by {
        assert(row_alike(a.rows[i], b.rows[i]));
        assert(signs::opposed(a.b[i], b.b[i]));
        assert(a.rows[i].contains_key(k) <==> b.rows[i].contains_key(k));
        if i > k && a.rows[i].contains_key(k) {
            lemma_cleared_row(a, b, k, i);
        }
    }
    assert forall|i: int| 1 <= i < k + 1 && i < u.order() implies (
    #[trigger] u.rows[i]).contains_key(i) && !u.rows[i][i].negligible() by {
        if i < k {
            assert(s.rows[i].contains_key(i));
        }
    }
}

proof fn lemma_eliminated<R: Real>(s: Equations<R>, t: Equations<R>, k: int)
    requires
        signs::signs_pass::<R>(),
        mirrors(s, t),
        1 <= k <= s.order(),
    ensures
        match equations::eliminated(s, k) {
            Ok(e) => {
                &&& equations::eliminated(t, k) is Ok
                &&& mirrors(e, equations::eliminated(t, k)->Ok_0)
                &&& divisible(e, k)
                &&& e.order() == s.order()
            },
            Err(j) => equations::eliminated(t, k) == Err::<Equations<R>, usize>(j),
        },
    decreases k,
{
    if k > 1 {
        lemma_eliminated(s, t, k - 1);
        if equations::eliminated(s, k - 1) is Ok {
            let (a, b) = (
                equations::eliminated(s, k - 1)->Ok_0,
                equations::eliminated(t, k - 1)->Ok_0,
            );
            lemma_weightiest(a, b, k - 1, a.order());
            equations::lemma_weightiest(a, k - 1, a.order());
            let (w, v) = (
                equations::weightiest(a, k - 1, a.order()).1,
                equations::weightiest(b, k - 1, b.order()).1,
            );
            signs::lemma_compared(w, w, v, v);
            if equations::pivot(a, k - 1) is Some {
                lemma_step(a, b, k - 1, equations::pivot(a, k - 1)->0);
            }
        }
    }
}

proof fn lemma_residue<R: Real>(
    a: Map<int, R>,
    b: Map<int, R>,
    x: Seq<R>,
    y: Seq<R>,
    i: int,
    hi: int,
)
    requires
        signs::signs_pass::<R>(),
        row_alike(a, b),
        signs::all_opposed(x, y),
        0 <= i < x.len(),
        hi <= x.len(),
    ensures
        signs::opposed(equations::residue(a, x, i, hi), equations::residue(b, y, i, hi)),
    decreases hi - i,
{
    assert(signs::opposed(x[i], y[i]));
    if hi > i + 1 {
        let j = hi - 1;
        lemma_residue(a, b, x, y, i, j);
        assert(a.contains_key(j) <==> b.contains_key(j));
        if a.contains_key(j) {
            assert(signs::alike(a[j], b[j]));
            assert(signs::opposed(x[j], y[j]));
            reveal(signs::opposition_passes);
            assert(signs::opposed(a[j].times(x[j]), b[j].times(y[j])));
        }
    }
}

proof fn lemma_substituted<R: Real>(s: Equations<R>, t: Equations<R>, i: int)
    requires
        signs::signs_pass::<R>(),
        mirrors(s, t),
        divisible(s, s.order()),
        1 <= i,
    ensures
        equations::substituted(s, i).len() == s.order(),
        signs::all_opposed(equations::substituted(s, i), equations::substituted(t, i)),
    decreases s.order() - i,
{
    if i < s.order() {
        lemma_substituted(s, t, i + 1);
        let (x, y) = (equations::substituted(s, i + 1), equations::substituted(t, i + 1));
        let (a, b) = (s.rows[i], t.rows[i]);
        assert(row_alike(a, b));
        assert(a.contains_key(i) && !a[i].negligible());
        assert(signs::alike(a[i], b[i]));
        lemma_residue(a, b, x, y, i, s.order());
        let (r, q) = (
            equations::residue(a, x, i, s.order()),
            equations::residue(b, y, i, s.order()),
        );
        assert(signs::opposed(r.over(a[i]), q.over(b[i]))) by {
            reveal(signs::opposition_passes);
            assert(signs::divide_alike(a[i], b[i]));
        }
        let (u, v) = (equations::substituted(s, i), equations::substituted(t, i));
        assert forall|k: int| 0 <= k < u.len() implies signs::opposed(
            #[trigger] u[k],
            #[trigger] v[k],
        ) by {
            assert(signs::opposed(x[k], y[k]));
        }
    }
}

/// The mirrored system has the opposite solution, or none for the same column.
proof fn lemma_solution<R: Real>(s: Equations<R>, t: Equations<R>)
    requires
        signs::signs_pass::<R>(),
        mirrors(s, t),
        s.order() > 0,
    ensures
        match equations::solution(s) {
            Ok(x) => {
                &&& equations::solution(t) is Ok
                &&& signs::all_opposed(x, equations::solution(t)->Ok_0)
                &&& x.len() == s.order()
            },
            Err(k) => equations::solution(t) == Err::<Seq<R>, usize>(k),
        },
{
    lemma_eliminated(s, t, s.order());
    if equations::eliminated(s, s.order()) is Ok {
        let (a, b) = (
            equations::eliminated(s, s.order())->Ok_0,
            equations::eliminated(t, s.order())->Ok_0,
        );
        lemma_substituted(a, b, 1);
        signs::lemma_nil_opposed::<R>();
        let (x, y) = (equations::substituted(a, 1), equations::substituted(b, 1));
        let (u, v) = (x.update(0, R::nil()), y.update(0, R::nil()));
        assert forall|k: int| 0 <= k < u.len() implies signs::opposed(
            #[trigger] u[k],
            #[trigger] v[k],
        ) by {
            assert(signs::opposed(x[k], y[k]));
        }
    }
}

// ---- the iteration

/// Whether an unknown has settled does not depend on its sign.
proof fn lemma_unknown_settled<R: Real>(nn: int, i: int, a: R, b: R, c: R, d: R)
    requires
        signs::signs_pass::<R>(),
        signs::opposed(a, c),
        signs::opposed(b, d),
    ensures
        a.minus(b).size().at_most(solver::tolerance(i, nn, a, b)) == c.minus(d).size().at_most(
            solver::tolerance(i, nn, c, d),
        ),
{
    let floor = if i < nn {
        models::voltage_grain::<R>()
    } else {
        R::decimal(1, -12)
    };
    signs::lemma_alike_itself(floor);
    signs::lemma_alike_itself(R::decimal(1, -3));
    assert(signs::opposed(a.minus(b), c.minus(d))) by {
        reveal(signs::opposition_passes);
    }
    let (p, q) = (a.size().greater_of(b.size()), c.size().greater_of(d.size()));
    assert(signs::alike(a.minus(b).size(), c.minus(d).size()) && signs::alike(p, q)) by {
        reveal(signs::functions_agree);
    }
    assert(signs::alike(solver::tolerance(i, nn, a, b), solver::tolerance(i, nn, c, d))) by {
        reveal(signs::likeness_passes);
    }
    signs::lemma_compared(
        a.minus(b).size(),
        solver::tolerance(i, nn, a, b),
        c.minus(d).size(),
        solver::tolerance(i, nn, c, d),
    );
}

proof fn lemma_settled<R: Real>(nn: int, a: Seq<R>, b: Seq<R>, c: Seq<R>, d: Seq<R>)
    requires
        signs::signs_pass::<R>(),
        a.len() == b.len(),
        signs::all_opposed(a, c),
        signs::all_opposed(b, d),
    ensures
        solver::settled(nn, a, b) == solver::settled(nn, c, d),
{
    assert forall|i: int| 1 <= i < a.len() implies (#[trigger] a[i]).minus(b[i]).size().at_most(
        solver::tolerance(i, nn, a[i], b[i]),
    ) == (#[trigger] c[i]).minus(d[i]).size().at_most(
        solver::tolerance(i, nn, c[i], d[i]),
    ) by {
        assert(signs::opposed(a[i], c[i]) && signs::opposed(b[i], d[i]));
        lemma_unknown_settled(nn, i, a[i], b[i], c[i], d[i]);
    }
    if solver::settled(nn, a, b) {
        assert forall|i: int| 1 <= i < c.len() implies (#[trigger] c[i]).minus(
            d[i],
        ).size().at_most(solver::tolerance(i, nn, c[i], d[i])) by {
            assert(a[i].minus(b[i]).size().at_most(solver::tolerance(i, nn, a[i], b[i])));
        }
    }
    if solver::settled(nn, c, d) {
        assert forall|i: int| 1 <= i < a.len() implies (#[trigger] a[i]).minus(
            b[i],
        ).size().at_most(solver::tolerance(i, nn, a[i], b[i])) by {
            assert(c[i].minus(d[i]).size().at_most(solver::tolerance(i, nn, c[i], d[i])));
        }
    }
}

/// Two iterations that end at points turned round, or fail in the same way.
spec fn iterations_mirror<R: Real>(
    a: Result<Iterated<R>, SimFault>,
    b: Result<Iterated<R>, SimFault>,
) -> bool {
    match a {
        Ok(s) => {
            &&& b is Ok
            &&& signs::all_opposed(s.x, b->Ok_0.x)
            &&& limits_alike(s.lim, b->Ok_0.lim)
            &&& b->Ok_0.done == s.done
        },
        Err(e) => b == Err::<Iterated<R>, SimFault>(e),
    }
}

proof fn lemma_iterated<R: Real>(
    c: CircuitModel<R>,
    x: Seq<R>,
    y: Seq<R>,
    la: Seq<(R, R)>,
    lb: Seq<(R, R)>,
    fac: R,
    gmin: R,
    it: int,
    maxit: int,
)
    requires
        signs::signs_pass::<R>(),
        diodes_apart(c),
        c.wf(),
        signs::all_opposed(x, y),
        limits_alike(la, lb),
        x.len() == c.unknowns(),
        la.len() == c.devs.len(),
    ensures
        ({
            let mode = ModeModel::Dc { fac };
            let r = solver::iterated(c, x, la, mode, gmin, it, maxit);
            &&& iterations_mirror(
                r,
                solver::iterated(mirrored(c), y, lb, mode, gmin, it, maxit),
            )
            &&& r is Ok ==> r->Ok_0.x.len() == c.unknowns() && r->Ok_0.lim.len()
                == c.devs.len()
        }),
    decreases maxit - it + 1,
{
    if it <= maxit {
        let mode = ModeModel::Dc { fac };
        let n = c.devs.len() as int;
        lemma_assembled(c, x, y, la, lb, fac, gmin, n);
        circuit::lemma_branch_count(c.devs, 0, n);
        let s = assembly::circuit_equations(c, x, la, mode, gmin);
        let t = assembly::circuit_equations(mirrored(c), y, lb, mode, gmin);
        lemma_solution(s.eq, t.eq);
        match equations::solution(s.eq) {
            Err(k) => {
                lemma_branch_names(c, n);
            },
            Ok(xn) => {
                let yn = equations::solution(t.eq)->Ok_0;
                lemma_settled(c.nodes.len() as int, xn, x, yn, y);
                lemma_iterated(c, xn, yn, s.lim, t.lim, fac, gmin, it + 1, maxit);
            },
        }
    }
}

proof fn lemma_branch_names<R: Real>(c: CircuitModel<R>, i: int)
    requires
        0 <= i <= c.devs.len(),
    ensures
        mirrored(c).branch_names(i) == c.branch_names(i),
    decreases i,
{
    if i > 0 {
        lemma_branch_names(c, i - 1);
    }
}

proof fn lemma_branch_counts<R: Real>(c: CircuitModel<R>, i: int)
    requires
        0 <= i <= c.devs.len(),
    ensures
        circuit::branch_count(mirrored(c).devs, i) == circuit::branch_count(c.devs, i),
    decreases i,
{
    if i > 0 {
        lemma_branch_counts(c, i - 1);
    }
}

/// The mirror image of a circuit is one.
pub proof fn mirror_images_are_well_formed<R: Real>(c: CircuitModel<R>)
    requires
        c.wf(),
    ensures
        mirrored(c).wf(),
{
    let m = mirrored(c);
    lemma_branch_counts(c, c.devs.len() as int);
    assert forall|i: int| 0 <= i < m.devs.len() implies (#[trigger] m.devs[i]).placed(
        m.nodes.len() as int,
    ) by {
        assert(c.devs[i].placed(c.nodes.len() as int));
    }
    assert forall|i: int| 0 <= i < m.devs.len() && (#[trigger] m.devs[i]).has_branch() implies
        m.devs[i].branch() == m.nodes.len() + circuit::branch_count(m.devs, i) by {
        assert(c.devs[i].has_branch());
        lemma_branch_counts(c, i);
    }
}

// ---- operating points

/// Points turned round with junction voltages that are alike.
pub open spec fn points_mirror<R: Real>(
    a: (Seq<R>, Seq<(R, R)>),
    b: (Seq<R>, Seq<(R, R)>),
) -> bool {
    signs::all_opposed(a.0, b.0) && limits_alike(a.1, b.1)
}

/// Operating points that mirror each other, or the same failure.
pub open spec fn outcomes_mirror<R: Real>(
    a: Result<(Seq<R>, Seq<(R, R)>), SimFault>,
    b: Result<(Seq<R>, Seq<(R, R)>), SimFault>,
) -> bool {
    match a {
        Ok(p) => b is Ok && points_mirror(p, b->Ok_0),
        Err(e) => b == Err::<(Seq<R>, Seq<(R, R)>), SimFault>(e),
    }
}

proof fn lemma_walked<R: Real>(
    c: CircuitModel<R>,
    path: Seq<(R, R)>,
    j: int,
    x: Seq<R>,
    y: Seq<R>,
    la: Seq<(R, R)>,
    lb: Seq<(R, R)>,
)
    requires
        signs::signs_pass::<R>(),
        diodes_apart(c),
        c.wf(),
        signs::all_opposed(x, y),
        limits_alike(la, lb),
        x.len() == c.unknowns(),
        la.len() == c.devs.len(),
        0 <= j,
    ensures
        match solver::walked(c, path, j, x, la) {
            Ok(Some(p)) => {
                let r = solver::walked(mirrored(c), path, j, y, lb);
                r is Ok && r->Ok_0 is Some && points_mirror(p, r->Ok_0->0)
            },
            Ok(None) => solver::walked(mirrored(c), path, j, y, lb) == Ok::<
                Option<(Seq<R>, Seq<(R, R)>)>,
                SimFault,
            >(None),
            Err(e) => solver::walked(mirrored(c), path, j, y, lb) == Err::<
                Option<(Seq<R>, Seq<(R, R)>)>,
                SimFault,
            >(e),
        },
    decreases path.len() - j,
{
    if j < path.len() {
        let maxit = solver::ITL_OP as int;
        let mode = ModeModel::Dc { fac: path[j].1 };
        lemma_iterated(c, x, y, la, lb, path[j].1, path[j].0, 1, maxit);
        let r = solver::converged(c, x, la, mode, path[j].0, maxit);
        let q = solver::converged(mirrored(c), y, lb, mode, path[j].0, maxit);
        if r is Ok {
            lemma_walked(
                c,
                path,
                j + 1,
                r->Ok_0.x,
                q->Ok_0.x,
                r->Ok_0.lim,
                q->Ok_0.lim,
            );
        }
    }
}

/// The operating point of the mirror image, found from a point turned round
/// and junction voltages that are alike, is the operating point turned round:
/// its unknowns have the opposite signs and its junction voltages are alike.
/// Where a circuit has none, its mirror image fails in the same way. With
/// rounded numbers a diode shorted at a node is left out: rounding tells its
/// two directions apart.
pub proof fn mirrored_circuits_rest_at_opposite_points<R: Real>(
    c: CircuitModel<R>,
    x: Seq<R>,
    y: Seq<R>,
    la: Seq<(R, R)>,
    lb: Seq<(R, R)>,
)
    requires
        signs::signs_pass::<R>(),
        diodes_apart(c),
        c.wf(),
        signs::all_opposed(x, y),
        limits_alike(la, lb),
        x.len() == c.unknowns(),
        la.len() == c.devs.len(),
    ensures
        outcomes_mirror(
            solver::operating_point(c, x, la),
            solver::operating_point(mirrored(c), y, lb),
        ),
{
    let zero = solver::origin::<R>(x.len());
    let still = solver::relaxed::<R>(la.len());
    signs::lemma_nil_opposed::<R>();
    signs::lemma_alike_itself(R::nil());
    assert(signs::all_opposed(zero, zero));
    assert(limits_alike(still, still));
    lemma_iterated(
        c,
        x,
        y,
        la,
        lb,
        R::unit(),
        models::min_conductance::<R>(),
        1,
        solver::ITL_OP as int,
    );
    lemma_walked(c, solver::gmin_path::<R>(), 0, zero, zero, still, still);
    lemma_walked(c, solver::source_path::<R>(), 0, zero, zero, still, still);
}

/// The operating point of the mirror image, as an `.op` card asks for it, is
/// the operating point turned round.
pub proof fn mirrored_circuits_mirror<R: Real>(c: CircuitModel<R>)
    requires
        signs::signs_pass::<R>(),
        diodes_apart(c),
        c.wf(),
    ensures
        outcomes_mirror(solver::resting_point(c), solver::resting_point(mirrored(c))),
{
    circuit::lemma_branch_count(c.devs, 0, c.devs.len() as int);
    let zero = solver::origin::<R>(c.unknowns() as nat);
    let still = solver::relaxed::<R>(c.devs.len());
    signs::lemma_nil_opposed::<R>();
    signs::lemma_alike_itself(R::nil());
    assert(signs::all_opposed(zero, zero));
    assert(limits_alike(still, still));
    mirrored_circuits_rest_at_opposite_points(c, zero, zero, still, still);
}

} // verus!
