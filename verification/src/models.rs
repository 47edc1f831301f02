//! Device models.
use vstd::prelude::*;

use crate::circuit;
use crate::circuit::{Dev, DevModel, Wave, WaveModel};
use crate::num;
use crate::num::{is_same, pi, Real};

verus! {

/// The conductance across every junction.
pub open spec fn min_conductance<R: Real>() -> R {
    R::decimal(1, -12)
}

pub fn gmin<R: Real>() -> (r: R)
    ensures
        r == min_conductance::<R>(),
{
    R::lit(1, -12)
}

/// The smallest voltage difference that counts.
pub open spec fn voltage_grain<R: Real>() -> R {
    R::decimal(1, -6)
}

pub fn vntol<R: Real>() -> (r: R)
    ensures
        r == voltage_grain::<R>(),
{
    R::lit(1, -6)
}

/// The thermal voltage.
pub open spec fn thermal<R: Real>() -> R {
    R::decimal(2585, -5)
}

pub fn vt<R: Real>() -> (r: R)
    ensures
        r == thermal::<R>(),
{
    R::lit(2585, -5)
}

/// The time within a periodic course that time `t` falls on.
pub open spec fn wrapped<R: Real>(t0: R, per: R, t: R) -> R {
    if R::nil().below(per) && t0.below(t) {
        t0.plus(t.minus(t0).modulo(per))
    } else {
        t
    }
}

/// The point at `tt` of the line through two corners.
pub open spec fn interpolated<R: Real>(a: (R, R), b: (R, R), tt: R) -> R {
    a.1.plus(b.1.minus(a.1).times(tt.minus(a.0)).over(b.0.minus(a.0)))
}

/// The value at `tt` of the corners from `k` on, where `v` holds before them.
pub open spec fn corner_value<R: Real>(pts: Seq<(R, R)>, tt: R, k: int, v: R) -> R
    decreases pts.len() - k,
{
    if k + 1 >= pts.len() {
        v
    } else if pts[k + 1].0.at_most(tt) {
        corner_value(pts, tt, k + 1, pts[k + 1].1)
    } else if pts[k].0.below(tt) {
        interpolated(pts[k], pts[k + 1], tt)
    } else {
        v
    }
}

/// The value of a source at time `t`.
pub open spec fn source_value<R: Real>(dc: R, wave: Option<WaveModel<R>>, t: R) -> R {
    match wave {
        None => dc,
        Some(WaveModel::Sin { vo, va, fr, td, theta }) => {
            let tp = t.minus(td).greater_of(R::nil());
            vo.plus(
                va.times(tp.opposite().times(theta).exponential()).times(
                    R::decimal(2, 0).times(num::circle::<R>()).times(fr).times(tp).sine(),
                ),
            )
        },
        Some(WaveModel::Pwl { pts, per }) => corner_value(
            pts,
            wrapped(pts[0].0, per, t),
            0,
            pts[0].1,
        ),
    }
}

fn pwl_val<R: Real>(pts: &Vec<(R, R)>, per: R, t: R) -> (r: R)
    requires
        pts@.len() > 0,
    ensures
        r == corner_value(pts@, wrapped(pts@[0].0, per, t), 0, pts@[0].1),
{
    let t0 = pts[0].0;
    let mut tt = t;
    if R::zero().lt(per) && t0.lt(tt) {
        tt = t0.add(tt.sub(t0).rem(per));
    }
    let mut v = pts[0].1;
    let mut k: usize = 0;
    while k < pts.len() - 1
        invariant
            pts@.len() > 0,
            k < pts@.len(),
            corner_value(pts@, wrapped(pts@[0].0, per, t), 0, pts@[0].1) == corner_value(
                pts@,
                tt,
                k as int,
                v,
            ),
        decreases pts@.len() - k,
    {
        let a = pts[k];
        let b = pts[k + 1];
        if b.0.le(tt) {
            v = b.1;
        } else if a.0.lt(tt) {
            return a.1.add(b.1.sub(a.1).mul(tt.sub(a.0)).div(b.0.sub(a.0)));
        } else {
            return v;
        }
        k = k + 1;
    }
    v
}

pub fn wave_val<R: Real>(dc: R, wave: &Option<Wave<R>>, t: R) -> (r: R)
    requires
        circuit::cornered(circuit::course(*wave)),
    ensures
        r == source_value(dc, circuit::course(*wave), t),
{
    match wave {
        None => dc,
        Some(w) => match w {
            Wave::Sin { vo, va, fr, td, theta } => {
                let tp = t.sub(*td).max(R::zero());
                vo.add(
                    va.mul(tp.neg().mul(*theta).exp()).mul(
                        R::lit(2, 0).mul(pi::<R>()).mul(*fr).mul(tp).sin(),
                    ),
                )
            },
            Wave::Pwl { pts, per } => pwl_val(pts, *per, t),
        },
    }
}

/// The charge below the linearized range of a graded junction: the integral of
/// `c0 (1 - v)^-m` from zero, which is a logarithm for a grading of one.
pub open spec fn graded_charge<R: Real>(v: R, c0: R, m: R) -> R {
    let e = R::unit().minus(m);
    if num::same(m, R::unit()) {
        R::nil().minus(c0.times(R::unit().minus(v).logarithm()))
    } else {
        c0.times(R::unit()).over(e).times(
            R::unit().minus(R::unit().minus(v.over(R::unit())).power(e)),
        )
    }
}

/// Charge and capacitance of the graded junction at `v`. The charge integrates
/// the capacitance, which is `c0 (1 - v)^-m` below half a volt and linear
/// above; without grading it is the plain capacitor.
pub open spec fn charge<R: Real>(v: R, c0: R, m: R) -> (R, R) {
    let edge = R::decimal(5, -1).times(R::unit());
    if num::same(m, R::nil()) {
        (c0.times(v), c0)
    } else if v.below(edge) {
        (
            graded_charge(v, c0, m),
            c0.times(R::unit().minus(v.over(R::unit())).power(m.opposite())),
        )
    } else {
        let cf = c0.times(R::unit().minus(R::decimal(5, -1)).power(m.opposite()));
        let dv = v.minus(edge);
        let slope = cf.times(m).over(R::unit().times(R::unit().minus(R::decimal(5, -1))));
        (
            graded_charge(edge, c0, m).plus(cf.times(dv)).plus(
                R::decimal(5, -1).times(slope).times(dv).times(dv),
            ),
            cf.plus(slope.times(dv)),
        )
    }
}

fn graded<R: Real>(v: R, c0: R, m: R) -> (r: R)
    ensures
        r == graded_charge(v, c0, m),
{
    if is_same(m, R::one()) {
        return R::zero().sub(c0.mul(R::one().sub(v).ln()));
    }
    let e = R::one().sub(m);
    c0.mul(R::one()).div(e).mul(R::one().sub(R::one().sub(v.div(R::one())).powf(e)))
}

pub fn ceval<R: Real>(v: R, c0: R, m: R) -> (r: (R, R))
    ensures
        r == charge(v, c0, m),
{
    let fc = R::lit(5, -1);
    let vj = R::one();
    let edge = fc.mul(vj);
    if is_same(m, R::zero()) {
        return (c0.mul(v), c0);
    }
    if v.lt(edge) {
        (graded(v, c0, m), c0.mul(R::one().sub(v.div(vj)).powf(m.neg())))
    } else {
        let cf = c0.mul(R::one().sub(fc).powf(m.neg()));
        let dv = v.sub(edge);
        let slope = cf.mul(m).div(vj.mul(R::one().sub(fc)));
        (
            graded(edge, c0, m).add(cf.mul(dv)).add(R::lit(5, -1).mul(slope).mul(dv).mul(dv)),
            cf.add(slope.mul(dv)),
        )
    }
}

/// The exponential of a junction, bounded for large forward voltages.
pub open spec fn junction_gain<R: Real>(v: R, vt: R) -> R {
    v.over(vt).lesser_of(R::decimal(200, 0)).exponential()
}

pub fn junction_exp<R: Real>(v: R, vt: R) -> (r: R)
    ensures
        r == junction_gain(v, vt),
{
    v.div(vt).min(R::lit(200, 0)).exp()
}

/// Current and conductance of a diode.
pub open spec fn diode_point<R: Real>(vd: R, is: R, vt: R, gmin: R) -> (R, R) {
    let e = junction_gain(vd, vt);
    (is.times(e.minus(R::unit())).plus(gmin.times(vd)), is.times(e).over(vt).plus(gmin))
}

pub fn diode_eval<R: Real>(vd: R, is: R, vt: R, gmin: R) -> (r: (R, R))
    ensures
        r == diode_point(vd, is, vt, gmin),
{
    let e = junction_exp(vd, vt);
    (is.mul(e.sub(R::one())).add(gmin.mul(vd)), is.mul(e).div(vt).add(gmin))
}

/// A junction voltage limited in how far it moves from the last one.
pub open spec fn limited_voltage<R: Real>(vnew: R, vold: R, vt: R, vcrit: R) -> R {
    if vcrit.below(vnew) && R::decimal(2, 0).times(vt).below(vnew.minus(vold).size()) {
        if R::nil().below(vold) {
            let arg = R::unit().plus(vnew.minus(vold).over(vt));
            if R::nil().below(arg) {
                vold.plus(vt.times(arg.logarithm()))
            } else {
                vcrit
            }
        } else {
            vt.times(vnew.over(vt).logarithm())
        }
    } else {
        vnew
    }
}

pub fn pnjlim<R: Real>(vnew: R, vold: R, vt: R, vcrit: R) -> (r: R)
    ensures
        r == limited_voltage(vnew, vold, vt, vcrit),
{
    if vcrit.lt(vnew) && R::lit(2, 0).mul(vt).lt(vnew.sub(vold).abs()) {
        if R::zero().lt(vold) {
            let arg = R::one().add(vnew.sub(vold).div(vt));
            if R::zero().lt(arg) {
                vold.add(vt.mul(arg.ln()))
            } else {
                vcrit
            }
        } else {
            vt.mul(vnew.div(vt).ln())
        }
    } else {
        vnew
    }
}

/// The voltage above which a junction is limited.
pub open spec fn critical_voltage<R: Real>(vt: R, is: R) -> R {
    vt.times(vt.over(R::decimal(14142135623730951, -16).times(is)).logarithm())
}

/// The voltage that a junction is evaluated at when the solution says `raw`
/// and it was last evaluated at `last`.
pub open spec fn junction_voltage<R: Real>(raw: R, last: R, vt: R, is: R) -> R {
    limited_voltage(raw, last, vt, critical_voltage(vt, is))
}

/// The limiting of a junction moved its voltage noticeably.
pub open spec fn held_back<R: Real>(v: R, raw: R) -> bool {
    voltage_grain::<R>().below(v.minus(raw).size())
}

/// The limited junction voltage, with the bookkeeping that diodes and bipolar
/// transistors share.
pub fn junction<R: Real>(raw: R, lim: &mut R, vt: R, is: R, limited: &mut bool) -> (v: R)
    ensures
        v == junction_voltage(raw, *old(lim), vt, is),
        *final(lim) == v,
        *final(limited) == (*old(limited) || held_back(v, raw)),
{
    let vcrit = vt.mul(vt.div(R::lit(14142135623730951, -16).mul(is)).ln());
    let v = pnjlim(raw, *lim, vt, vcrit);
    if vntol::<R>().lt(v.sub(raw).abs()) {
        *limited = true;
    }
    *lim = v;
    v
}

/// Current, transconductance and output conductance of the square law
/// transistor, with the terminal voltages in the effective frame.
pub open spec fn square_law<R: Real>(vgs: R, vds: R, kp: R, vt0: R, lambda: R) -> (R, R, R) {
    let vov = vgs.minus(vt0);
    let lam = R::unit().plus(lambda.times(vds));
    if vov.at_most(R::nil()) {
        (R::nil(), R::nil(), R::nil())
    } else if vds.below(vov) {
        let id = kp.times(
            vov.times(vds).minus(R::decimal(5, -1).times(vds).times(vds)),
        );
        (
            id.times(lam),
            kp.times(vds).times(lam),
            kp.times(vov.minus(vds)).times(lam).plus(id.times(lambda)),
        )
    } else {
        let id = R::decimal(5, -1).times(kp).times(vov).times(vov);
        (id.times(lam), kp.times(vov).times(lam), id.times(lambda))
    }
}

pub fn mos_eval<R: Real>(vgs: R, vds: R, kp: R, vt0: R, lambda: R) -> (r: (R, R, R))
    ensures
        r == square_law(vgs, vds, kp, vt0, lambda),
{
    let vov = vgs.sub(vt0);
    if vov.le(R::zero()) {
        return (R::zero(), R::zero(), R::zero());
    }
    let lam = R::one().add(lambda.mul(vds));
    if vds.lt(vov) {
        let id = kp.mul(vov.mul(vds).sub(R::lit(5, -1).mul(vds).mul(vds)));
        (id.mul(lam), kp.mul(vds).mul(lam), kp.mul(vov.sub(vds)).mul(lam).add(id.mul(lambda)))
    } else {
        let id = R::lit(5, -1).mul(kp).mul(vov).mul(vov);
        (id.mul(lam), kp.mul(vov).mul(lam), id.mul(lambda))
    }
}

/// The sign that turns the voltages of a complementary device round.
pub open spec fn polarity<R: Real>(complementary: bool) -> R {
    if complementary {
        R::decimal(-1, 0)
    } else {
        R::unit()
    }
}

pub fn sign<R: Real>(complementary: bool) -> (r: R)
    ensures
        r == polarity::<R>(complementary),
{
    if complementary {
        R::lit(-1, 0)
    } else {
        R::one()
    }
}

/// The operating point of a field effect transistor: effective drain and
/// source, current into the effective drain, transconductance and output
/// conductance.
pub struct FetPoint<R> {
    pub ed: usize,
    pub es: usize,
    pub i: R,
    pub gm: R,
    pub gds: R,
}

pub open spec fn fet_point<R: Real>(
    d: usize,
    g: usize,
    s: usize,
    kp: R,
    vt0: R,
    lambda: R,
    pmos: bool,
    x: Seq<R>,
) -> FetPoint<R> {
    let sg = polarity::<R>(pmos);
    let forward = R::nil().at_most(sg.times(x[d as int].minus(x[s as int])));
    let ed = if forward {
        d
    } else {
        s
    };
    let es = if forward {
        s
    } else {
        d
    };
    let vgs = sg.times(x[g as int].minus(x[es as int]));
    let vds = sg.times(x[ed as int].minus(x[es as int]));
    let (id, gm, gds) = square_law(vgs, vds, kp, vt0, lambda);
    FetPoint { ed, es, i: sg.times(id), gm, gds }
}

/// Evaluates a field effect transistor in its effective frame, which takes
/// care of the polarity and of exchanged drain and source.
pub fn mos_op<R: Real>(dv: &Dev<R>, x: &[R]) -> (r: FetPoint<R>)
    requires
        dv@ is M,
        dv@.placed(x@.len() as int),
    ensures
        match dv@ {
            DevModel::M { d, g, s, kp, vt0, lambda, pmos } => r == fet_point(
                d,
                g,
                s,
                kp,
                vt0,
                lambda,
                pmos,
                x@,
            ),
            _ => true,
        },
{
    match dv {
        Dev::M { d, g, s, kp, vt0, lambda, pmos } => {
            let sg = sign::<R>(*pmos);
            let forward = R::zero().le(sg.mul(x[*d].sub(x[*s])));
            let ed: usize = if forward {
                *d
            } else {
                *s
            };
            let es: usize = if forward {
                *s
            } else {
                *d
            };
            let vgs = sg.mul(x[*g].sub(x[es]));
            let vds = sg.mul(x[ed].sub(x[es]));
            let (id, gm, gds) = mos_eval(vgs, vds, *kp, *vt0, *lambda);
            FetPoint { ed, es, i: sg.mul(id), gm, gds }
        },
        _ => FetPoint { ed: 0, es: 0, i: R::zero(), gm: R::zero(), gds: R::zero() },
    }
}

} // verus!
