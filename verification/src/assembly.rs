//! The equations of a circuit at a point.
use vstd::array::array_as_slice;
use vstd::prelude::*;

use crate::circuit;
use crate::circuit::{Circuit, CircuitModel, Dev, DevModel};
use crate::equations;
use crate::equations::Equations;
use crate::models;
use crate::models::{ceval, diode_eval, junction, junction_exp, mos_op, sign, vt, wave_val};
use crate::num::Real;
use crate::sparse::Sys;

verus! {

/// What the equations are set up for.
pub enum Mode<'a, R> {
    /// An operating point, with the sources scaled by `fac`.
    Dc { fac: R },
    /// A time step of length `h` to time `t` from the reactive states `st`, by
    /// the backward Euler rule or by the trapezoidal one.
    Tran { h: R, t: R, st: &'a Vec<(R, R)>, be: bool },
}

pub enum ModeModel<R> {
    Dc { fac: R },
    Tran { h: R, t: R, st: Seq<(R, R)>, be: bool },
}

impl<'a, R> View for Mode<'a, R> {
    type V = ModeModel<R>;

    open spec fn view(&self) -> ModeModel<R> {
        match *self {
            Mode::Dc { fac } => ModeModel::Dc { fac },
            Mode::Tran { h, t, st, be } => ModeModel::Tran { h, t, st: st@, be },
        }
    }
}

impl<R: Real> ModeModel<R> {
    pub open spec fn now(self) -> R {
        match self {
            ModeModel::Dc { .. } => R::nil(),
            ModeModel::Tran { t, .. } => t,
        }
    }

    pub open spec fn scale(self) -> R {
        match self {
            ModeModel::Dc { fac } => fac,
            ModeModel::Tran { .. } => R::unit(),
        }
    }

    /// There is a reactive state for each of `n` devices.
    pub open spec fn covers(self, n: int) -> bool {
        match self {
            ModeModel::Dc { .. } => true,
            ModeModel::Tran { st, .. } => st.len() == n,
        }
    }
}

/// The equations with the junction voltages that they were set up at, and
/// whether a junction was held back.
pub struct Stamped<R> {
    pub eq: Equations<R>,
    pub lim: Seq<(R, R)>,
    pub limited: bool,
}

/// The factor of the integration rule.
pub open spec fn rule_factor<R: Real>(be: bool) -> R {
    if be {
        R::unit()
    } else {
        R::decimal(2, 0)
    }
}

/// What the integration rule carries over of the last derivative.
pub open spec fn carried<R: Real>(be: bool, v: R) -> R {
    if be {
        R::nil()
    } else {
        v
    }
}

/// The voltage between two unknowns.
pub open spec fn across<R: Real>(x: Seq<R>, p: usize, n: usize) -> R {
    x[p as int].minus(x[n as int])
}

pub open spec fn stamp_capacitor<R: Real>(
    s: Equations<R>,
    p: usize,
    n: usize,
    v: R,
    m: R,
    x: Seq<R>,
    h: R,
    last: (R, R),
    be: bool,
) -> Equations<R> {
    let k = rule_factor::<R>(be);
    let (q, c) = models::charge(across(x, p, n), v, m);
    let i = k.over(h).times(q.minus(last.0)).minus(carried(be, last.1));
    s.with_current(p as int, n as int, i, seq![(p, n, k.times(c).over(h))], x)
}

pub open spec fn stamp_inductor<R: Real>(
    s: Equations<R>,
    p: usize,
    n: usize,
    v: R,
    br: usize,
    h: R,
    last: (R, R),
    be: bool,
) -> Equations<R> {
    let k = rule_factor::<R>(be);
    let vh = k.over(h).times(last.0).plus(carried(be, last.1));
    s.with_voltage(
        p as int,
        n as int,
        br as int,
        vh.opposite(),
        seq![(br, 0usize, k.times(v).over(h))],
    )
}

pub open spec fn stamp_diode<R: Real>(
    s: Stamped<R>,
    di: int,
    p: usize,
    n: usize,
    is: R,
    nf: R,
    x: Seq<R>,
    gmin: R,
) -> Stamped<R> {
    let vt = nf.times(models::thermal::<R>());
    let vr = across(x, p, n);
    let vd = models::junction_voltage(vr, s.lim[di].0, vt, is);
    let (id, gd) = models::diode_point(vd, is, vt, gmin);
    Stamped {
        eq: s.eq.with_current(
            p as int,
            n as int,
            id.plus(gd.times(vr.minus(vd))),
            seq![(p, n, gd)],
            x,
        ),
        lim: s.lim.update(di, (vd, s.lim[di].1)),
        limited: s.limited || models::held_back(vd, vr),
    }
}

/// The transport form of the bipolar transistor as three contributions: the
/// two junctions and the transport source.
pub open spec fn stamp_bipolar<R: Real>(
    s: Stamped<R>,
    di: int,
    c: usize,
    b: usize,
    e: usize,
    is: R,
    bf: R,
    br: R,
    pnp: bool,
    x: Seq<R>,
    gmin: R,
) -> Stamped<R> {
    let vt = models::thermal::<R>();
    let sg = models::polarity::<R>(pnp);
    let vbr = sg.times(across(x, b, e));
    let vcr = sg.times(across(x, b, c));
    let vbe = models::junction_voltage(vbr, s.lim[di].0, vt, is);
    let vbc = models::junction_voltage(vcr, s.lim[di].1, vt, is);
    let ef = models::junction_gain(vbe, vt);
    let er = models::junction_gain(vbc, vt);
    let gmf = is.times(ef).over(vt);
    let gmr = is.times(er).over(vt);
    let gpi = gmf.over(bf).plus(gmin);
    let gmu = gmr.over(br).plus(gmin);
    let dbe = vbr.minus(vbe);
    let dbc = vcr.minus(vbc);
    let ibe = is.times(ef.minus(R::unit())).over(bf).plus(gmin.times(vbe));
    let ibc = is.times(er.minus(R::unit())).over(br).plus(gmin.times(vbc));
    let ict = is.times(ef.minus(er));
    Stamped {
        eq: s.eq.with_current(
            b as int,
            e as int,
            sg.times(ibe.plus(gpi.times(dbe))),
            seq![(b, e, gpi)],
            x,
        ).with_current(
            b as int,
            c as int,
            sg.times(ibc.plus(gmu.times(dbc))),
            seq![(b, c, gmu)],
            x,
        ).with_current(
            c as int,
            e as int,
            sg.times(ict.plus(gmf.times(dbe)).minus(gmr.times(dbc))),
            seq![(b, e, gmf), (b, c, gmr.opposite())],
            x,
        ),
        lim: s.lim.update(di, (vbe, vbc)),
        limited: s.limited || models::held_back(vbe, vbr) || models::held_back(vbc, vcr),
    }
}

/// The contribution of device `di` added to the equations.
pub open spec fn stamped<R: Real>(
    s: Stamped<R>,
    dev: DevModel<R>,
    di: int,
    x: Seq<R>,
    mode: ModeModel<R>,
    gmin: R,
) -> Stamped<R> {
    match dev {
        DevModel::R { p, n, v } => Stamped {
            eq: s.eq.with_current(
                p as int,
                n as int,
                across(x, p, n).over(v),
                seq![(p, n, R::unit().over(v))],
                x,
            ),
            ..s
        },
        DevModel::C { p, n, v, m, .. } => match mode {
            ModeModel::Dc { .. } => s,
            ModeModel::Tran { h, t, st, be } => Stamped {
                eq: stamp_capacitor(s.eq, p, n, v, m, x, h, st[di], be),
                ..s
            },
        },
        DevModel::L { p, n, v, br, .. } => match mode {
            ModeModel::Dc { .. } => Stamped {
                eq: s.eq.with_voltage(
                    p as int,
                    n as int,
                    br as int,
                    R::nil(),
                    Seq::<(usize, usize, R)>::empty(),
                ),
                ..s
            },
            ModeModel::Tran { h, t, st, be } => Stamped {
                eq: stamp_inductor(s.eq, p, n, v, br, h, st[di], be),
                ..s
            },
        },
        DevModel::V { p, n, dc, wave, br, .. } => Stamped {
            eq: s.eq.with_voltage(
                p as int,
                n as int,
                br as int,
                mode.scale().times(models::source_value(dc, wave, mode.now())),
                Seq::<(usize, usize, R)>::empty(),
            ),
            ..s
        },
        DevModel::I { p, n, dc, wave, .. } => Stamped {
            eq: s.eq.with_current(
                p as int,
                n as int,
                mode.scale().times(models::source_value(dc, wave, mode.now())),
                Seq::<(usize, usize, R)>::empty(),
                x,
            ),
            ..s
        },
        DevModel::D { p, n, is, nf } => stamp_diode(s, di, p, n, is, nf, x, gmin),
        DevModel::M { d, g, s: src, kp, vt0, lambda, pmos } => {
            let o = models::fet_point(d, g, src, kp, vt0, lambda, pmos, x);
            Stamped {
                eq: s.eq.with_current(
                    o.ed as int,
                    o.es as int,
                    o.i,
                    seq![(g, o.es, o.gm), (o.ed, o.es, o.gds.plus(gmin))],
                    x,
                ),
                ..s
            }
        },
        DevModel::E { p, n, cp, cn, k, br } => Stamped {
            eq: s.eq.with_voltage(p as int, n as int, br as int, R::nil(), seq![(cp, cn, k)]),
            ..s
        },
        DevModel::G { p, n, cp, cn, k } => Stamped {
            eq: s.eq.with_current(
                p as int,
                n as int,
                k.times(across(x, cp, cn)),
                seq![(cp, cn, k)],
                x,
            ),
            ..s
        },
        DevModel::Q { c, b, e, is, bf, br, pnp } => stamp_bipolar(
            s,
            di,
            c,
            b,
            e,
            is,
            bf,
            br,
            pnp,
            x,
            gmin,
        ),
    }
}

/// The contributions of the first `i` devices, when `lim` holds the junction
/// voltages of the last evaluation and `limited` tells of junctions held back
/// before.
pub open spec fn assembled<R: Real>(
    c: CircuitModel<R>,
    x: Seq<R>,
    lim: Seq<(R, R)>,
    mode: ModeModel<R>,
    gmin: R,
    limited: bool,
    i: int,
) -> Stamped<R>
    decreases i,
{
    if i <= 0 {
        Stamped { eq: Equations::blank(c.unknowns() as nat), lim, limited }
    } else {
        stamped(
            assembled(c, x, lim, mode, gmin, limited, i - 1),
            c.devs[i - 1],
            i - 1,
            x,
            mode,
            gmin,
        )
    }
}

/// The equations of a circuit.
pub open spec fn circuit_equations<R: Real>(
    c: CircuitModel<R>,
    x: Seq<R>,
    lim: Seq<(R, R)>,
    mode: ModeModel<R>,
    gmin: R,
) -> Stamped<R> {
    assembled(c, x, lim, mode, gmin, false, c.devs.len() as int)
}

/// Adds a current contribution and keeps the system closed.
fn inject<R: Real>(
    s: &mut Sys<R>,
    p: usize,
    n: usize,
    i: R,
    ctl: &[(usize, usize, R)],
    x: &[R],
)
    requires
        old(s).wf(),
        old(s)@.closed(),
        p < old(s)@.order(),
        n < old(s)@.order(),
        x@.len() == old(s)@.order(),
        forall|k: int|
            0 <= k < ctl@.len() ==> (#[trigger] ctl@[k]).0 < x@.len() && ctl@[k].1 < x@.len(),
    ensures
        final(s).wf(),
        final(s)@.closed(),
        final(s)@.order() == old(s)@.order(),
        final(s)@ == old(s)@.with_current(p as int, n as int, i, ctl@, x@),
{
    proof {
        equations::lemma_with_current_closed(s@, p as int, n as int, i, ctl@, x@);
    }
    s.contribute(p, n, i, ctl, x);
}

/// Adds a voltage contribution and keeps the system closed.
fn drive<R: Real>(
    s: &mut Sys<R>,
    p: usize,
    n: usize,
    br: usize,
    v: R,
    ctl: &[(usize, usize, R)],
)
    requires
        old(s).wf(),
        old(s)@.closed(),
        p < old(s)@.order(),
        n < old(s)@.order(),
        br < old(s)@.order(),
        forall|k: int|
            0 <= k < ctl@.len() ==> (#[trigger] ctl@[k]).0 < old(s)@.order() && ctl@[k].1 < old(
                s,
            )@.order(),
    ensures
        final(s).wf(),
        final(s)@.closed(),
        final(s)@.order() == old(s)@.order(),
        final(s)@ == old(s)@.with_voltage(p as int, n as int, br as int, v, ctl@),
{
    proof {
        equations::lemma_with_voltage_closed(s@, p as int, n as int, br as int, v, ctl@);
    }
    s.vcontrib(p, n, br, v, ctl);
}

fn one_control<R: Real>(a: usize, b: usize, g: R) -> (r: [(usize, usize, R); 1])
    ensures
        r@ == seq![(a, b, g)],
{
    let r = [(a, b, g)];
    proof {
        assert(r@ =~= seq![(a, b, g)]);
    }
    r
}

fn two_controls<R: Real>(a: usize, b: usize, g: R, c: usize, d: usize, h: R) -> (r: [(
    usize,
    usize,
    R,
); 2])
    ensures
        r@ == seq![(a, b, g), (c, d, h)],
{
    let r = [(a, b, g), (c, d, h)];
    proof {
        assert(r@ =~= seq![(a, b, g), (c, d, h)]);
    }
    r
}

/// The state of an evaluation is fit for a circuit.
pub open spec fn fits<R: Real>(
    c: CircuitModel<R>,
    x: Seq<R>,
    lim: Seq<(R, R)>,
    mode: ModeModel<R>,
) -> bool {
    &&& c.wf()
    &&& x.len() == c.unknowns()
    &&& lim.len() == c.devs.len()
    &&& mode.covers(c.devs.len() as int)
}

/// The factor of the integration rule.
fn rule<R: Real>(be: bool) -> (r: R)
    ensures
        r == rule_factor::<R>(be),
{
    if be {
        R::one()
    } else {
        R::lit(2, 0)
    }
}

fn carry<R: Real>(be: bool, v: R) -> (r: R)
    ensures
        r == carried(be, v),
{
    if be {
        R::zero()
    } else {
        v
    }
}

/// Adds the contribution of one device.
fn stamp<R: Real>(
    s: &mut Sys<R>,
    ckt: &Circuit<R>,
    di: usize,
    x: &[R],
    lim: &mut Vec<(R, R)>,
    mode: &Mode<R>,
    gmin: R,
    limited: &mut bool,
)
    requires
        di < ckt@.devs.len(),
        fits(ckt@, x@, old(lim)@, mode@),
        old(s).wf(),
        old(s)@.closed(),
        old(s)@.order() == ckt@.unknowns(),
    ensures
        final(s).wf(),
        final(s)@.closed(),
        final(s)@.order() == ckt@.unknowns(),
        final(lim)@.len() == old(lim)@.len(),
        (Stamped { eq: final(s)@, lim: final(lim)@, limited: *final(limited) }) == stamped(
            Stamped { eq: old(s)@, lim: old(lim)@, limited: *old(limited) },
            ckt@.devs[di as int],
            di as int,
            x@,
            mode@,
            gmin,
        ),
{
    let ghost m = ckt@.unknowns();
    let ghost nn = ckt@.nodes.len();
    proof {
        assert(ckt@.devs[di as int] == ckt.devs@[di as int]@);
        assert(ckt@.devs[di as int].placed(nn as int));
        if ckt@.devs[di as int].has_branch() {
            circuit::lemma_branch_placed(ckt@, di as int);
        }
    }
    let none: [(usize, usize, R); 0] = [];
    proof {
        assert(none@ =~= Seq::<(usize, usize, R)>::empty());
    }
    let now = match mode {
        Mode::Dc { .. } => R::zero(),
        Mode::Tran { t, .. } => *t,
    };
    let fac = match mode {
        Mode::Dc { fac } => *fac,
        Mode::Tran { .. } => R::one(),
    };
    match &ckt.devs[di] {
        Dev::R { p, n, v } => {
            let ctl = one_control(*p, *n, R::one().div(*v));
            inject(s, *p, *n, x[*p].sub(x[*n]).div(*v), array_as_slice(&ctl), x);
        },
        Dev::C { p, n, v, ic, m: mg } => match mode {
            Mode::Dc { .. } => {},
            Mode::Tran { h, t, st, be } => {
                let k = rule::<R>(*be);
                let (q, c) = ceval(x[*p].sub(x[*n]), *v, *mg);
                let last = st[di];
                let inow = k.div(*h).mul(q.sub(last.0)).sub(carry(*be, last.1));
                let ctl = one_control(*p, *n, k.mul(c).div(*h));
                inject(s, *p, *n, inow, array_as_slice(&ctl), x);
            },
        },
        Dev::L { p, n, v, br, ic } => match mode {
            Mode::Dc { .. } => {
                drive(s, *p, *n, *br, R::zero(), array_as_slice(&none));
            },
            Mode::Tran { h, t, st, be } => {
                let k = rule::<R>(*be);
                let last = st[di];
                let vh = k.div(*h).mul(last.0).add(carry(*be, last.1));
                let ctl = one_control(*br, 0, k.mul(*v).div(*h));
                drive(s, *p, *n, *br, vh.neg(), array_as_slice(&ctl));
            },
        },
        Dev::V { p, n, dc, ac, wave, br } => {
            drive(s, *p, *n, *br, fac.mul(wave_val(*dc, wave, now)), array_as_slice(&none));
        },
        Dev::I { p, n, dc, ac, wave } => {
            inject(s, *p, *n, fac.mul(wave_val(*dc, wave, now)), array_as_slice(&none), x);
        },
        Dev::D { p, n, is, nf } => {
            let vt = nf.mul(vt::<R>());
            let vr = x[*p].sub(x[*n]);
            let mut last = lim[di];
            let vd = junction(vr, &mut last.0, vt, *is, limited);
            lim[di] = last;
            let (id, gd) = diode_eval(vd, *is, vt, gmin);
            let ctl = one_control(*p, *n, gd);
            inject(s, *p, *n, id.add(gd.mul(vr.sub(vd))), array_as_slice(&ctl), x);
        },
        Dev::M { d, g, s: src, kp, vt0, lambda, pmos } => {
            let o = mos_op(&ckt.devs[di], x);
            let ctl = two_controls(*g, o.es, o.gm, o.ed, o.es, o.gds.add(gmin));
            inject(s, o.ed, o.es, o.i, array_as_slice(&ctl), x);
        },
        Dev::E { p, n, cp, cn, k, br } => {
            let ctl = one_control(*cp, *cn, *k);
            drive(s, *p, *n, *br, R::zero(), array_as_slice(&ctl));
        },
        Dev::G { p, n, cp, cn, k } => {
            let ctl = one_control(*cp, *cn, *k);
            inject(s, *p, *n, k.mul(x[*cp].sub(x[*cn])), array_as_slice(&ctl), x);
        },
        Dev::Q { c, b, e, is, bf, br, pnp } => {
            let vt = vt::<R>();
            let sg = sign::<R>(*pnp);
            let vbr = sg.mul(x[*b].sub(x[*e]));
            let vcr = sg.mul(x[*b].sub(x[*c]));
            let mut last = lim[di];
            let vbe = junction(vbr, &mut last.0, vt, *is, limited);
            let vbc = junction(vcr, &mut last.1, vt, *is, limited);
            lim[di] = last;
            let ef = junction_exp(vbe, vt);
            let er = junction_exp(vbc, vt);
            let gmf = is.mul(ef).div(vt);
            let gmr = is.mul(er).div(vt);
            let gpi = gmf.div(*bf).add(gmin);
            let gmu = gmr.div(*br).add(gmin);
            let dbe = vbr.sub(vbe);
            let dbc = vcr.sub(vbc);
            let ibe = is.mul(ef.sub(R::one())).div(*bf).add(gmin.mul(vbe));
            let ibc = is.mul(er.sub(R::one())).div(*br).add(gmin.mul(vbc));
            let ict = is.mul(ef.sub(er));
            let c1 = one_control(*b, *e, gpi);
            let c2 = one_control(*b, *c, gmu);
            let c3 = two_controls(*b, *e, gmf, *b, *c, gmr.neg());
            inject(s, *b, *e, sg.mul(ibe.add(gpi.mul(dbe))), array_as_slice(&c1), x);
            inject(s, *b, *c, sg.mul(ibc.add(gmu.mul(dbc))), array_as_slice(&c2), x);
            inject(
                s,
                *c,
                *e,
                sg.mul(ict.add(gmf.mul(dbe)).sub(gmr.mul(dbc))),
                array_as_slice(&c3),
                x,
            );
        },
    }
}

/// Sets up the equations of a circuit at the point `x`.
pub fn assemble<R: Real>(
    ckt: &Circuit<R>,
    x: &[R],
    lim: &mut Vec<(R, R)>,
    mode: &Mode<R>,
    gmin: R,
    limited: &mut bool,
) -> (s: Sys<R>)
    requires
        fits(ckt@, x@, old(lim)@, mode@),
    ensures
        s.wf(),
        s@.closed(),
        s@.order() == ckt@.unknowns(),
        final(lim)@.len() == old(lim)@.len(),
        (Stamped { eq: s@, lim: final(lim)@, limited: *final(limited) }) == assembled(
            ckt@,
            x@,
            old(lim)@,
            mode@,
            gmin,
            *old(limited),
            ckt@.devs.len() as int,
        ),
{
    let ghost start = lim@;
    let ghost held = *limited;
    let m: usize = ckt.nodes.len() + ckt.nb;
    let mut s = Sys::<R>::new(m);
    let mut di: usize = 0;
    while di < ckt.devs.len()
        invariant
            di <= ckt.devs@.len(),
            fits(ckt@, x@, start, mode@),
            lim@.len() == start.len(),
            s.wf(),
            s@.closed(),
            s@.order() == ckt@.unknowns(),
            (Stamped { eq: s@, lim: lim@, limited: *limited }) == assembled(
                ckt@,
                x@,
                start,
                mode@,
                gmin,
                held,
                di as int,
            ),
        decreases ckt.devs@.len() - di,
    {
        stamp(&mut s, ckt, di, x, lim, mode, gmin, limited);
        di = di + 1;
    }
    s
}

} // verus!
