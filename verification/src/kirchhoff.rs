//! Kirchhoff's laws for the equations of a circuit.
use vstd::prelude::*;

use crate::assembly;
use crate::assembly::{ModeModel, Stamped};
use crate::circuit;
use crate::circuit::{CircuitModel, DevModel};
use crate::equations;
use crate::exact;
use crate::field;
use crate::models;
use crate::num;
use crate::num::Real;
use crate::stamps;

verus! {

/// The current from `p` to `n`, carried at `x` and continued to `y` along its
/// slopes.
pub open spec fn flow<R: Real>(
    p: usize,
    n: usize,
    i: R,
    ctl: Seq<(usize, usize, R)>,
    x: Seq<R>,
    y: Seq<R>,
) -> (usize, usize, R) {
    (p, n, stamps::linearized(i, ctl, x, y))
}

/// The currents through a device when the unknowns are `y`: for each path its
/// two ends and the current from the first to the second. Nonlinear devices
/// are continued linearly from the point `x`.
pub open spec fn currents<R: Real>(
    d: DevModel<R>,
    di: int,
    x: Seq<R>,
    lim: Seq<(R, R)>,
    mode: ModeModel<R>,
    gmin: R,
    y: Seq<R>,
) -> Seq<(usize, usize, R)> {
    match d {
        DevModel::R { p, n, v } => seq![
            flow(p, n, assembly::across(x, p, n).over(v), seq![(p, n, R::unit().over(v))], x, y),
        ],
        DevModel::C { p, n, v, m, .. } => match mode {
            ModeModel::Dc { .. } => Seq::empty(),
            ModeModel::Tran { h, t, st, be } => {
                let k = assembly::rule_factor::<R>(be);
                let (q, c) = models::charge(assembly::across(x, p, n), v, m);
                let i = k.over(h).times(q.minus(st[di].0)).minus(
                    assembly::carried(be, st[di].1),
                );
                seq![flow(p, n, i, seq![(p, n, k.times(c).over(h))], x, y)]
            },
        },
        DevModel::L { p, n, br, .. } => seq![(p, n, y[br as int])],
        DevModel::V { p, n, br, .. } => seq![(p, n, y[br as int])],
        DevModel::I { p, n, dc, wave, .. } => seq![
            flow(
                p,
                n,
                mode.scale().times(models::source_value(dc, wave, mode.now())),
                Seq::<(usize, usize, R)>::empty(),
                x,
                y,
            ),
        ],
        DevModel::D { p, n, is, nf } => {
            let vt = nf.times(models::thermal::<R>());
            let vr = assembly::across(x, p, n);
            let vd = models::junction_voltage(vr, lim[di].0, vt, is);
            let (id, gd) = models::diode_point(vd, is, vt, gmin);
            seq![flow(p, n, id.plus(gd.times(vr.minus(vd))), seq![(p, n, gd)], x, y)]
        },
        DevModel::M { d, g, s, kp, vt0, lambda, pmos } => {
            let o = models::fet_point(d, g, s, kp, vt0, lambda, pmos, x);
            seq![
                flow(
                    o.ed,
                    o.es,
                    o.i,
                    seq![(g, o.es, o.gm), (o.ed, o.es, o.gds.plus(gmin))],
                    x,
                    y,
                ),
            ]
        },
        DevModel::E { p, n, br, .. } => seq![(p, n, y[br as int])],
        DevModel::G { p, n, cp, cn, k } => seq![
            flow(p, n, k.times(assembly::across(x, cp, cn)), seq![(cp, cn, k)], x, y),
        ],
        DevModel::Q { c, b, e, is, bf, br, pnp } => {
            let vt = models::thermal::<R>();
            let sg = models::polarity::<R>(pnp);
            let vbr = sg.times(assembly::across(x, b, e));
            let vcr = sg.times(assembly::across(x, b, c));
            let vbe = models::junction_voltage(vbr, lim[di].0, vt, is);
            let vbc = models::junction_voltage(vcr, lim[di].1, vt, is);
            let ef = models::junction_gain(vbe, vt);
            let er = models::junction_gain(vbc, vt);
            let gmf = is.times(ef).over(vt);
            let gmr = is.times(er).over(vt);
            let gpi = gmf.over(bf).plus(gmin);
            let gmu = gmr.over(br).plus(gmin);
            let dbe = vbr.minus(vbe);
            let dbc = vcr.minus(vbc);
            let ibe = is.times(ef.minus(R::unit())).over(bf).plus(gmin.times(vbe));
            let ibc = is.times(er.minus(R::unit())).over(br).plus(gmin.times(vbc));
            let ict = is.times(ef.minus(er));
            seq![
                flow(b, e, sg.times(ibe.plus(gpi.times(dbe))), seq![(b, e, gpi)], x, y),
                flow(b, c, sg.times(ibc.plus(gmu.times(dbc))), seq![(b, c, gmu)], x, y),
                flow(
                    c,
                    e,
                    sg.times(ict.plus(gmf.times(dbe)).minus(gmr.times(dbc))),
                    seq![(b, e, gmf), (b, c, gmr.opposite())],
                    x,
                    y,
                ),
            ]
        },
    }
}

/// By how much the voltage across a branch device misses what the device asks
/// for.
pub open spec fn voltage_gap<R: Real>(
    d: DevModel<R>,
    di: int,
    mode: ModeModel<R>,
    y: Seq<R>,
) -> R {
    match d {
        DevModel::L { p, n, v, br, .. } => match mode {
            ModeModel::Dc { .. } => assembly::across(y, p, n).minus(R::nil()).minus(R::nil()),
            ModeModel::Tran { h, t, st, be } => {
                let k = assembly::rule_factor::<R>(be);
                let vh = k.over(h).times(st[di].0).plus(assembly::carried(be, st[di].1));
                assembly::across(y, p, n).minus(
                    stamps::sloped(seq![(br, 0usize, k.times(v).over(h))], y, 1),
                ).minus(vh.opposite())
            },
        },
        DevModel::V { p, n, dc, wave, .. } => assembly::across(y, p, n).minus(R::nil()).minus(
            mode.scale().times(models::source_value(dc, wave, mode.now())),
        ),
        DevModel::E { p, n, cp, cn, k, .. } => assembly::across(y, p, n).minus(
            stamps::sloped(seq![(cp, cn, k)], y, 1),
        ).minus(R::nil()),
        _ => R::nil(),
    }
}

/// `d` with the first `k` currents taken out at one end and put in at the
/// other, seen from node `r`.
pub open spec fn drained<R: Real>(d: R, flows: Seq<(usize, usize, R)>, r: int, k: int) -> R
    decreases k,
{
    if k <= 0 {
        d
    } else {
        let f = flows[k - 1];
        stamps::moved(drained(d, flows, r, k - 1), f.2, r, f.0 as int, f.1 as int)
    }
}

/// The sum, over the first `i` devices, of the currents out of node `r`; for a
/// branch, by how much its voltage misses what is asked for.
pub open spec fn balance<R: Real>(
    c: CircuitModel<R>,
    x: Seq<R>,
    lim: Seq<(R, R)>,
    mode: ModeModel<R>,
    gmin: R,
    y: Seq<R>,
    r: int,
    i: int,
) -> R
    decreases i,
{
    if i <= 0 {
        R::nil()
    } else {
        let d = c.devs[i - 1];
        let before = balance(c, x, lim, mode, gmin, y, r, i - 1);
        let flows = currents(d, i - 1, x, lim, mode, gmin, y);
        if d.has_branch() && r == d.branch() {
            before.plus(voltage_gap(d, i - 1, mode, y))
        } else {
            drained(before, flows, r, flows.len() as int)
        }
    }
}

pub(crate) proof fn lemma_one_flow<R: Real>(d: R, f: (usize, usize, R), r: int)
    ensures
        drained(d, seq![f], r, 1) == stamps::moved(d, f.2, r, f.0 as int, f.1 as int),
{
    reveal_with_fuel(drained, 2);
}

/// The junction voltages of the devices not stamped yet are those given.
proof fn lemma_lim_kept<R: Real>(
    c: CircuitModel<R>,
    x: Seq<R>,
    lim: Seq<(R, R)>,
    mode: ModeModel<R>,
    gmin: R,
    i: int,
)
    requires
        0 <= i <= c.devs.len(),
        lim.len() == c.devs.len(),
    ensures
        ({
            let s = assembly::assembled(c, x, lim, mode, gmin, false, i);
            s.lim.len() == lim.len() && forall|j: int| i <= j < lim.len() ==> #[trigger] s.lim[j] == lim[j]
        }),
    decreases i,
{
    if i > 0 {
        lemma_lim_kept(c, x, lim, mode, gmin, i - 1);
    }
}

proof fn lemma_device<R: Real>(
    c: CircuitModel<R>,
    s: Stamped<R>,
    di: int,
    x: Seq<R>,
    mode: ModeModel<R>,
    gmin: R,
    y: Seq<R>,
    r: int,
)
    requires
        num::is_field::<R>(),
        c.wf(),
        0 <= di < c.devs.len(),
        s.eq.grounded(),
        s.eq.order() == c.unknowns(),
        y[0] == R::nil(),
        0 < r < c.unknowns(),
    ensures
        ({
            let d = c.devs[di];
            let w = assembly::stamped(s, d, di, x, mode, gmin);
            let flows = currents(d, di, x, s.lim, mode, gmin, y);
            &&& w.eq.grounded()
            &&& w.eq.order() == s.eq.order()
            &&& stamps::surplus(w.eq, r, y) == if d.has_branch() && r == d.branch() {
                stamps::surplus(s.eq, r, y).plus(voltage_gap(d, di, mode, y))
            } else {
                drained(stamps::surplus(s.eq, r, y), flows, r, flows.len() as int)
            }
        }),
{
    let d = c.devs[di];
    let e0 = s.eq;
    let before = stamps::surplus(e0, r, y);
    assert(d.placed(c.nodes.len() as int));
    circuit::lemma_branch_count(c.devs, 0, c.devs.len() as int);
    let none = Seq::<(usize, usize, R)>::empty();
    if d.has_branch() {
        circuit::lemma_branch_placed(c, di);
    }
    match d {
        DevModel::R { p, n, v } => {
            let ctl = seq![(p, n, R::unit().over(v))];
            let i = assembly::across(x, p, n).over(v);
            stamps::current_is_conserved(e0, p as int, n as int, i, ctl, x, y, r);
            lemma_one_flow(before, flow(p, n, i, ctl, x, y), r);
        },
        DevModel::C { p, n, v, m, .. } => {
            if let ModeModel::Tran { h, t, st, be } = mode {
                let k = assembly::rule_factor::<R>(be);
                let (q, cap) = models::charge(assembly::across(x, p, n), v, m);
                let i = k.over(h).times(q.minus(st[di].0)).minus(
                    assembly::carried(be, st[di].1),
                );
                let ctl = seq![(p, n, k.times(cap).over(h))];
                stamps::current_is_conserved(e0, p as int, n as int, i, ctl, x, y, r);
                lemma_one_flow(before, flow(p, n, i, ctl, x, y), r);
            }
        },
        DevModel::L { p, n, v, br, .. } => {
            lemma_one_flow(before, (p, n, y[br as int]), r);
            match mode {
                ModeModel::Dc { .. } => {
                    stamps::branch_defines_voltage(
                        e0,
                        p as int,
                        n as int,
                        br as int,
                        R::nil(),
                        none,
                        y,
                        r,
                    );
                },
                ModeModel::Tran { h, t, st, be } => {
                    let k = assembly::rule_factor::<R>(be);
                    let vh = k.over(h).times(st[di].0).plus(assembly::carried(be, st[di].1));
                    stamps::branch_defines_voltage(
                        e0,
                        p as int,
                        n as int,
                        br as int,
                        vh.opposite(),
                        seq![(br, 0usize, k.times(v).over(h))],
                        y,
                        r,
                    );
                },
            }
        },
        DevModel::V { p, n, dc, wave, br, .. } => {
            lemma_one_flow(before, (p, n, y[br as int]), r);
            stamps::branch_defines_voltage(
                e0,
                p as int,
                n as int,
                br as int,
                mode.scale().times(models::source_value(dc, wave, mode.now())),
                none,
                y,
                r,
            );
        },
        DevModel::I { p, n, dc, wave, .. } => {
            let i = mode.scale().times(models::source_value(dc, wave, mode.now()));
            stamps::current_is_conserved(e0, p as int, n as int, i, none, x, y, r);
            lemma_one_flow(before, flow(p, n, i, none, x, y), r);
        },
        DevModel::D { p, n, is, nf } => {
            let vt = nf.times(models::thermal::<R>());
            let vr = assembly::across(x, p, n);
            let vd = models::junction_voltage(vr, s.lim[di].0, vt, is);
            let (id, gd) = models::diode_point(vd, is, vt, gmin);
            let i = id.plus(gd.times(vr.minus(vd)));
            let ctl = seq![(p, n, gd)];
            stamps::current_is_conserved(e0, p as int, n as int, i, ctl, x, y, r);
            lemma_one_flow(before, flow(p, n, i, ctl, x, y), r);
        },
        DevModel::M { d: nd, g, s: ns, kp, vt0, lambda, pmos } => {
            let o = models::fet_point(nd, g, ns, kp, vt0, lambda, pmos, x);
            let ctl = seq![(g, o.es, o.gm), (o.ed, o.es, o.gds.plus(gmin))];
            stamps::current_is_conserved(e0, o.ed as int, o.es as int, o.i, ctl, x, y, r);
            lemma_one_flow(before, flow(o.ed, o.es, o.i, ctl, x, y), r);
        },
        DevModel::E { p, n, cp, cn, k, br } => {
            lemma_one_flow(before, (p, n, y[br as int]), r);
            stamps::branch_defines_voltage(
                e0,
                p as int,
                n as int,
                br as int,
                R::nil(),
                seq![(cp, cn, k)],
                y,
                r,
            );
        },
        DevModel::G { p, n, cp, cn, k } => {
            let i = k.times(assembly::across(x, cp, cn));
            let ctl = seq![(cp, cn, k)];
            stamps::current_is_conserved(e0, p as int, n as int, i, ctl, x, y, r);
            lemma_one_flow(before, flow(p, n, i, ctl, x, y), r);
        },
        DevModel::Q { c: nc, b, e, is, bf, br, pnp } => {
            let vt = models::thermal::<R>();
            let sg = models::polarity::<R>(pnp);
            let vbr = sg.times(assembly::across(x, b, e));
            let vcr = sg.times(assembly::across(x, b, nc));
            let vbe = models::junction_voltage(vbr, s.lim[di].0, vt, is);
            let vbc = models::junction_voltage(vcr, s.lim[di].1, vt, is);
            let ef = models::junction_gain(vbe, vt);
            let er = models::junction_gain(vbc, vt);
            let gmf = is.times(ef).over(vt);
            let gmr = is.times(er).over(vt);
            let gpi = gmf.over(bf).plus(gmin);
            let gmu = gmr.over(br).plus(gmin);
            let dbe = vbr.minus(vbe);
            let dbc = vcr.minus(vbc);
            let ibe = is.times(ef.minus(R::unit())).over(bf).plus(gmin.times(vbe));
            let ibc = is.times(er.minus(R::unit())).over(br).plus(gmin.times(vbc));
            let ict = is.times(ef.minus(er));
            let i1 = sg.times(ibe.plus(gpi.times(dbe)));
            let i2 = sg.times(ibc.plus(gmu.times(dbc)));
            let i3 = sg.times(ict.plus(gmf.times(dbe)).minus(gmr.times(dbc)));
            let c1 = seq![(b, e, gpi)];
            let c2 = seq![(b, nc, gmu)];
            let c3 = seq![(b, e, gmf), (b, nc, gmr.opposite())];
            let e1 = e0.with_current(b as int, e as int, i1, c1, x);
            let e2 = e1.with_current(b as int, nc as int, i2, c2, x);
            stamps::current_is_conserved(e0, b as int, e as int, i1, c1, x, y, r);
            stamps::current_is_conserved(e1, b as int, nc as int, i2, c2, x, y, r);
            stamps::current_is_conserved(e2, nc as int, e as int, i3, c3, x, y, r);
            reveal_with_fuel(drained, 4);
        },
    }
}

/// The assembled equations are the balance of the circuit: row by row, they
/// miss their right hand sides by the sum of the currents out of the node, or
/// by what a branch voltage misses.
pub proof fn equations_are_the_balance<R: Real>(
    c: CircuitModel<R>,
    x: Seq<R>,
    lim: Seq<(R, R)>,
    mode: ModeModel<R>,
    gmin: R,
    y: Seq<R>,
    r: int,
)
    requires
        num::is_field::<R>(),
        c.wf(),
        lim.len() == c.devs.len(),
        y[0] == R::nil(),
        0 < r < c.unknowns(),
    ensures
        stamps::surplus(assembly::circuit_equations(c, x, lim, mode, gmin).eq, r, y) == balance(
            c,
            x,
            lim,
            mode,
            gmin,
            y,
            r,
            c.devs.len() as int,
        ),
{
    lemma_balance(c, x, lim, mode, gmin, y, r, c.devs.len() as int);
}

proof fn lemma_blank_dot<R: Real>(row: Map<int, R>, y: Seq<R>, hi: int)
    requires
        num::is_field::<R>(),
        row == Map::<int, R>::empty(),
    ensures
        exact::dot(row, y, hi) == R::nil(),
    decreases hi,
{
    if hi > 1 {
        lemma_blank_dot(row, y, hi - 1);
        field::times_nil(y[hi - 1]);
        field::plus_nil(R::nil());
    }
}

pub(crate) proof fn lemma_balance<R: Real>(
    c: CircuitModel<R>,
    x: Seq<R>,
    lim: Seq<(R, R)>,
    mode: ModeModel<R>,
    gmin: R,
    y: Seq<R>,
    r: int,
    i: int,
)
    requires
        num::is_field::<R>(),
        c.wf(),
        lim.len() == c.devs.len(),
        y[0] == R::nil(),
        0 < r < c.unknowns(),
        0 <= i <= c.devs.len(),
    ensures
        ({
            let s = assembly::assembled(c, x, lim, mode, gmin, false, i);
            &&& s.eq.grounded()
            &&& s.eq.order() == c.unknowns()
            &&& stamps::surplus(s.eq, r, y) == balance(c, x, lim, mode, gmin, y, r, i)
        }),
    decreases i,
{
    if i > 0 {
        lemma_balance(c, x, lim, mode, gmin, y, r, i - 1);
        lemma_lim_kept(c, x, lim, mode, gmin, i - 1);
        let s = assembly::assembled(c, x, lim, mode, gmin, false, i - 1);
        lemma_device(c, s, i - 1, x, mode, gmin, y, r);
        assert(s.lim[i - 1] == lim[i - 1]);
        assert(currents(c.devs[i - 1], i - 1, x, s.lim, mode, gmin, y) == currents(
            c.devs[i - 1],
            i - 1,
            x,
            lim,
            mode,
            gmin,
            y,
        ));
    } else {
        let s = assembly::assembled(c, x, lim, mode, gmin, false, 0);
        circuit::lemma_branch_count(c.devs, 0, c.devs.len() as int);
        lemma_blank_dot(s.eq.rows[r], y, c.unknowns());
        field::minus_self(R::nil());
    }
}

proof fn lemma_stamped_closed<R: Real>(
    c: CircuitModel<R>,
    s: Stamped<R>,
    di: int,
    x: Seq<R>,
    mode: ModeModel<R>,
    gmin: R,
)
    requires
        c.wf(),
        0 <= di < c.devs.len(),
        s.eq.closed(),
        s.eq.rows.len() == s.eq.b.len(),
        s.eq.order() == c.unknowns(),
    ensures
        ({
            let w = assembly::stamped(s, c.devs[di], di, x, mode, gmin);
            w.eq.closed() && w.eq.rows.len() == w.eq.b.len() && w.eq.order() == s.eq.order()
        }),
{
    let d = c.devs[di];
    let e0 = s.eq;
    assert(d.placed(c.nodes.len() as int));
    circuit::lemma_branch_count(c.devs, 0, c.devs.len() as int);
    let none = Seq::<(usize, usize, R)>::empty();
    if d.has_branch() {
        circuit::lemma_branch_placed(c, di);
    }
    match d {
        DevModel::R { p, n, v } => {
            equations::lemma_with_current_closed(
                e0,
                p as int,
                n as int,
                assembly::across(x, p, n).over(v),
                seq![(p, n, R::unit().over(v))],
                x,
            );
        },
        DevModel::C { p, n, v, m, .. } => {
            if let ModeModel::Tran { h, t, st, be } = mode {
                let k = assembly::rule_factor::<R>(be);
                let (q, cap) = models::charge(assembly::across(x, p, n), v, m);
                let i = k.over(h).times(q.minus(st[di].0)).minus(
                    assembly::carried(be, st[di].1),
                );
                equations::lemma_with_current_closed(
                    e0,
                    p as int,
                    n as int,
                    i,
                    seq![(p, n, k.times(cap).over(h))],
                    x,
                );
            }
        },
        DevModel::L { p, n, v, br, .. } => match mode {
            ModeModel::Dc { .. } => {
                equations::lemma_with_voltage_closed(
                    e0,
                    p as int,
                    n as int,
                    br as int,
                    R::nil(),
                    none,
                );
            },
            ModeModel::Tran { h, t, st, be } => {
                let k = assembly::rule_factor::<R>(be);
                let vh = k.over(h).times(st[di].0).plus(assembly::carried(be, st[di].1));
                equations::lemma_with_voltage_closed(
                    e0,
                    p as int,
                    n as int,
                    br as int,
                    vh.opposite(),
                    seq![(br, 0usize, k.times(v).over(h))],
                );
            },
        },
        DevModel::V { p, n, dc, wave, br, .. } => {
            equations::lemma_with_voltage_closed(
                e0,
                p as int,
                n as int,
                br as int,
                mode.scale().times(models::source_value(dc, wave, mode.now())),
                none,
            );
        },
        DevModel::I { p, n, dc, wave, .. } => {
            equations::lemma_with_current_closed(
                e0,
                p as int,
                n as int,
                mode.scale().times(models::source_value(dc, wave, mode.now())),
                none,
                x,
            );
        },
        DevModel::D { p, n, is, nf } => {
            let vt = nf.times(models::thermal::<R>());
            let vr = assembly::across(x, p, n);
            let vd = models::junction_voltage(vr, s.lim[di].0, vt, is);
            let (id, gd) = models::diode_point(vd, is, vt, gmin);
            equations::lemma_with_current_closed(
                e0,
                p as int,
                n as int,
                id.plus(gd.times(vr.minus(vd))),
                seq![(p, n, gd)],
                x,
            );
        },
        DevModel::M { d: nd, g, s: ns, kp, vt0, lambda, pmos } => {
            let o = models::fet_point(nd, g, ns, kp, vt0, lambda, pmos, x);
            equations::lemma_with_current_closed(
                e0,
                o.ed as int,
                o.es as int,
                o.i,
                seq![(g, o.es, o.gm), (o.ed, o.es, o.gds.plus(gmin))],
                x,
            );
        },
        DevModel::E { p, n, cp, cn, k, br } => {
            equations::lemma_with_voltage_closed(
                e0,
                p as int,
                n as int,
                br as int,
                R::nil(),
                seq![(cp, cn, k)],
            );
        },
        DevModel::G { p, n, cp, cn, k } => {
            equations::lemma_with_current_closed(
                e0,
                p as int,
                n as int,
                k.times(assembly::across(x, cp, cn)),
                seq![(cp, cn, k)],
                x,
            );
        },
        DevModel::Q { c: nc, b, e, is, bf, br, pnp } => {
            lemma_bipolar_closed(s, di, nc, b, e, is, bf, br, pnp, x, gmin);
        },
    }
}

proof fn lemma_bipolar_closed<R: Real>(
    s: Stamped<R>,
    di: int,
    c: usize,
    b: usize,
    e: usize,
    is: R,
    bf: R,
    br: R,
    pnp: bool,
    x: Seq<R>,
    gmin: R,
)
    requires
        s.eq.closed(),
        s.eq.rows.len() == s.eq.b.len(),
        c < s.eq.order(),
        b < s.eq.order(),
        e < s.eq.order(),
    ensures
        ({
            let w = assembly::stamp_bipolar(s, di, c, b, e, is, bf, br, pnp, x, gmin);
            w.eq.closed() && w.eq.rows.len() == w.eq.b.len() && w.eq.order() == s.eq.order()
        }),
{
    let vt = models::thermal::<R>();
    let sg = models::polarity::<R>(pnp);
    let vbr = sg.times(assembly::across(x, b, e));
    let vcr = sg.times(assembly::across(x, b, c));
    let vbe = models::junction_voltage(vbr, s.lim[di].0, vt, is);
    let vbc = models::junction_voltage(vcr, s.lim[di].1, vt, is);
    let ef = models::junction_gain(vbe, vt);
    let er = models::junction_gain(vbc, vt);
    let gmf = is.times(ef).over(vt);
    let gmr = is.times(er).over(vt);
    let gpi = gmf.over(bf).plus(gmin);
    let gmu = gmr.over(br).plus(gmin);
    let dbe = vbr.minus(vbe);
    let dbc = vcr.minus(vbc);
    let ibe = is.times(ef.minus(R::unit())).over(bf).plus(gmin.times(vbe));
    let ibc = is.times(er.minus(R::unit())).over(br).plus(gmin.times(vbc));
    let ict = is.times(ef.minus(er));
    let i1 = sg.times(ibe.plus(gpi.times(dbe)));
    let i2 = sg.times(ibc.plus(gmu.times(dbc)));
    let i3 = sg.times(ict.plus(gmf.times(dbe)).minus(gmr.times(dbc)));
    let c1 = seq![(b, e, gpi)];
    let c2 = seq![(b, c, gmu)];
    let e1 = s.eq.with_current(b as int, e as int, i1, c1, x);
    let e2 = e1.with_current(b as int, c as int, i2, c2, x);
    equations::lemma_with_current_closed(s.eq, b as int, e as int, i1, c1, x);
    equations::lemma_with_current_closed(e1, b as int, c as int, i2, c2, x);
    equations::lemma_with_current_closed(
        e2,
        c as int,
        e as int,
        i3,
        seq![(b, e, gmf), (b, c, gmr.opposite())],
        x,
    );
}

pub(crate) proof fn lemma_closed<R: Real>(
    c: CircuitModel<R>,
    x: Seq<R>,
    lim: Seq<(R, R)>,
    mode: ModeModel<R>,
    gmin: R,
    i: int,
)
    requires
        c.wf(),
        0 <= i <= c.devs.len(),
    ensures
        ({
            let s = assembly::assembled(c, x, lim, mode, gmin, false, i);
            s.eq.closed() && s.eq.rows.len() == s.eq.b.len() && s.eq.order() == c.unknowns()
        }),
    decreases i,
{
    if i > 0 {
        lemma_closed(c, x, lim, mode, gmin, i - 1);
        let s = assembly::assembled(c, x, lim, mode, gmin, false, i - 1);
        lemma_stamped_closed(c, s, i - 1, x, mode, gmin);
    } else {
        circuit::lemma_branch_count(c.devs, 0, c.devs.len() as int);
    }
}

/// At the point itself the currents that are balanced are those of the devices,
/// not of their linear continuations.
pub proof fn flows_at_the_point_are_exact<R: Real>(
    p: usize,
    n: usize,
    i: R,
    ctl: Seq<(usize, usize, R)>,
    x: Seq<R>,
)
    requires
        num::is_field::<R>(),
    ensures
        flow(p, n, i, ctl, x, x) == (p, n, i),
{
    stamps::linearized_at_its_point(i, ctl, x);
}

/// Kirchhoff's laws. In exact arithmetic the solution of the equations of a
/// circuit lets the currents of the devices sum to zero at every node, and
/// gives every branch device the voltage that it asks for.
pub proof fn solutions_are_balanced<R: Real>(
    c: CircuitModel<R>,
    x: Seq<R>,
    lim: Seq<(R, R)>,
    mode: ModeModel<R>,
    gmin: R,
    y: Seq<R>,
    r: int,
)
    requires
        num::is_field::<R>(),
        R::nil().negligible(),
        assembly::fits(c, x, lim, mode),
        equations::solution(assembly::circuit_equations(c, x, lim, mode, gmin).eq) == Ok::<
            Seq<R>,
            usize,
        >(y),
        0 < r < c.unknowns(),
    ensures
        balance(c, x, lim, mode, gmin, y, r, c.devs.len() as int) == R::nil(),
{
    let s = assembly::circuit_equations(c, x, lim, mode, gmin).eq;
    let origin = Seq::new(c.unknowns() as nat, |i: int| R::nil());
    lemma_closed(c, x, lim, mode, gmin, c.devs.len() as int);
    lemma_balance(c, x, lim, mode, gmin, origin, r, c.devs.len() as int);
    exact::solution_is_sound(s);
    equations_are_the_balance(c, x, lim, mode, gmin, y, r);
    field::minus_self(s.b[r]);
    assert(exact::dot(s.rows[r], y, s.order()) == s.b[r]);
}

} // verus!
