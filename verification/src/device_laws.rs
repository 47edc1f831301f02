//! What the devices carry and ask for, in exact arithmetic.
use vstd::prelude::*;

use crate::assembly;
use crate::assembly::ModeModel;
use crate::circuit::{CircuitModel, DevModel};
use crate::equations;
use crate::field;
use crate::kirchhoff;
use crate::models;
use crate::num;
use crate::num::Real;
use crate::solver;
use crate::stamps;
use crate::wave_laws;

verus! {

/// The voltage from `p` to `n` grows from `x` to `y` by this much.
pub open spec fn rise<R: Real>(x: Seq<R>, y: Seq<R>, p: usize, n: usize) -> R {
    y[p as int].minus(y[n as int]).minus(x[p as int].minus(x[n as int]))
}

proof fn lemma_one_slope<R: Real>(i: R, p: usize, n: usize, g: R, x: Seq<R>, y: Seq<R>)
    requires
        num::is_field::<R>(),
    ensures
        stamps::linearized(i, seq![(p, n, g)], x, y) == i.plus(g.times(rise(x, y, p, n))),
{
    let ctl = seq![(p, n, g)];
    let (u, v) = (x[p as int].minus(x[n as int]), y[p as int].minus(y[n as int]));
    reveal_with_fuel(stamps::sloped, 2);
    reveal_with_fuel(equations::offset_current, 2);
    // (0 + g v) + (i - g u) == i + g (v - u)
    field::plus_nil(g.times(v));
    field::plus_minus(g.times(v), i, g.times(u));
    field::plus_comm(g.times(v), i);
    field::plus_minus(i, g.times(v), g.times(u));
    field::distributes_minus(g, v, u);
}

proof fn lemma_two_slopes<R: Real>(
    i: R,
    p: usize,
    n: usize,
    g: R,
    q: usize,
    m: usize,
    h: R,
    x: Seq<R>,
    y: Seq<R>,
)
    requires
        num::is_field::<R>(),
    ensures
        stamps::linearized(i, seq![(p, n, g), (q, m, h)], x, y) == i.plus(
            g.times(rise(x, y, p, n)),
        ).plus(h.times(rise(x, y, q, m))),
{
    let ctl = seq![(p, n, g), (q, m, h)];
    let (u, v) = (x[p as int].minus(x[n as int]), y[p as int].minus(y[n as int]));
    let (s, t) = (x[q as int].minus(x[m as int]), y[q as int].minus(y[m as int]));
    reveal_with_fuel(stamps::sloped, 3);
    reveal_with_fuel(equations::offset_current, 3);
    let (gv, gu, ht, hs) = (g.times(v), g.times(u), h.times(t), h.times(s));
    // ((0 + gv) + ht) + ((i - gu) - hs) == (gv + (i - gu)) + (ht - hs)
    field::plus_nil(gv);
    field::plus_nil(ht);
    field::minus_nil(ht);
    let w = i.minus(gu);
    field::plus_minus(gv.plus(ht), w, hs);
    field::plus_assoc(gv, ht, w);
    field::plus_comm(ht, w);
    field::plus_assoc(gv, w, ht);
    field::plus_minus(gv.plus(w), ht, hs);
    field::plus_minus(gv, i, gu);
    field::plus_comm(gv, i);
    field::plus_minus(i, gv, gu);
    field::distributes_minus(g, v, u);
    field::distributes_minus(h, t, s);
}

/// Ohm's law: the current from `p` to `n` times the resistance is the voltage
/// from `p` to `n`.
pub proof fn resistors_obey_ohms_law<R: Real>(
    p: usize,
    n: usize,
    v: R,
    di: int,
    x: Seq<R>,
    lim: Seq<(R, R)>,
    mode: ModeModel<R>,
    gmin: R,
    y: Seq<R>,
)
    requires
        num::is_field::<R>(),
        v != R::nil(),
    ensures
        ({
            let f = kirchhoff::currents(DevModel::R { p, n, v }, di, x, lim, mode, gmin, y);
            &&& f.len() == 1
            &&& f[0].0 == p
            &&& f[0].1 == n
            &&& f[0].2.times(v) == y[p as int].minus(y[n as int])
        }),
{
    let (a, b) = (x[p as int].minus(x[n as int]), y[p as int].minus(y[n as int]));
    let g = R::unit().over(v);
    lemma_one_slope(a.over(v), p, n, g, x, y);
    let d = b.minus(a);
    // (a / v + (1 / v) d) v == a + d
    field::plus_distributes(a.over(v), g.times(d), v);
    field::over_times(a, v);
    field::times_assoc(g, d, v);
    field::times_comm(d, v);
    field::times_assoc(g, v, d);
    field::over_times(R::unit(), v);
    field::times_unit(d);
    field::plus_comm(a, d);
    field::minus_plus(b, a);
}

/// A controlled current source carries its gain times the controlling voltage,
/// an independent one its value, scaled while the sources are being raised.
pub proof fn current_sources_carry_their_value<R: Real>(
    d: DevModel<R>,
    di: int,
    x: Seq<R>,
    lim: Seq<(R, R)>,
    mode: ModeModel<R>,
    gmin: R,
    y: Seq<R>,
)
    requires
        num::is_field::<R>(),
        d is G || d is I,
    ensures
        ({
            let f = kirchhoff::currents(d, di, x, lim, mode, gmin, y);
            &&& f.len() == 1
            &&& match d {
                DevModel::G { p, n, cp, cn, k } => f[0] == (
                    p,
                    n,
                    k.times(y[cp as int].minus(y[cn as int])),
                ),
                DevModel::I { p, n, dc, wave, .. } => {
                    &&& f[0].0 == p
                    &&& f[0].1 == n
                    &&& match mode {
                        ModeModel::Dc { fac } => f[0].2 == fac.times(
                            models::source_value(dc, wave, R::nil()),
                        ),
                        ModeModel::Tran { t, .. } => f[0].2 == models::source_value(dc, wave, t),
                    }
                },
                _ => true,
            }
        }),
{
    match d {
        DevModel::G { p, n, cp, cn, k } => {
            let (a, b) = (x[cp as int].minus(x[cn as int]), y[cp as int].minus(y[cn as int]));
            lemma_one_slope(k.times(a), cp, cn, k, x, y);
            field::distributes(k, a, b.minus(a));
            field::plus_comm(a, b.minus(a));
            field::minus_plus(b, a);
        },
        DevModel::I { p, n, dc, wave, .. } => {
            let v = models::source_value(dc, wave, mode.now());
            field::times_unit(v);
            field::plus_nil(mode.scale().times(v));
        },
        _ => {},
    }
}

/// An inductor or a voltage source carries its branch current from its first
/// to its second terminal.
pub proof fn branches_carry_their_current<R: Real>(
    d: DevModel<R>,
    di: int,
    x: Seq<R>,
    lim: Seq<(R, R)>,
    mode: ModeModel<R>,
    gmin: R,
    y: Seq<R>,
)
    requires
        d is L || d is V || d is E,
    ensures
        ({
            let f = kirchhoff::currents(d, di, x, lim, mode, gmin, y);
            &&& f.len() == 1
            &&& match d {
                DevModel::L { p, n, br, .. } => f[0] == (p, n, y[br as int]),
                DevModel::V { p, n, br, .. } => f[0] == (p, n, y[br as int]),
                DevModel::E { p, n, br, .. } => f[0] == (p, n, y[br as int]),
                _ => true,
            }
        }),
{
}

/// A voltage source is satisfied exactly by its value from `p` to `n`, scaled
/// while the sources are being raised; a controlled one by its gain times the
/// controlling voltage.
pub proof fn voltage_sources_set_their_voltage<R: Real>(
    d: DevModel<R>,
    di: int,
    mode: ModeModel<R>,
    y: Seq<R>,
)
    requires
        num::is_field::<R>(),
        d is V || d is E,
    ensures
        match d {
            DevModel::V { p, n, dc, wave, .. } => {
                let v = y[p as int].minus(y[n as int]);
                kirchhoff::voltage_gap(d, di, mode, y) == R::nil() <==> match mode {
                    ModeModel::Dc { fac } => v == fac.times(
                        models::source_value(dc, wave, R::nil()),
                    ),
                    ModeModel::Tran { t, .. } => v == models::source_value(dc, wave, t),
                }
            },
            DevModel::E { p, n, cp, cn, k, .. } => {
                kirchhoff::voltage_gap(d, di, mode, y) == R::nil() <==> y[p as int].minus(
                    y[n as int],
                ) == k.times(y[cp as int].minus(y[cn as int]))
            },
            _ => true,
        },
{
    match d {
        DevModel::V { p, n, dc, wave, .. } => {
            let v = y[p as int].minus(y[n as int]);
            let w = mode.scale().times(models::source_value(dc, wave, mode.now()));
            field::times_unit(models::source_value(dc, wave, mode.now()));
            field::minus_nil(v);
            lemma_no_gap(v, w);
        },
        DevModel::E { p, n, cp, cn, k, .. } => {
            let v = y[p as int].minus(y[n as int]);
            let w = k.times(y[cp as int].minus(y[cn as int]));
            reveal_with_fuel(stamps::sloped, 2);
            field::plus_nil(w);
            field::minus_nil(v.minus(w));
            lemma_no_gap(v, w);
        },
        _ => {},
    }
}

proof fn lemma_no_gap<R: Real>(a: R, b: R)
    requires
        num::is_field::<R>(),
    ensures
        a.minus(b) == R::nil() <==> a == b,
{
    field::minus_self(a);
    field::minus_plus(a, b);
    field::plus_nil(b);
}

/// At rest an inductor is a short circuit. In a time step its voltage is the
/// rate of change of its flux: over a backward Euler step the voltage at the
/// end times the length is the change of the flux; over a trapezoidal step the
/// sum of the voltages at both ends times the length is twice that change.
pub proof fn inductors_integrate_their_voltage<R: Real>(
    p: usize,
    n: usize,
    v: R,
    br: usize,
    ic: R,
    di: int,
    mode: ModeModel<R>,
    y: Seq<R>,
)
    requires
        num::is_field::<R>(),
        wave_laws::opposites_are_exact::<R>(),
        y[0] == R::nil(),
        mode matches ModeModel::Tran { h, .. } ==> h != R::nil(),
    ensures
        ({
            let gap = kirchhoff::voltage_gap(DevModel::L { p, n, v, br, ic }, di, mode, y);
            let u = y[p as int].minus(y[n as int]);
            let flux = v.times(y[br as int]);
            gap == R::nil() <==> match mode {
                ModeModel::Dc { .. } => u == R::nil(),
                ModeModel::Tran { h, st, be: true, .. } => u.times(h) == flux.minus(st[di].0),
                ModeModel::Tran { h, st, be: false, .. } => u.plus(st[di].1).times(h)
                    == R::decimal(2, 0).times(flux.minus(st[di].0)),
            }
        }),
{
    let u = y[p as int].minus(y[n as int]);
    match mode {
        ModeModel::Dc { .. } => {
            field::minus_nil(u);
        },
        ModeModel::Tran { h, t, st, be } => {
            let k = if be {
                R::unit()
            } else {
                R::decimal(2, 0)
            };
            let w = if be {
                R::nil()
            } else {
                st[di].1
            };
            let i = y[br as int];
            let flux = v.times(i);
            let q = st[di].0;
            let g = k.times(v).over(h);
            reveal_with_fuel(stamps::sloped, 2);
            field::minus_nil(i);
            field::plus_nil(g.times(i));
            let vh = k.over(h).times(q).plus(w);
            let s = u.minus(g.times(i));
            // gap == (u - g i) + vh
            field::minus_difference(s, R::nil(), vh);
            field::minus_nil(s);
            let gap = s.plus(vh);
            // gap h == (u + w) h - k (flux - q)
            lemma_scaled_gap(u, w, k, v, i, q, h);
            lemma_no_gap(u.plus(w).times(h), k.times(flux.minus(q)));
            lemma_no_factor(gap, h);
            field::plus_nil(u);
            field::times_unit(flux.minus(q));
        },
    }
}

proof fn lemma_no_factor<R: Real>(a: R, h: R)
    requires
        num::is_field::<R>(),
        h != R::nil(),
    ensures
        a.times(h) == R::nil() <==> a == R::nil(),
{
    field::times_nil(h);
    if a.times(h) == R::nil() {
        field::over_unique(R::nil(), h, a);
        field::over_unique(R::nil(), h, R::nil());
    }
}

proof fn lemma_scaled_gap<R: Real>(u: R, w: R, k: R, v: R, i: R, q: R, h: R)
    requires
        num::is_field::<R>(),
        h != R::nil(),
    ensures
        u.minus(k.times(v).over(h).times(i)).plus(k.over(h).times(q).plus(w)).times(h) == u.plus(
            w,
        ).times(h).minus(k.times(v.times(i).minus(q))),
{
    let g = k.times(v).over(h);
    let (gi, kq) = (g.times(i), k.over(h).times(q));
    let a = u.minus(gi);
    // (a + (kq + w)) h == a h + (kq h + w h)
    field::plus_distributes(a, kq.plus(w), h);
    field::plus_distributes(kq, w, h);
    field::minus_distributes(u, gi, h);
    lemma_factor_through(k.times(v), i, h);
    lemma_factor_through(k, q, h);
    field::times_assoc(k, v, i);
    // (u h - k v i) + (k q + w h) == (u h + w h) - (k v i - k q)
    let (uh, wh, kvi, kqq) = (u.times(h), w.times(h), k.times(v.times(i)), k.times(q));
    field::plus_distributes(u, w, h);
    field::distributes_minus(k, v.times(i), q);
    field::minus_difference(uh.plus(wh), kvi, kqq);
    field::sum_minus(uh, wh, kvi);
    field::plus_assoc(uh.minus(kvi), wh, kqq);
    field::plus_comm(wh, kqq);
}

/// `((a / h) b) h == a b`
proof fn lemma_factor_through<R: Real>(a: R, b: R, h: R)
    requires
        num::is_field::<R>(),
        h != R::nil(),
    ensures
        a.over(h).times(b).times(h) == a.times(b),
{
    field::times_assoc(a.over(h), b, h);
    field::times_comm(b, h);
    field::times_assoc(a.over(h), h, b);
    field::over_times(a, h);
}

/// At rest a capacitor carries nothing. In a time step its current is the rate
/// of change of its charge: over a backward Euler step the current at the end
/// times the length is the change of the charge; over a trapezoidal step the
/// sum of the currents at both ends times the length is twice that change. Away
/// from the point the charge is continued with the capacitance there.
pub proof fn capacitors_integrate_their_current<R: Real>(
    p: usize,
    n: usize,
    v: R,
    ic: R,
    m: R,
    di: int,
    x: Seq<R>,
    lim: Seq<(R, R)>,
    mode: ModeModel<R>,
    gmin: R,
    y: Seq<R>,
)
    requires
        num::is_field::<R>(),
        mode matches ModeModel::Tran { h, .. } ==> h != R::nil(),
    ensures
        ({
            let f = kirchhoff::currents(
                DevModel::C { p, n, v, ic, m },
                di,
                x,
                lim,
                mode,
                gmin,
                y,
            );
            let (at, cap) = models::charge(x[p as int].minus(x[n as int]), v, m);
            let q = at.plus(cap.times(rise(x, y, p, n)));
            match mode {
                ModeModel::Dc { .. } => f.len() == 0,
                ModeModel::Tran { h, st, be, .. } => {
                    &&& f.len() == 1
                    &&& f[0].0 == p
                    &&& f[0].1 == n
                    &&& be ==> f[0].2.times(h) == q.minus(st[di].0)
                    &&& !be ==> f[0].2.plus(st[di].1).times(h) == R::decimal(2, 0).times(
                        q.minus(st[di].0),
                    )
                },
            }
        }),
{
    match mode {
        ModeModel::Dc { .. } => {},
        ModeModel::Tran { h, t, st, be } => {
            let (at, cap) = models::charge(x[p as int].minus(x[n as int]), v, m);
            let k = if be {
                R::unit()
            } else {
                R::decimal(2, 0)
            };
            let w = if be {
                R::nil()
            } else {
                st[di].1
            };
            let d = rise(x, y, p, n);
            let q0 = st[di].0;
            let a = k.over(h).times(at.minus(q0));
            let g = k.times(cap).over(h);
            lemma_one_slope(a.minus(w), p, n, g, x, y);
            let f = a.minus(w).plus(g.times(d));
            // (f + w) h == k (at - q0) + k cap d
            field::plus_assoc(a.minus(w), g.times(d), w);
            field::plus_comm(g.times(d), w);
            field::plus_assoc(a.minus(w), w, g.times(d));
            field::minus_plus(a, w);
            field::plus_distributes(a, g.times(d), h);
            lemma_factor_through(k, at.minus(q0), h);
            lemma_factor_through(k.times(cap), d, h);
            field::times_assoc(k, cap, d);
            field::distributes(k, at.minus(q0), cap.times(d));
            field::sum_minus(at, cap.times(d), q0);
            let q = at.plus(cap.times(d));
            assert(f.plus(w).times(h) == k.times(q.minus(q0)));
            field::plus_nil(f);
            field::times_unit(q.minus(q0));
        },
    }
}

/// What a reactive device keeps of a step: its charge or flux at the end, and
/// the rate that the rule of the step gives it there. Other devices keep what
/// they had.
pub proof fn states_keep_charge_and_rate<R: Real>(
    d: DevModel<R>,
    x: Seq<R>,
    h: R,
    last: (R, R),
    be: bool,
)
    requires
        num::is_field::<R>(),
        h != R::nil(),
    ensures
        ({
            let s = solver::next_state(d, x, h, last, be);
            let two = R::decimal(2, 0);
            match d {
                DevModel::C { p, n, v, m, .. } => {
                    &&& s.0 == models::charge(x[p as int].minus(x[n as int]), v, m).0
                    &&& be ==> s.1.times(h) == s.0.minus(last.0)
                    &&& !be ==> s.1.plus(last.1).times(h) == two.times(s.0.minus(last.0))
                },
                DevModel::L { v, br, .. } => {
                    &&& s.0 == v.times(x[br as int])
                    &&& be ==> s.1.times(h) == s.0.minus(last.0)
                    &&& !be ==> s.1.plus(last.1).times(h) == two.times(s.0.minus(last.0))
                },
                _ => s == last,
            }
        }),
{
    let s = solver::next_state(d, x, h, last, be);
    if d is C || d is L {
        let k = if be {
            R::unit()
        } else {
            R::decimal(2, 0)
        };
        let m = if be {
            R::nil()
        } else {
            R::unit()
        };
        let d = s.0.minus(last.0);
        let a = k.over(h).times(d);
        lemma_factor_through(k, d, h);
        field::times_nil(last.1);
        field::times_unit(last.1);
        field::minus_nil(a);
        field::minus_plus(a, last.1);
        field::times_unit(d);
    }
}

/// A diode carries, from its anode to its cathode, the current on the tangent
/// at the junction voltage it is evaluated at.
pub proof fn diodes_carry_their_tangent<R: Real>(
    p: usize,
    n: usize,
    is: R,
    nf: R,
    di: int,
    x: Seq<R>,
    lim: Seq<(R, R)>,
    mode: ModeModel<R>,
    gmin: R,
    y: Seq<R>,
)
    requires
        num::is_field::<R>(),
    ensures
        ({
            let f = kirchhoff::currents(
                DevModel::D { p, n, is, nf },
                di,
                x,
                lim,
                mode,
                gmin,
                y,
            );
            let vt = nf.times(R::decimal(2585, -5));
            let v = models::junction_voltage(x[p as int].minus(x[n as int]), lim[di].0, vt, is);
            let (i, g) = models::diode_point(v, is, vt, gmin);
            &&& f.len() == 1
            &&& f[0].0 == p
            &&& f[0].1 == n
            &&& f[0].2 == i.plus(g.times(y[p as int].minus(y[n as int]).minus(v)))
        }),
{
    let vt = nf.times(R::decimal(2585, -5));
    let a = x[p as int].minus(x[n as int]);
    let b = y[p as int].minus(y[n as int]);
    let v = models::junction_voltage(a, lim[di].0, vt, is);
    let (i, g) = models::diode_point(v, is, vt, gmin);
    lemma_one_slope(i.plus(g.times(a.minus(v))), p, n, g, x, y);
    lemma_on_tangent(i, g, a, b, v);
}

/// `(i + g (a - v)) + g (b - a) == i + g (b - v)`
proof fn lemma_on_tangent<R: Real>(i: R, g: R, a: R, b: R, v: R)
    requires
        num::is_field::<R>(),
    ensures
        i.plus(g.times(a.minus(v))).plus(g.times(b.minus(a))) == i.plus(g.times(b.minus(v))),
{
    field::plus_assoc(i, g.times(a.minus(v)), g.times(b.minus(a)));
    field::distributes(g, a.minus(v), b.minus(a));
    field::plus_comm(a.minus(v), b.minus(a));
    // (b - a) + (a - v) == b - v
    field::plus_minus(b.minus(a), a, v);
    field::minus_plus(b, a);
}

/// A field effect transistor of either polarity, with its drain at or beyond
/// its source. At the point it carries from drain to source the current of the
/// square law, in the sign of its polarity, and away from it the current
/// follows both control voltages with the slopes of the square law.
pub proof fn transistors_carry_the_square_law<R: Real>(
    d: usize,
    g: usize,
    s: usize,
    kp: R,
    vt0: R,
    lambda: R,
    pmos: bool,
    di: int,
    x: Seq<R>,
    lim: Seq<(R, R)>,
    mode: ModeModel<R>,
    gmin: R,
    y: Seq<R>,
)
    requires
        num::is_field::<R>(),
        ({
            let sign = if pmos {
                R::decimal(-1, 0)
            } else {
                R::unit()
            };
            R::nil().at_most(sign.times(x[d as int].minus(x[s as int])))
        }),
    ensures
        ({
            let sign = if pmos {
                R::decimal(-1, 0)
            } else {
                R::unit()
            };
            let f = kirchhoff::currents(
                DevModel::M { d, g, s, kp, vt0, lambda, pmos },
                di,
                x,
                lim,
                mode,
                gmin,
                y,
            );
            let (i, gm, gds) = models::square_law(
                sign.times(x[g as int].minus(x[s as int])),
                sign.times(x[d as int].minus(x[s as int])),
                kp,
                vt0,
                lambda,
            );
            &&& f.len() == 1
            &&& f[0].0 == d
            &&& f[0].1 == s
            &&& f[0].2 == sign.times(i).plus(gm.times(rise(x, y, g, s))).plus(
                gds.plus(gmin).times(rise(x, y, d, s)),
            )
        }),
{
    let sign = if pmos {
        R::decimal(-1, 0)
    } else {
        R::unit()
    };
    let (i, gm, gds) = models::square_law(
        sign.times(x[g as int].minus(x[s as int])),
        sign.times(x[d as int].minus(x[s as int])),
        kp,
        vt0,
        lambda,
    );
    lemma_two_slopes(sign.times(i), g, s, gm, d, s, gds.plus(gmin), x, y);
}

/// The three currents of a bipolar transistor with the base at the junction
/// voltages that it is evaluated at: from base to emitter and from base to
/// collector those of a diode divided by the gains, next to the minimal
/// conductance, and from collector to emitter the difference of the two diode
/// currents. They follow the junction voltages with the slopes of the diodes.
/// This is the kind that conducts with a positive base; the other kind is its
/// mirror image.
pub proof fn bipolar_transistors_are_two_diodes<R: Real>(
    c: usize,
    b: usize,
    e: usize,
    is: R,
    bf: R,
    br: R,
    di: int,
    x: Seq<R>,
    lim: Seq<(R, R)>,
    mode: ModeModel<R>,
    gmin: R,
    y: Seq<R>,
)
    requires
        num::is_field::<R>(),
        wave_laws::opposites_are_exact::<R>(),
        bf != R::nil(),
        br != R::nil(),
        R::decimal(2585, -5) != R::nil(),
    ensures
        ({
            let f = kirchhoff::currents(
                DevModel::Q { c, b, e, is, bf, br, pnp: false },
                di,
                x,
                lim,
                mode,
                gmin,
                y,
            );
            let vt = R::decimal(2585, -5);
            let u = models::junction_voltage(
                x[b as int].minus(x[e as int]),
                lim[di].0,
                vt,
                is,
            );
            let v = models::junction_voltage(
                x[b as int].minus(x[c as int]),
                lim[di].1,
                vt,
                is,
            );
            let (i, g) = models::diode_point(u, is, vt, R::nil());
            let (j, h) = models::diode_point(v, is, vt, R::nil());
            let be = y[b as int].minus(y[e as int]);
            let bc = y[b as int].minus(y[c as int]);
            &&& f.len() == 3
            &&& f[0].0 == b
            &&& f[0].1 == e
            &&& f[0].2.minus(gmin.times(be)).times(bf) == i.plus(g.times(be.minus(u)))
            &&& f[1].0 == b
            &&& f[1].1 == c
            &&& f[1].2.minus(gmin.times(bc)).times(br) == j.plus(h.times(bc.minus(v)))
            &&& f[2].0 == c
            &&& f[2].1 == e
            &&& f[2].2 == i.plus(g.times(be.minus(u))).minus(j.plus(h.times(bc.minus(v))))
        }),
{
    let vt = R::decimal(2585, -5);
    let xbe = x[b as int].minus(x[e as int]);
    let xbc = x[b as int].minus(x[c as int]);
    let be = y[b as int].minus(y[e as int]);
    let bc = y[b as int].minus(y[c as int]);
    field::times_unit(xbe);
    field::times_unit(xbc);
    let u = models::junction_voltage(xbe, lim[di].0, vt, is);
    let v = models::junction_voltage(xbc, lim[di].1, vt, is);
    let (i, g) = models::diode_point(u, is, vt, R::nil());
    let (j, h) = models::diode_point(v, is, vt, R::nil());
    let (ef, er) = (models::junction_gain(u, vt), models::junction_gain(v, vt));
    let (p, q) = (is.times(ef.minus(R::unit())), is.times(er.minus(R::unit())));
    field::times_nil(u);
    field::times_nil(v);
    field::plus_nil(p);
    field::plus_nil(q);
    let (gmf, gmr) = (is.times(ef).over(vt), is.times(er).over(vt));
    field::plus_nil(gmf);
    field::plus_nil(gmr);
    assert(i == p && j == q && g == gmf && h == gmr);
    let (gpi, gmu) = (gmf.over(bf).plus(gmin), gmr.over(br).plus(gmin));
    let ibe = p.over(bf).plus(gmin.times(u));
    let ibc = q.over(br).plus(gmin.times(v));
    // base to emitter
    field::times_unit(ibe.plus(gpi.times(xbe.minus(u))));
    lemma_one_slope(ibe.plus(gpi.times(xbe.minus(u))), b, e, gpi, x, y);
    lemma_on_tangent(ibe, gpi, xbe, be, u);
    lemma_divided(p, gmf, bf, gmin, u, be);
    // base to collector
    field::times_unit(ibc.plus(gmu.times(xbc.minus(v))));
    lemma_one_slope(ibc.plus(gmu.times(xbc.minus(v))), b, c, gmu, x, y);
    lemma_on_tangent(ibc, gmu, xbc, bc, v);
    lemma_divided(q, gmr, br, gmin, v, bc);
    // collector to emitter
    let ict = is.times(ef.minus(er));
    let k = ict.plus(gmf.times(xbe.minus(u))).minus(gmr.times(xbc.minus(v)));
    field::times_unit(k);
    lemma_two_slopes(k, b, e, gmf, b, c, gmr.opposite(), x, y);
    lemma_transport(is, ef, er, gmf, gmr, xbe, xbc, be, bc, u, v);
}

/// `((p / b + m u) + (g / b + m) (w - u) - m w) b == p + g (w - u)`
proof fn lemma_divided<R: Real>(p: R, g: R, b: R, m: R, u: R, w: R)
    requires
        num::is_field::<R>(),
        b != R::nil(),
    ensures
        p.over(b).plus(m.times(u)).plus(g.over(b).plus(m).times(w.minus(u))).minus(
            m.times(w),
        ).times(b) == p.plus(g.times(w.minus(u))),
{
    let d = w.minus(u);
    let (pb, gb) = (p.over(b), g.over(b));
    field::plus_distributes(gb, m, d);
    // (pb + m u) + (gb d + m d) == (pb + gb d) + (m u + m d)
    field::plus_exchange(pb, m.times(u), gb.times(d), m.times(d));
    field::distributes(m, u, d);
    field::plus_comm(u, d);
    field::minus_plus(w, u);
    let s = pb.plus(gb.times(d));
    field::plus_minus(s, m.times(w), m.times(w));
    field::minus_self(m.times(w));
    field::plus_nil(s);
    field::plus_distributes(pb, gb.times(d), b);
    field::over_times(p, b);
    lemma_factor_through(g, d, b);
}

proof fn lemma_transport<R: Real>(
    is: R,
    ef: R,
    er: R,
    gf: R,
    gr: R,
    xbe: R,
    xbc: R,
    be: R,
    bc: R,
    u: R,
    v: R,
)
    requires
        num::is_field::<R>(),
        wave_laws::opposites_are_exact::<R>(),
    ensures
        is.times(ef.minus(er)).plus(gf.times(xbe.minus(u))).minus(gr.times(xbc.minus(v))).plus(
            gf.times(be.minus(xbe)),
        ).plus(gr.opposite().times(bc.minus(xbc))) == is.times(ef.minus(R::unit())).plus(
            gf.times(be.minus(u)),
        ).minus(is.times(er.minus(R::unit())).plus(gr.times(bc.minus(v)))),
{
    let (p, q) = (is.times(ef.minus(R::unit())), is.times(er.minus(R::unit())));
    let ict = is.times(ef.minus(er));
    // ict == p - q
    field::distributes_minus(is, ef.minus(R::unit()), er.minus(R::unit()));
    field::minus_difference(ef.minus(R::unit()), er, R::unit());
    field::minus_swap(ef, R::unit(), er);
    field::minus_plus(ef.minus(er), R::unit());
    assert(ict == p.minus(q));
    let (a, c) = (gf.times(xbe.minus(u)), gr.times(xbc.minus(v)));
    let (da, dc) = (gf.times(be.minus(xbe)), gr.times(bc.minus(xbc)));
    field::opposite_times(gr, bc.minus(xbc));
    let t = ict.plus(a).minus(c).plus(da);
    field::plus_opposite(t, dc);
    // ((ict + a) - c) + da == ((ict + a) + da) - c
    field::sum_minus(ict.plus(a), da, c);
    field::minus_sum(ict.plus(a).plus(da), c, dc);
    lemma_on_tangent(ict, gf, xbe, be, u);
    lemma_on_tangent(R::nil(), gr, xbc, bc, v);
    field::plus_nil(c);
    field::plus_nil(gr.times(bc.minus(v)));
    let (l, r) = (gf.times(be.minus(u)), gr.times(bc.minus(v)));
    assert(t.minus(dc) == p.minus(q).plus(l).minus(r));
    // (p - q) + l - r == (p + l) - (q + r)
    field::sum_minus(p, l, q);
    field::minus_sum(p.plus(l), q, r);
}

/// What of a current from its first to its second end flows out of node `r`.
pub open spec fn outflow<R: Real>(f: (usize, usize, R), r: int) -> R {
    let out = if f.0 == r {
        f.2
    } else {
        R::nil()
    };
    let back = if f.1 == r {
        f.2
    } else {
        R::nil()
    };
    out.minus(back)
}

/// The sum of what the first `k` currents take out of node `r`.
pub open spec fn outflows<R: Real>(flows: Seq<(usize, usize, R)>, r: int, k: int) -> R
    decreases k,
{
    if k <= 0 {
        R::nil()
    } else {
        outflows(flows, r, k - 1).plus(outflow(flows[k - 1], r))
    }
}

proof fn lemma_drained<R: Real>(d: R, flows: Seq<(usize, usize, R)>, r: int, k: int)
    requires
        num::is_field::<R>(),
    ensures
        kirchhoff::drained(d, flows, r, k) == d.plus(outflows(flows, r, k)),
    decreases k,
{
    if k > 0 {
        lemma_drained(d, flows, r, k - 1);
        let (s, f) = (outflows(flows, r, k - 1), flows[k - 1]);
        let t = f.2;
        let w = d.plus(s);
        field::plus_assoc(d, s, outflow(f, r));
        field::minus_nil(t);
        field::minus_self(R::nil());
        field::plus_nil(w);
        field::plus_minus(w, t, t);
        field::minus_self(t);
        field::plus_opposite(w, t);
    } else {
        field::plus_nil(d);
    }
}

/// Every device enters the balance of every node with the sum of its currents
/// out of the node, and the balance of its own branch with what its voltage
/// misses. Nothing else enters.
pub proof fn every_device_enters_the_balance<R: Real>(
    c: CircuitModel<R>,
    x: Seq<R>,
    lim: Seq<(R, R)>,
    mode: ModeModel<R>,
    gmin: R,
    y: Seq<R>,
    r: int,
    i: int,
)
    requires
        num::is_field::<R>(),
        0 <= i < c.devs.len(),
    ensures
        ({
            let d = c.devs[i];
            let before = kirchhoff::balance(c, x, lim, mode, gmin, y, r, i);
            let after = kirchhoff::balance(c, x, lim, mode, gmin, y, r, i + 1);
            let flows = kirchhoff::currents(d, i, x, lim, mode, gmin, y);
            &&& kirchhoff::balance(c, x, lim, mode, gmin, y, r, 0) == R::nil()
            &&& (d is L || d is V || d is E) && r == d.branch() ==> after == before.plus(
                kirchhoff::voltage_gap(d, i, mode, y),
            )
            &&& !((d is L || d is V || d is E) && r == d.branch()) ==> after == before.plus(
                outflows(flows, r, flows.len() as int),
            )
        }),
{
    let d = c.devs[i];
    let before = kirchhoff::balance(c, x, lim, mode, gmin, y, r, i);
    let flows = kirchhoff::currents(d, i, x, lim, mode, gmin, y);
    lemma_drained(before, flows, r, flows.len() as int);
}

/// The junction voltages that a device is evaluated at.
pub open spec fn junctions<R: Real>(d: DevModel<R>, x: Seq<R>, last: (R, R)) -> (R, R) {
    match d {
        DevModel::D { p, n, is, nf } => (
            models::junction_voltage(
                x[p as int].minus(x[n as int]),
                last.0,
                nf.times(R::decimal(2585, -5)),
                is,
            ),
            last.1,
        ),
        DevModel::Q { c, b, e, is, pnp, .. } => {
            let sign = if pnp {
                R::decimal(-1, 0)
            } else {
                R::unit()
            };
            let vt = R::decimal(2585, -5);
            (
                models::junction_voltage(
                    sign.times(x[b as int].minus(x[e as int])),
                    last.0,
                    vt,
                    is,
                ),
                models::junction_voltage(
                    sign.times(x[b as int].minus(x[c as int])),
                    last.1,
                    vt,
                    is,
                ),
            )
        },
        _ => last,
    }
}

/// A junction of the device was moved noticeably from where the solution has
/// it.
pub open spec fn was_held_back<R: Real>(d: DevModel<R>, x: Seq<R>, last: (R, R)) -> bool {
    let v = junctions(d, x, last);
    match d {
        DevModel::D { p, n, .. } => models::held_back(v.0, x[p as int].minus(x[n as int])),
        DevModel::Q { c, b, e, pnp, .. } => {
            let sign = if pnp {
                R::decimal(-1, 0)
            } else {
                R::unit()
            };
            ||| models::held_back(v.0, sign.times(x[b as int].minus(x[e as int])))
            ||| models::held_back(v.1, sign.times(x[b as int].minus(x[c as int])))
        },
        _ => false,
    }
}

proof fn lemma_junctions<R: Real>(
    c: CircuitModel<R>,
    x: Seq<R>,
    lim: Seq<(R, R)>,
    mode: ModeModel<R>,
    gmin: R,
    i: int,
)
    requires
        lim.len() == c.devs.len(),
        0 <= i <= c.devs.len(),
    ensures
        ({
            let s = assembly::assembled(c, x, lim, mode, gmin, false, i);
            &&& s.lim.len() == lim.len()
            &&& forall|j: int|
                0 <= j < i ==> #[trigger] s.lim[j] == junctions(c.devs[j], x, lim[j])
            &&& forall|j: int| i <= j < lim.len() ==> #[trigger] s.lim[j] == lim[j]
            &&& s.limited <==> exists|j: int|
                0 <= j < i && was_held_back(#[trigger] c.devs[j], x, lim[j])
        }),
    decreases i,
{
    if i > 0 {
        lemma_junctions(c, x, lim, mode, gmin, i - 1);
        let was = assembly::assembled(c, x, lim, mode, gmin, false, i - 1);
        let now = assembly::assembled(c, x, lim, mode, gmin, false, i);
        assert(was.lim[i - 1] == lim[i - 1]);
        assert(now.limited <==> was.limited || was_held_back(c.devs[i - 1], x, lim[i - 1]));
        if was.limited {
            let j = choose|j: int|
                0 <= j < i - 1 && was_held_back(#[trigger] c.devs[j], x, lim[j]);
            assert(was_held_back(c.devs[j], x, lim[j]));
        }
    }
}

/// Setting up the equations records the junction voltages of every diode and
/// bipolar transistor, and reports a junction as held back exactly if one of
/// theirs was.
pub proof fn every_junction_is_watched<R: Real>(
    c: CircuitModel<R>,
    x: Seq<R>,
    lim: Seq<(R, R)>,
    mode: ModeModel<R>,
    gmin: R,
)
    requires
        lim.len() == c.devs.len(),
    ensures
        ({
            let s = assembly::circuit_equations(c, x, lim, mode, gmin);
            &&& s.lim.len() == lim.len()
            &&& forall|j: int|
                0 <= j < c.devs.len() ==> #[trigger] s.lim[j] == junctions(
                    c.devs[j],
                    x,
                    lim[j],
                )
            &&& s.limited <==> exists|j: int|
                0 <= j < c.devs.len() && was_held_back(#[trigger] c.devs[j], x, lim[j])
        }),
{
    lemma_junctions(c, x, lim, mode, gmin, c.devs.len() as int);
}

} // verus!
