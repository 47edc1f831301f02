//! The small signal equations are the slopes of the circuit at its operating
//! point.
use vstd::prelude::*;

use crate::assembly;
use crate::assembly::ModeModel;
use crate::circuit;
use crate::circuit::{CircuitModel, DevModel};
use crate::equations;
use crate::equations::Equations;
use crate::exact;
use crate::field;
use crate::models;
use crate::num;
use crate::num::{Cx, Num, Real};
use crate::small_signal;
use crate::solver;
use crate::wave_laws;

verus! {

/// The imaginary part of each coefficient of `z` is `k` times what `t` has
/// there beyond `s`.
spec fn beyond<R: Real>(
    s: Equations<R>,
    t: Equations<R>,
    z: Equations<Cx<R>>,
    k: R,
) -> bool {
    &&& s.rows.len() == s.b.len()
    &&& t.rows.len() == s.rows.len()
    &&& z.rows.len() == s.rows.len()
    &&& forall|r: int, j: int|
        0 <= r < s.rows.len() ==> (#[trigger] exact::coef(z.rows[r], j)).im == k.times(
            exact::coef(t.rows[r], j).minus(exact::coef(s.rows[r], j)),
        )
}

/// What one more coefficient makes of a row.
proof fn lemma_coef<T: Num>(s: Equations<T>, i: int, j: int, v: T, r: int, c: int)
    requires
        num::is_field::<T>(),
        0 <= i < s.rows.len(),
        0 <= r < s.rows.len(),
    ensures
        s.with(i, j, v).rows.len() == s.rows.len(),
        exact::coef(s.with(i, j, v).rows[r], c) == if r == i && c == j && i != 0 && j != 0 {
            exact::coef(s.rows[r], c).plus(v)
        } else {
            exact::coef(s.rows[r], c)
        },
{
    field::plus_nil(v);
}

/// The same for a complex coefficient, part by part.
proof fn lemma_complex_coef<R: Real>(
    s: Equations<Cx<R>>,
    i: int,
    j: int,
    v: Cx<R>,
    r: int,
    c: int,
)
    requires
        num::is_field::<R>(),
        0 <= i < s.rows.len(),
        0 <= r < s.rows.len(),
    ensures
        s.with(i, j, v).rows.len() == s.rows.len(),
        exact::coef(s.with(i, j, v).rows[r], c).im == if r == i && c == j && i != 0 && j != 0 {
            exact::coef(s.rows[r], c).im.plus(v.im)
        } else {
            exact::coef(s.rows[r], c).im
        },
{
    field::plus_nil(v.im);
}

/// The same coefficient on both sides.
proof fn lemma_same<R: Real>(
    s: Equations<R>,
    t: Equations<R>,
    z: Equations<Cx<R>>,
    k: R,
    i: int,
    j: int,
    v: R,
)
    requires
        num::is_field::<R>(),
        beyond(s, t, z, k),
        0 <= i < s.rows.len(),
    ensures
        beyond(s.with(i, j, v), t.with(i, j, v), z, k),
        s.with(i, j, v).order() == s.order(),
{
    let (sn, tn) = (s.with(i, j, v), t.with(i, j, v));
    assert forall|r: int, c: int| 0 <= r < sn.rows.len() implies (#[trigger] exact::coef(
        z.rows[r],
        c,
    )).im == k.times(exact::coef(tn.rows[r], c).minus(exact::coef(sn.rows[r], c))) by {
        lemma_coef(s, i, j, v, r, c);
        lemma_coef(t, i, j, v, r, c);
        let (a, b) = (exact::coef(s.rows[r], c), exact::coef(t.rows[r], c));
        // (b + v) - (a + v) == b - a
        field::plus_comm(a, v);
        field::minus_sum(b.plus(v), v, a);
        field::plus_minus(b, v, v);
        field::minus_self(v);
        field::plus_nil(b);
    }
}

/// A coefficient beyond, and its share in the imaginary part.
proof fn lemma_more<R: Real>(
    s: Equations<R>,
    t: Equations<R>,
    z: Equations<Cx<R>>,
    k: R,
    i: int,
    j: int,
    v: R,
    g: Cx<R>,
)
    requires
        num::is_field::<R>(),
        beyond(s, t, z, k),
        0 <= i < s.rows.len(),
        g.im == k.times(v),
    ensures
        beyond(s, t.with(i, j, v), z.with(i, j, g), k),
{
    let (tn, zn) = (t.with(i, j, v), z.with(i, j, g));
    assert forall|r: int, c: int| 0 <= r < s.rows.len() implies (#[trigger] exact::coef(
        zn.rows[r],
        c,
    )).im == k.times(exact::coef(tn.rows[r], c).minus(exact::coef(s.rows[r], c))) by {
        lemma_coef(t, i, j, v, r, c);
        lemma_complex_coef(z, i, j, g, r, c);
        let (a, b) = (exact::coef(s.rows[r], c), exact::coef(t.rows[r], c));
        assert(exact::coef(z.rows[r], c).im == k.times(b.minus(a)));
        // k (b - a) + k v == k ((b + v) - a)
        field::distributes(k, b.minus(a), v);
        field::sum_minus(b, v, a);
    }
}

proof fn lemma_same_controls<R: Real>(
    s: Equations<R>,
    t: Equations<R>,
    z: Equations<Cx<R>>,
    k: R,
    p: int,
    n: int,
    ctl: Seq<(usize, usize, R)>,
    m: int,
)
    requires
        num::is_field::<R>(),
        beyond(s, t, z, k),
        0 <= p < s.rows.len(),
        0 <= n < s.rows.len(),
    ensures
        beyond(s.with_controls(p, n, ctl, m), t.with_controls(p, n, ctl, m), z, k),
        s.with_controls(p, n, ctl, m).order() == s.order(),
    decreases m,
{
    if m > 0 {
        lemma_same_controls(s, t, z, k, p, n, ctl, m - 1);
        let (s0, t0) = (s.with_controls(p, n, ctl, m - 1), t.with_controls(p, n, ctl, m - 1));
        let c = ctl[m - 1];
        let (cp, cn, g) = (c.0 as int, c.1 as int, c.2);
        let o = R::nil().minus(g);
        lemma_same(s0, t0, z, k, p, cp, g);
        let (s1, t1) = (s0.with(p, cp, g), t0.with(p, cp, g));
        lemma_same(s1, t1, z, k, p, cn, o);
        let (s2, t2) = (s1.with(p, cn, o), t1.with(p, cn, o));
        lemma_same(s2, t2, z, k, n, cp, o);
        lemma_same(s2.with(n, cp, o), t2.with(n, cp, o), z, k, n, cn, g);
    }
}

proof fn lemma_same_gains<R: Real>(
    s: Equations<R>,
    t: Equations<R>,
    z: Equations<Cx<R>>,
    k: R,
    br: int,
    ctl: Seq<(usize, usize, R)>,
    m: int,
)
    requires
        num::is_field::<R>(),
        beyond(s, t, z, k),
        0 <= br < s.rows.len(),
    ensures
        beyond(s.with_gains(br, ctl, m), t.with_gains(br, ctl, m), z, k),
        s.with_gains(br, ctl, m).order() == s.order(),
    decreases m,
{
    if m > 0 {
        lemma_same_gains(s, t, z, k, br, ctl, m - 1);
        let (s0, t0) = (s.with_gains(br, ctl, m - 1), t.with_gains(br, ctl, m - 1));
        let c = ctl[m - 1];
        let o = R::nil().minus(c.2);
        lemma_same(s0, t0, z, k, br, c.0 as int, o);
        lemma_same(
            s0.with(br, c.0 as int, o),
            t0.with(br, c.0 as int, o),
            z,
            k,
            br,
            c.1 as int,
            c.2,
        );
    }
}

proof fn lemma_same_branch<R: Real>(
    s: Equations<R>,
    t: Equations<R>,
    z: Equations<Cx<R>>,
    k: R,
    p: int,
    n: int,
    br: int,
)
    requires
        num::is_field::<R>(),
        beyond(s, t, z, k),
        0 <= p < s.rows.len(),
        0 <= n < s.rows.len(),
        0 <= br < s.rows.len(),
    ensures
        beyond(s.with_branch(p, n, br), t.with_branch(p, n, br), z, k),
        s.with_branch(p, n, br).order() == s.order(),
{
    let u = R::unit();
    let o = R::nil().minus(u);
    lemma_same(s, t, z, k, p, br, u);
    let (s1, t1) = (s.with(p, br, u), t.with(p, br, u));
    lemma_same(s1, t1, z, k, n, br, o);
    let (s2, t2) = (s1.with(n, br, o), t1.with(n, br, o));
    lemma_same(s2, t2, z, k, br, p, u);
    lemma_same(s2.with(br, p, u), t2.with(br, p, u), z, k, br, n, o);
}

/// Right hand sides do not matter here.
proof fn lemma_any_rhs<R: Real>(
    s: Equations<R>,
    t: Equations<R>,
    z: Equations<Cx<R>>,
    k: R,
    s2: Equations<R>,
    t2: Equations<R>,
    z2: Equations<Cx<R>>,
)
    requires
        beyond(s, t, z, k),
        s2.rows == s.rows,
        s2.b.len() == s.b.len(),
        t2.rows == t.rows,
        z2.rows == z.rows,
    ensures
        beyond(s2, t2, z2, k),
{
    assert forall|r: int, j: int| 0 <= r < s2.rows.len() implies (#[trigger] exact::coef(
        z2.rows[r],
        j,
    )).im == k.times(exact::coef(t2.rows[r], j).minus(exact::coef(s2.rows[r], j))) by {
        assert(exact::coef(z.rows[r], j).im == k.times(
            exact::coef(t.rows[r], j).minus(exact::coef(s.rows[r], j)),
        ));
    }
}

/// The same current in both systems, up to the right hand sides.
proof fn lemma_same_current<R: Real>(
    s: Equations<R>,
    t: Equations<R>,
    z: Equations<Cx<R>>,
    k: R,
    p: int,
    n: int,
    i: R,
    j: R,
    ctl: Seq<(usize, usize, R)>,
    x: Seq<R>,
)
    requires
        num::is_field::<R>(),
        beyond(s, t, z, k),
        0 <= p < s.rows.len(),
        0 <= n < s.rows.len(),
    ensures
        beyond(s.with_current(p, n, i, ctl, x), t.with_current(p, n, j, ctl, x), z, k),
        s.with_current(p, n, i, ctl, x).order() == s.order(),
{
    let m = ctl.len() as int;
    lemma_same_controls(s, t, z, k, p, n, ctl, m);
    lemma_any_rhs(
        s.with_controls(p, n, ctl, m),
        t.with_controls(p, n, ctl, m),
        z,
        k,
        s.with_current(p, n, i, ctl, x),
        t.with_current(p, n, j, ctl, x),
        z,
    );
}

/// The same voltage in both systems, up to the right hand sides.
proof fn lemma_same_voltage<R: Real>(
    s: Equations<R>,
    t: Equations<R>,
    z: Equations<Cx<R>>,
    k: R,
    p: int,
    n: int,
    br: int,
    u: R,
    v: R,
    ctl: Seq<(usize, usize, R)>,
)
    requires
        num::is_field::<R>(),
        beyond(s, t, z, k),
        0 <= p < s.rows.len(),
        0 <= n < s.rows.len(),
        0 <= br < s.rows.len(),
    ensures
        beyond(s.with_voltage(p, n, br, u, ctl), t.with_voltage(p, n, br, v, ctl), z, k),
        s.with_voltage(p, n, br, u, ctl).order() == s.order(),
{
    let m = ctl.len() as int;
    lemma_same_branch(s, t, z, k, p, n, br);
    let (s1, t1) = (s.with_branch(p, n, br), t.with_branch(p, n, br));
    lemma_same_gains(s1, t1, z, k, br, ctl, m);
    lemma_any_rhs(
        s1.with_gains(br, ctl, m),
        t1.with_gains(br, ctl, m),
        z,
        k,
        s.with_voltage(p, n, br, u, ctl),
        t.with_voltage(p, n, br, v, ctl),
        z,
    );
}

/// A capacitor: its conductance in a time step, and its susceptance.
proof fn lemma_capacitor<R: Real>(
    s: Equations<R>,
    t: Equations<R>,
    z: Equations<Cx<R>>,
    w: R,
    h: R,
    p: int,
    n: int,
    cap: R,
    g: Cx<R>,
)
    requires
        num::is_field::<R>(),
        beyond(s, t, z, w.times(h)),
        0 <= p < s.rows.len(),
        0 <= n < s.rows.len(),
        h != R::nil(),
        g.im == w.times(cap),
    ensures
        beyond(
            s,
            t.with_quad(p, n, p, n, R::unit().times(cap).over(h)),
            z.with_quad(p, n, p, n, g),
            w.times(h),
        ),
{
    let k = w.times(h);
    let y = R::unit().times(cap).over(h);
    let (oy, og) = (R::nil().minus(y), Cx::<R>::nil().minus(g));
    // w h (c / h) == w c
    field::times_unit(cap);
    field::times_assoc(w, h, y);
    field::times_comm(h, y);
    field::over_times(cap, h);
    field::distributes_minus(k, R::nil(), y);
    field::times_nil(k);
    assert(g.im == k.times(y) && og.im == k.times(oy));
    lemma_more(s, t, z, k, p, p, y, g);
    let (t1, z1) = (t.with(p, p, y), z.with(p, p, g));
    lemma_more(s, t1, z1, k, p, n, oy, og);
    let (t2, z2) = (t1.with(p, n, oy), z1.with(p, n, og));
    lemma_more(s, t2, z2, k, n, p, oy, og);
    lemma_more(s, t2.with(n, p, oy), z2.with(n, p, og), k, n, n, y, g);
}

/// An inductor: its resistance in a time step, and its reactance.
proof fn lemma_inductor<R: Real>(
    s: Equations<R>,
    t: Equations<R>,
    z: Equations<Cx<R>>,
    w: R,
    h: R,
    p: int,
    n: int,
    br: usize,
    v: R,
    e: R,
    g: Cx<R>,
)
    requires
        num::is_field::<R>(),
        beyond(s, t, z, w.times(h)),
        0 <= p < s.rows.len(),
        0 <= n < s.rows.len(),
        br < s.rows.len(),
        h != R::nil(),
        g.im == R::nil().minus(w.times(v)),
    ensures
        beyond(
            s.with_voltage(p, n, br as int, R::nil(), Seq::<(usize, usize, R)>::empty()),
            t.with_voltage(
                p,
                n,
                br as int,
                e,
                seq![(br, 0usize, R::unit().times(v).over(h))],
            ),
            z.with(br as int, br as int, g),
            w.times(h),
        ),
        s.with_voltage(
            p,
            n,
            br as int,
            R::nil(),
            Seq::<(usize, usize, R)>::empty(),
        ).order() == s.order(),
{
    let k = w.times(h);
    let b = br as int;
    let y = R::unit().times(v).over(h);
    let oy = R::nil().minus(y);
    let none = Seq::<(usize, usize, R)>::empty();
    let ctl = seq![(br, 0usize, y)];
    field::times_unit(v);
    field::times_assoc(w, h, y);
    field::times_comm(h, y);
    field::over_times(v, h);
    field::distributes_minus(k, R::nil(), y);
    field::times_nil(k);
    assert(g.im == k.times(oy));
    lemma_same_branch(s, t, z, k, p, n, b);
    let (s1, t1) = (s.with_branch(p, n, b), t.with_branch(p, n, b));
    lemma_more(s1, t1, z, k, b, b, oy, g);
    reveal_with_fuel(Equations::with_gains, 2);
    assert(t1.with_gains(b, ctl, 1) == t1.with(b, b, oy));
    assert(s1.with_gains(b, none, 0) == s1);
    lemma_any_rhs(
        s1,
        t1.with(b, b, oy),
        z.with(b, b, g),
        k,
        s.with_voltage(p, n, b, R::nil(), none),
        t.with_voltage(p, n, b, e, ctl),
        z.with(b, b, g),
    );
}

/// The junction voltages do not depend on what the equations are for.
proof fn lemma_limits<R: Real>(
    c: CircuitModel<R>,
    x: Seq<R>,
    lim: Seq<(R, R)>,
    a: ModeModel<R>,
    b: ModeModel<R>,
    gmin: R,
    i: int,
)
    ensures
        assembly::assembled(c, x, lim, a, gmin, false, i).lim == assembly::assembled(
            c,
            x,
            lim,
            b,
            gmin,
            false,
            i,
        ).lim,
    decreases i,
{
    if i > 0 {
        lemma_limits(c, x, lim, a, b, gmin, i - 1);
    }
}

/// The first `i` devices, one after the other.
proof fn lemma_reactive<R: Real>(
    c: CircuitModel<R>,
    jac: Equations<R>,
    x: Seq<R>,
    lim: Seq<(R, R)>,
    fac: R,
    h: R,
    t: R,
    st: Seq<(R, R)>,
    gmin: R,
    w: R,
    i: int,
)
    requires
        num::is_field::<R>(),
        wave_laws::opposites_are_exact::<R>(),
        c.wf(),
        jac.rows.len() == c.unknowns(),
        h != R::nil(),
        0 <= i <= c.devs.len(),
    ensures
        ({
            let dc = ModeModel::Dc { fac };
            let tran = ModeModel::Tran { h, t, st, be: true };
            let s = assembly::assembled(c, x, lim, dc, gmin, false, i).eq;
            let u = assembly::assembled(c, x, lim, tran, gmin, false, i).eq;
            let z = small_signal::excitation(c.devs, jac, x, w, i);
            beyond(s, u, z, w.times(h)) && s.order() == c.unknowns()
        }),
    decreases i,
{
    let dc = ModeModel::Dc { fac };
    let tran = ModeModel::Tran { h, t, st, be: true };
    let k = w.times(h);
    circuit::lemma_branch_count(c.devs, 0, c.devs.len() as int);
    if i == 0 {
        let s = Equations::<R>::blank(c.unknowns() as nat);
        let z = small_signal::lifted(jac);
        assert forall|r: int, j: int| 0 <= r < s.rows.len() implies (#[trigger] exact::coef(
            z.rows[r],
            j,
        )).im == k.times(exact::coef(s.rows[r], j).minus(exact::coef(s.rows[r], j))) by {
            field::minus_self(R::nil());
            field::times_nil(k);
        }
    } else {
        lemma_reactive(c, jac, x, lim, fac, h, t, st, gmin, w, i - 1);
        lemma_limits(c, x, lim, dc, tran, gmin, i - 1);
        let sa = assembly::assembled(c, x, lim, dc, gmin, false, i - 1);
        let s = sa.eq;
        let u = assembly::assembled(c, x, lim, tran, gmin, false, i - 1).eq;
        let z = small_signal::excitation(c.devs, jac, x, w, i - 1);
        let d = c.devs[i - 1];
        let none = Seq::<(usize, usize, R)>::empty();
        assert(d.placed(c.nodes.len() as int));
        if d.has_branch() {
            circuit::lemma_branch_placed(c, i - 1);
        }
        match d {
            DevModel::R { p, n, v } => {
                let e = assembly::across(x, p, n).over(v);
                let ctl = seq![(p, n, R::unit().over(v))];
                lemma_same_current(s, u, z, k, p as int, n as int, e, e, ctl, x);
            },
            DevModel::C { p, n, v, m, .. } => {
                let (q, cap) = models::charge(assembly::across(x, p, n), v, m);
                let g = Cx { re: R::nil(), im: w.times(cap) };
                let y = R::unit().times(cap).over(h);
                lemma_capacitor(s, u, z, w, h, p as int, n as int, cap, g);
                let ctl = seq![(p, n, y)];
                reveal_with_fuel(Equations::with_controls, 2);
                assert(u.with_controls(p as int, n as int, ctl, 1) == u.with_quad(
                    p as int,
                    n as int,
                    p as int,
                    n as int,
                    y,
                ));
                let un = assembly::assembled(c, x, lim, tran, gmin, false, i).eq;
                lemma_any_rhs(
                    s,
                    u.with_quad(p as int, n as int, p as int, n as int, y),
                    z.with_quad(p as int, n as int, p as int, n as int, g),
                    k,
                    s,
                    un,
                    z.with_quad(p as int, n as int, p as int, n as int, g),
                );
            },
            DevModel::L { p, n, v, br, .. } => {
                let g = Cx { re: R::nil(), im: w.opposite().times(v) };
                field::opposite_times(w, v);
                let vh = R::unit().over(h).times(st[i - 1].0).plus(R::nil());
                lemma_inductor(s, u, z, w, h, p as int, n as int, br, v, vh.opposite(), g);
            },
            DevModel::V { p, n, dc: value, wave, br, ac } => {
                let (a, b) = (
                    dc.scale().times(models::source_value(value, wave, dc.now())),
                    tran.scale().times(models::source_value(value, wave, tran.now())),
                );
                lemma_same_voltage(s, u, z, k, p as int, n as int, br as int, a, b, none);
                let (sn, un) = (
                    s.with_voltage(p as int, n as int, br as int, a, none),
                    u.with_voltage(p as int, n as int, br as int, b, none),
                );
                lemma_any_rhs(sn, un, z, k, sn, un, small_signal::excited(z, d, x, w));
            },
            DevModel::I { p, n, dc: value, wave, ac } => {
                let (a, b) = (
                    dc.scale().times(models::source_value(value, wave, dc.now())),
                    tran.scale().times(models::source_value(value, wave, tran.now())),
                );
                lemma_same_current(s, u, z, k, p as int, n as int, a, b, none, x);
                let (sn, un) = (
                    s.with_current(p as int, n as int, a, none, x),
                    u.with_current(p as int, n as int, b, none, x),
                );
                lemma_any_rhs(sn, un, z, k, sn, un, small_signal::excited(z, d, x, w));
            },
            DevModel::D { p, n, is, nf } => {
                let vt = nf.times(models::thermal::<R>());
                let vr = assembly::across(x, p, n);
                let vd = models::junction_voltage(vr, sa.lim[i - 1].0, vt, is);
                let (id, gd) = models::diode_point(vd, is, vt, gmin);
                let e = id.plus(gd.times(vr.minus(vd)));
                lemma_same_current(
                    s,
                    u,
                    z,
                    k,
                    p as int,
                    n as int,
                    e,
                    e,
                    seq![(p, n, gd)],
                    x,
                );
            },
            DevModel::M { d: nd, g, s: src, kp, vt0, lambda, pmos } => {
                let o = models::fet_point(nd, g, src, kp, vt0, lambda, pmos, x);
                let ctl = seq![(g, o.es, o.gm), (o.ed, o.es, o.gds.plus(gmin))];
                lemma_same_current(s, u, z, k, o.ed as int, o.es as int, o.i, o.i, ctl, x);
            },
            DevModel::E { p, n, cp, cn, k: gain, br } => {
                lemma_same_voltage(
                    s,
                    u,
                    z,
                    k,
                    p as int,
                    n as int,
                    br as int,
                    R::nil(),
                    R::nil(),
                    seq![(cp, cn, gain)],
                );
            },
            DevModel::G { p, n, cp, cn, k: gain } => {
                let e = gain.times(assembly::across(x, cp, cn));
                let ctl = seq![(cp, cn, gain)];
                lemma_same_current(s, u, z, k, p as int, n as int, e, e, ctl, x);
            },
            DevModel::Q { c: nc, b, e, is, bf, br, pnp } => {
                lemma_bipolar(c, sa, u, z, k, i - 1, x, gmin);
                let ub = assembly::assembled(c, x, lim, tran, gmin, false, i - 1);
                assert(assembly::stamped(ub, d, i - 1, x, tran, gmin).eq == assembly::stamped(
                    assembly::Stamped { eq: u, ..sa },
                    d,
                    i - 1,
                    x,
                    tran,
                    gmin,
                ).eq);
            },
        }
    }
}

/// A bipolar transistor adds the same coefficients to both systems.
proof fn lemma_bipolar<R: Real>(
    c: CircuitModel<R>,
    sa: assembly::Stamped<R>,
    u: Equations<R>,
    z: Equations<Cx<R>>,
    k: R,
    di: int,
    x: Seq<R>,
    gmin: R,
)
    requires
        num::is_field::<R>(),
        c.wf(),
        0 <= di < c.devs.len(),
        c.devs[di] is Q,
        beyond(sa.eq, u, z, k),
        sa.eq.order() == c.unknowns(),
    ensures
        forall|a: ModeModel<R>, b: ModeModel<R>|
            {
                let s = #[trigger] assembly::stamped(sa, c.devs[di], di, x, a, gmin);
                let t = #[trigger] assembly::stamped(
                    assembly::Stamped { eq: u, ..sa },
                    c.devs[di],
                    di,
                    x,
                    b,
                    gmin,
                );
                beyond(s.eq, t.eq, z, k) && s.eq.order() == sa.eq.order()
            },
{
    circuit::lemma_branch_count(c.devs, 0, c.devs.len() as int);
    assert(c.devs[di].placed(c.nodes.len() as int));
    if let DevModel::Q { c: nc, b, e, is, bf, br, pnp } = c.devs[di] {
        let s = sa.eq;
        let (ci, bi, ei) = (nc as int, b as int, e as int);
        let vt = models::thermal::<R>();
        let sg = models::polarity::<R>(pnp);
        let vbr = sg.times(assembly::across(x, b, e));
        let vcr = sg.times(assembly::across(x, b, nc));
        let vbe = models::junction_voltage(vbr, sa.lim[di].0, vt, is);
        let vbc = models::junction_voltage(vcr, sa.lim[di].1, vt, is);
        let ef = models::junction_gain(vbe, vt);
        let er = models::junction_gain(vbc, vt);
        let gmf = is.times(ef).over(vt);
        let gmr = is.times(er).over(vt);
        let gpi = gmf.over(bf).plus(gmin);
        let gmu = gmr.over(br).plus(gmin);
        let dbe = vbr.minus(vbe);
        let dbc = vcr.minus(vbc);
        let ibe = is.times(ef.minus(R::unit())).over(bf).plus(gmin.times(vbe));
        let ibc = is.times(er.minus(R::unit())).over(br).plus(gmin.times(vbc));
        let ict = is.times(ef.minus(er));
        let j1 = sg.times(ibe.plus(gpi.times(dbe)));
        let j2 = sg.times(ibc.plus(gmu.times(dbc)));
        let j3 = sg.times(ict.plus(gmf.times(dbe)).minus(gmr.times(dbc)));
        let (c1, c2) = (seq![(b, e, gpi)], seq![(b, nc, gmu)]);
        let c3 = seq![(b, e, gmf), (b, nc, gmr.opposite())];
        lemma_same_current(s, u, z, k, bi, ei, j1, j1, c1, x);
        let (s1, u1) = (s.with_current(bi, ei, j1, c1, x), u.with_current(bi, ei, j1, c1, x));
        lemma_same_current(s1, u1, z, k, bi, ci, j2, j2, c2, x);
        let (s2, u2) = (
            s1.with_current(bi, ci, j2, c2, x),
            u1.with_current(bi, ci, j2, c2, x),
        );
        lemma_same_current(s2, u2, z, k, ci, ei, j3, j3, c3, x);
    }
}

/// The imaginary part of the small signal equations at the frequency `f` comes
/// from what the equations of a time step have beyond those of the operating
/// point. In exact arithmetic a step of length `h` by the backward Euler rule
/// adds the slope of a charge or flux over `h`; the angular frequency `2 pi f`
/// takes the place of `1 / h`. So it is taken at the operating point, and
/// nothing but charges and fluxes contributes to it.
pub proof fn imaginary_part_is_the_slope_of_the_charges<R: Real>(
    c: CircuitModel<R>,
    x: Seq<R>,
    lim: Seq<(R, R)>,
    fac: R,
    h: R,
    t: R,
    st: Seq<(R, R)>,
    gmin: R,
    f: R,
    r: int,
    j: int,
)
    requires
        num::is_field::<R>(),
        wave_laws::opposites_are_exact::<R>(),
        c.wf(),
        h != R::nil(),
        0 <= r < c.unknowns(),
    ensures
        ({
            let rest = assembly::circuit_equations(c, x, lim, ModeModel::Dc { fac }, gmin).eq;
            let step = assembly::circuit_equations(
                c,
                x,
                lim,
                ModeModel::Tran { h, t, st, be: true },
                gmin,
            ).eq;
            let w = R::decimal(2, 0).times(R::decimal(3141592653589793, -15)).times(f);
            exact::coef(small_signal::response_equations(c, rest, x, f).rows[r], j).im
                == w.times(h).times(
                exact::coef(step.rows[r], j).minus(exact::coef(rest.rows[r], j)),
            )
        }),
{
    let n = c.devs.len() as int;
    let w = R::decimal(2, 0).times(num::circle::<R>()).times(f);
    let blank = Equations::<R>::blank(c.unknowns() as nat);
    circuit::lemma_branch_count(c.devs, 0, n);
    lemma_reactive(c, blank, x, lim, fac, h, t, st, gmin, w, n);
    let rest = assembly::circuit_equations(c, x, lim, ModeModel::Dc { fac }, gmin).eq;
    lemma_reactive(c, rest, x, lim, fac, h, t, st, gmin, w, n);
}

/// The equations that a small signal analysis solves are set up at the
/// operating point: their real part is the system of the operating point with
/// the full sources and the minimal conductance.
pub proof fn responses_are_taken_at_the_operating_point<R: Real>(
    c: CircuitModel<R>,
    dec: bool,
    n: usize,
    f1: R,
    f2: R,
    limit: nat,
)
    requires
        small_signal::ac_opening(c, dec, n, f1, f2, limit).1 is Some,
    ensures
        ({
            let s = small_signal::ac_opening(c, dec, n, f1, f2, limit).1->0;
            &&& solver::resting_point(c) is Ok
            &&& s.x == solver::resting_point(c)->Ok_0.0
            &&& s.jacobian == assembly::circuit_equations(
                c,
                solver::resting_point(c)->Ok_0.0,
                solver::resting_point(c)->Ok_0.1,
                ModeModel::Dc { fac: R::unit() },
                R::decimal(1, -12),
            ).eq
            &&& s.k == 0
        }),
{
}

/// The circuit with every source at a constant value: its small signal value,
/// or zero.
pub open spec fn driven<R: Real>(c: CircuitModel<R>, on: bool) -> CircuitModel<R> {
    CircuitModel { devs: Seq::new(c.devs.len(), |i: int| driven_device(c.devs[i], on)), ..c }
}

pub open spec fn driven_device<R: Real>(d: DevModel<R>, on: bool) -> DevModel<R> {
    match d {
        DevModel::V { p, n, ac, br, .. } => DevModel::V {
            p,
            n,
            dc: if on {
                ac
            } else {
                R::nil()
            },
            ac,
            wave: None,
            br,
        },
        DevModel::I { p, n, ac, .. } => DevModel::I {
            p,
            n,
            dc: if on {
                ac
            } else {
                R::nil()
            },
            ac,
            wave: None,
        },
        _ => d,
    }
}

/// The right hand side of `z` is what `t` has there beyond `s`.
spec fn excited_by<R: Real>(s: Equations<R>, t: Equations<R>, z: Equations<Cx<R>>) -> bool {
    &&& t.b.len() == s.b.len()
    &&& z.b.len() == s.b.len()
    &&& forall|r: int|
        0 <= r < s.b.len() ==> (#[trigger] z.b[r]).re == t.b[r].minus(s.b[r]) && z.b[r].im
            == R::nil()
}

proof fn lemma_b_of_controls<R: Real>(
    s: Equations<R>,
    p: int,
    n: int,
    ctl: Seq<(usize, usize, R)>,
    k: int,
)
    ensures
        s.with_controls(p, n, ctl, k).b == s.b,
    decreases k,
{
    if k > 0 {
        lemma_b_of_controls(s, p, n, ctl, k - 1);
    }
}

proof fn lemma_b_of_gains<R: Real>(s: Equations<R>, br: int, ctl: Seq<(usize, usize, R)>, k: int)
    ensures
        s.with_gains(br, ctl, k).b == s.b,
    decreases k,
{
    if k > 0 {
        lemma_b_of_gains(s, br, ctl, k - 1);
    }
}

/// `(b + v) - (a + u) == (b - a) + (v - u)`
proof fn lemma_sum_difference<R: Real>(a: R, b: R, u: R, v: R)
    requires
        num::is_field::<R>(),
    ensures
        b.plus(v).minus(a.plus(u)) == b.minus(a).plus(v.minus(u)),
{
    field::minus_exchange(b, a, v, u);
}

/// Right hand sides `u` and `v` in the two systems, and their difference in
/// the third.
proof fn lemma_rhs<R: Real>(
    s: Equations<R>,
    t: Equations<R>,
    z: Equations<Cx<R>>,
    i: int,
    u: R,
    v: R,
    g: Cx<R>,
)
    requires
        num::is_field::<R>(),
        excited_by(s, t, z),
        0 <= i < s.b.len(),
        g.re == v.minus(u),
        g.im == R::nil(),
    ensures
        excited_by(s.with_rhs(i, u), t.with_rhs(i, v), z.with_rhs(i, g)),
{
    let (sn, tn, zn) = (s.with_rhs(i, u), t.with_rhs(i, v), z.with_rhs(i, g));
    assert forall|r: int| 0 <= r < sn.b.len() implies (#[trigger] zn.b[r]).re == tn.b[r].minus(
        sn.b[r],
    ) && zn.b[r].im == R::nil() by {
        assert(z.b[r].re == t.b[r].minus(s.b[r]) && z.b[r].im == R::nil());
        lemma_sum_difference(s.b[r], t.b[r], u, v);
        field::plus_nil(R::nil());
    }
}

/// The same right hand side in both systems adds nothing to the third.
proof fn lemma_same_rhs<R: Real>(
    s: Equations<R>,
    t: Equations<R>,
    z: Equations<Cx<R>>,
    i: int,
    u: R,
)
    requires
        num::is_field::<R>(),
        excited_by(s, t, z),
        0 <= i < s.b.len(),
    ensures
        excited_by(s.with_rhs(i, u), t.with_rhs(i, u), z),
{
    let (sn, tn) = (s.with_rhs(i, u), t.with_rhs(i, u));
    assert forall|r: int| 0 <= r < sn.b.len() implies (#[trigger] z.b[r]).re == tn.b[r].minus(
        sn.b[r],
    ) && z.b[r].im == R::nil() by {
        assert(z.b[r].re == t.b[r].minus(s.b[r]) && z.b[r].im == R::nil());
        lemma_sum_difference(s.b[r], t.b[r], u, u);
        field::minus_self(u);
        field::plus_nil(t.b[r].minus(s.b[r]));
    }
}

/// The same current in both systems.
proof fn lemma_same_injection<R: Real>(
    s: Equations<R>,
    t: Equations<R>,
    z: Equations<Cx<R>>,
    p: int,
    n: int,
    i: R,
    ctl: Seq<(usize, usize, R)>,
    x: Seq<R>,
)
    requires
        num::is_field::<R>(),
        excited_by(s, t, z),
        0 <= p < s.b.len(),
        0 <= n < s.b.len(),
    ensures
        excited_by(s.with_current(p, n, i, ctl, x), t.with_current(p, n, i, ctl, x), z),
        s.with_current(p, n, i, ctl, x).b.len() == s.b.len(),
{
    let m = ctl.len() as int;
    let e = equations::offset_current(i, ctl, x, m);
    let o = R::nil().minus(e);
    lemma_b_of_controls(s, p, n, ctl, m);
    lemma_b_of_controls(t, p, n, ctl, m);
    let (s0, t0) = (s.with_controls(p, n, ctl, m), t.with_controls(p, n, ctl, m));
    assert(excited_by(s0, t0, z));
    lemma_same_rhs(s0, t0, z, p, o);
    lemma_same_rhs(s0.with_rhs(p, o), t0.with_rhs(p, o), z, n, e);
}

/// The same voltage in both systems.
proof fn lemma_same_demand<R: Real>(
    s: Equations<R>,
    t: Equations<R>,
    z: Equations<Cx<R>>,
    p: int,
    n: int,
    br: int,
    v: R,
    ctl: Seq<(usize, usize, R)>,
)
    requires
        num::is_field::<R>(),
        excited_by(s, t, z),
        0 <= br < s.b.len(),
    ensures
        excited_by(s.with_voltage(p, n, br, v, ctl), t.with_voltage(p, n, br, v, ctl), z),
        s.with_voltage(p, n, br, v, ctl).b.len() == s.b.len(),
{
    let m = ctl.len() as int;
    let (s0, t0) = (s.with_branch(p, n, br), t.with_branch(p, n, br));
    lemma_b_of_gains(s0, br, ctl, m);
    lemma_b_of_gains(t0, br, ctl, m);
    assert(excited_by(s0.with_gains(br, ctl, m), t0.with_gains(br, ctl, m), z));
    lemma_same_rhs(s0.with_gains(br, ctl, m), t0.with_gains(br, ctl, m), z, br, v);
}

/// The excitation of the first `i` devices.
proof fn lemma_excitation<R: Real>(
    c: CircuitModel<R>,
    jac: Equations<R>,
    x: Seq<R>,
    lim: Seq<(R, R)>,
    gmin: R,
    w: R,
    i: int,
)
    requires
        num::is_field::<R>(),
        wave_laws::opposites_are_exact::<R>(),
        c.wf(),
        jac.b.len() == c.unknowns(),
        0 <= i <= c.devs.len(),
    ensures
        ({
            let dc = ModeModel::Dc { fac: R::unit() };
            let s = assembly::assembled(driven(c, false), x, lim, dc, gmin, false, i);
            let t = assembly::assembled(driven(c, true), x, lim, dc, gmin, false, i);
            let z = small_signal::excitation(c.devs, jac, x, w, i);
            &&& excited_by(s.eq, t.eq, z)
            &&& s.eq.b.len() == c.unknowns()
            &&& s.lim == t.lim
        }),
    decreases i,
{
    let dc = ModeModel::Dc { fac: R::unit() };
    circuit::lemma_branch_count(c.devs, 0, c.devs.len() as int);
    if i == 0 {
        field::minus_self(R::nil());
    } else {
        lemma_excitation(c, jac, x, lim, gmin, w, i - 1);
        let sa = assembly::assembled(driven(c, false), x, lim, dc, gmin, false, i - 1);
        let s = sa.eq;
        let t = assembly::assembled(driven(c, true), x, lim, dc, gmin, false, i - 1).eq;
        let z = small_signal::excitation(c.devs, jac, x, w, i - 1);
        let d = c.devs[i - 1];
        let none = Seq::<(usize, usize, R)>::empty();
        assert(d.placed(c.nodes.len() as int));
        if d.has_branch() {
            circuit::lemma_branch_placed(c, i - 1);
        }
        match d {
            DevModel::R { p, n, v } => {
                let e = assembly::across(x, p, n).over(v);
                let ctl = seq![(p, n, R::unit().over(v))];
                lemma_same_injection(s, t, z, p as int, n as int, e, ctl, x);
            },
            DevModel::C { .. } => {},
            DevModel::L { p, n, br, .. } => {
                lemma_same_demand(s, t, z, p as int, n as int, br as int, R::nil(), none);
            },
            DevModel::V { p, n, ac, br, .. } => {
                let b = br as int;
                let (u, v) = (R::unit().times(R::nil()), R::unit().times(ac));
                field::times_unit(R::nil());
                field::times_unit(ac);
                field::minus_nil(ac);
                let (s0, t0) = (
                    s.with_branch(p as int, n as int, b),
                    t.with_branch(p as int, n as int, b),
                );
                lemma_b_of_gains(s0, b, none, 0);
                lemma_b_of_gains(t0, b, none, 0);
                let (s1, t1) = (s0.with_gains(b, none, 0), t0.with_gains(b, none, 0));
                assert(excited_by(s1, t1, z));
                lemma_rhs(s1, t1, z, b, u, v, Cx { re: ac, im: R::nil() });
            },
            DevModel::I { p, n, ac, .. } => {
                let (pi, ni) = (p as int, n as int);
                let (u, v) = (R::unit().times(R::nil()), R::unit().times(ac));
                field::times_unit(R::nil());
                field::times_unit(ac);
                field::minus_nil(ac);
                field::minus_self(R::nil());
                field::minus_nil(R::nil().minus(ac));
                lemma_b_of_controls(s, pi, ni, none, 0);
                lemma_b_of_controls(t, pi, ni, none, 0);
                let (s0, t0) = (
                    s.with_controls(pi, ni, none, 0),
                    t.with_controls(pi, ni, none, 0),
                );
                assert(excited_by(s0, t0, z));
                let (ou, ov) = (R::nil().minus(u), R::nil().minus(v));
                let (g, o) = (
                    Cx { re: ac, im: R::nil() },
                    Cx { re: ac.opposite(), im: R::nil() },
                );
                lemma_rhs(s0, t0, z, pi, ou, ov, o);
                lemma_rhs(
                    s0.with_rhs(pi, ou),
                    t0.with_rhs(pi, ov),
                    z.with_rhs(pi, o),
                    ni,
                    u,
                    v,
                    g,
                );
            },
            DevModel::D { p, n, is, nf } => {
                let vt = nf.times(models::thermal::<R>());
                let vr = assembly::across(x, p, n);
                let vd = models::junction_voltage(vr, sa.lim[i - 1].0, vt, is);
                let (id, gd) = models::diode_point(vd, is, vt, gmin);
                let e = id.plus(gd.times(vr.minus(vd)));
                lemma_same_injection(s, t, z, p as int, n as int, e, seq![(p, n, gd)], x);
            },
            DevModel::M { d: nd, g, s: src, kp, vt0, lambda, pmos } => {
                let o = models::fet_point(nd, g, src, kp, vt0, lambda, pmos, x);
                let ctl = seq![(g, o.es, o.gm), (o.ed, o.es, o.gds.plus(gmin))];
                lemma_same_injection(s, t, z, o.ed as int, o.es as int, o.i, ctl, x);
            },
            DevModel::E { p, n, cp, cn, k, br } => {
                lemma_same_demand(
                    s,
                    t,
                    z,
                    p as int,
                    n as int,
                    br as int,
                    R::nil(),
                    seq![(cp, cn, k)],
                );
            },
            DevModel::G { p, n, cp, cn, k } => {
                let e = k.times(assembly::across(x, cp, cn));
                lemma_same_injection(s, t, z, p as int, n as int, e, seq![(cp, cn, k)], x);
            },
            DevModel::Q { c: nc, b, e, is, bf, br, pnp } => {
                let (ci, bi, ei) = (nc as int, b as int, e as int);
                let vt = models::thermal::<R>();
                let sg = models::polarity::<R>(pnp);
                let vbr = sg.times(assembly::across(x, b, e));
                let vcr = sg.times(assembly::across(x, b, nc));
                let vbe = models::junction_voltage(vbr, sa.lim[i - 1].0, vt, is);
                let vbc = models::junction_voltage(vcr, sa.lim[i - 1].1, vt, is);
                let ef = models::junction_gain(vbe, vt);
                let er = models::junction_gain(vbc, vt);
                let gmf = is.times(ef).over(vt);
                let gmr = is.times(er).over(vt);
                let gpi = gmf.over(bf).plus(gmin);
                let gmu = gmr.over(br).plus(gmin);
                let dbe = vbr.minus(vbe);
                let dbc = vcr.minus(vbc);
                let ibe = is.times(ef.minus(R::unit())).over(bf).plus(gmin.times(vbe));
                let ibc = is.times(er.minus(R::unit())).over(br).plus(gmin.times(vbc));
                let ict = is.times(ef.minus(er));
                let j1 = sg.times(ibe.plus(gpi.times(dbe)));
                let j2 = sg.times(ibc.plus(gmu.times(dbc)));
                let j3 = sg.times(ict.plus(gmf.times(dbe)).minus(gmr.times(dbc)));
                let (c1, c2) = (seq![(b, e, gpi)], seq![(b, nc, gmu)]);
                let c3 = seq![(b, e, gmf), (b, nc, gmr.opposite())];
                lemma_same_injection(s, t, z, bi, ei, j1, c1, x);
                let (s1, t1) = (
                    s.with_current(bi, ei, j1, c1, x),
                    t.with_current(bi, ei, j1, c1, x),
                );
                lemma_same_injection(s1, t1, z, bi, ci, j2, c2, x);
                let (s2, t2) = (
                    s1.with_current(bi, ci, j2, c2, x),
                    t1.with_current(bi, ci, j2, c2, x),
                );
                lemma_same_injection(s2, t2, z, ci, ei, j3, c3, x);
            },
        }
    }
}

/// The excitation of a small signal analysis is what the right hand sides of
/// the operating point gain when every source has its small signal value in
/// place of zero. It is real and does not depend on the frequency.
pub proof fn excitations_are_the_small_signal_values<R: Real>(
    c: CircuitModel<R>,
    jac: Equations<R>,
    x: Seq<R>,
    lim: Seq<(R, R)>,
    gmin: R,
    f: R,
    r: int,
)
    requires
        num::is_field::<R>(),
        wave_laws::opposites_are_exact::<R>(),
        c.wf(),
        jac.b.len() == c.unknowns(),
        0 <= r < c.unknowns(),
    ensures
        ({
            let dc = ModeModel::Dc { fac: R::unit() };
            let off = assembly::circuit_equations(driven(c, false), x, lim, dc, gmin).eq;
            let on = assembly::circuit_equations(driven(c, true), x, lim, dc, gmin).eq;
            let b = small_signal::response_equations(c, jac, x, f).b[r];
            b.re == on.b[r].minus(off.b[r]) && b.im == R::nil()
        }),
{
    lemma_excitation(
        c,
        jac,
        x,
        lim,
        gmin,
        small_signal::angular(f),
        c.devs.len() as int,
    );
}

/// What is printed of a response: the square of the magnitude is the sum of the
/// squares of the two parts, and the phase is the angle of the imaginary over
/// the real part, in degrees.
pub proof fn magnitude_and_phase<R: Real>(f: R, x: Seq<Cx<R>>, idx: Seq<usize>, k: int)
    requires
        num::is_field::<R>(),
        num::circle::<R>() != R::nil(),
        forall|a: R, b: R| #[trigger]
            a.hypotenuse(b).times(a.hypotenuse(b)) == a.times(a).plus(b.times(b)),
        0 <= k < idx.len(),
    ensures
        ({
            let row = small_signal::response(f, x, idx, idx.len() as int);
            let v = x[idx[k] as int];
            let (mag, ph) = (row[1 + 2 * k], row[2 + 2 * k]);
            &&& row.len() == 1 + 2 * idx.len()
            &&& row[0] == f
            &&& mag.times(mag) == v.re.times(v.re).plus(v.im.times(v.im))
            &&& ph.times(R::decimal(3141592653589793, -15)) == v.im.angle(v.re).times(
                R::decimal(180, 0),
            )
        }),
{
    lemma_response(f, x, idx, idx.len() as int, k);
    let v = x[idx[k] as int];
    assert(v.re.hypotenuse(v.im).times(v.re.hypotenuse(v.im)) == v.re.times(v.re).plus(
        v.im.times(v.im),
    ));
    field::over_times(v.im.angle(v.re).times(R::decimal(180, 0)), num::circle::<R>());
}

proof fn lemma_response<R: Real>(f: R, x: Seq<Cx<R>>, idx: Seq<usize>, i: int, k: int)
    requires
        0 <= i <= idx.len(),
    ensures
        ({
            let row = small_signal::response(f, x, idx, i);
            &&& row.len() == 1 + 2 * i
            &&& row[0] == f
            &&& 0 <= k < i ==> row[1 + 2 * k] == x[idx[k] as int].length() && row[2 + 2 * k]
                == small_signal::phase(x[idx[k] as int])
        }),
    decreases i,
{
    if i > 0 {
        lemma_response(f, x, idx, i - 1, k);
    }
}

/// A logarithmic range: `n` points further on the frequency is ten times as
/// high, and the range begins at its lower end.
pub proof fn decades_are_factors_of_ten<R: Real>(n: usize, f1: R, k: int)
    requires
        num::is_field::<R>(),
        n > 0,
        R::integer(n as int) != R::nil(),
        R::integer(0) == R::nil(),
        R::integer(k + n) == R::integer(k).plus(R::integer(n as int)),
        R::decimal(10, 0).power(R::nil()) == R::unit(),
        forall|a: R| #[trigger]
            R::decimal(10, 0).power(a.plus(R::unit())) == R::decimal(10, 0).times(
                R::decimal(10, 0).power(a),
            ),
    ensures
        small_signal::decade_point(n, f1, 0) == f1,
        small_signal::decade_point(n, f1, k + n) == R::decimal(10, 0).times(
            small_signal::decade_point(n, f1, k),
        ),
{
    let ten = R::decimal(10, 0);
    let d = R::integer(n as int);
    let i = R::integer(k);
    field::times_nil(d);
    field::over_unique(R::nil(), d, R::nil());
    field::times_unit(f1);
    // (i + d) / d == i / d + 1
    let q = i.over(d);
    field::plus_distributes(q, R::unit(), d);
    field::over_times(i, d);
    field::times_unit(d);
    field::over_unique(i.plus(d), d, q.plus(R::unit()));
    assert(ten.power(q.plus(R::unit())) == ten.times(ten.power(q)));
    field::times_assoc(f1, ten, ten.power(q));
    field::times_comm(f1, ten);
    field::times_assoc(ten, f1, ten.power(q));
}

} // verus!
