//! How a transient analysis starts.
use vstd::prelude::*;

use crate::assembly;
use crate::assembly::ModeModel;
use crate::circuit;
use crate::circuit::{CircuitModel, DevModel};
use crate::equations;
use crate::exact;
use crate::fault::SimFault;
use crate::field;
use crate::kirchhoff;
use crate::models;
use crate::num;
use crate::num::Real;
use crate::output;
use crate::solver;
use crate::solver::ITL_TRAN;
use crate::stamps;
use crate::transient;
use crate::wave_laws;

verus! {

/// What a device stores while its unknowns rest at `x`: the charge of a
/// capacitor and no current, the flux of an inductor and no voltage.
pub open spec fn resting_state<R: Real>(d: DevModel<R>, x: Seq<R>, st: (R, R)) -> bool {
    match d {
        DevModel::C { p, n, v, m, .. } => st == (
            models::charge(x[p as int].minus(x[n as int]), v, m).0,
            R::nil(),
        ),
        DevModel::L { v, br, .. } => st == (v.times(x[br as int]), R::nil()),
        _ => true,
    }
}

/// Without initial conditions a transient analysis starts from the operating
/// point: the row at time 0 shows it, and every capacitor holds the charge and
/// every inductor the flux that it has there.
pub proof fn transients_start_from_the_operating_point<R: Real>(
    c: CircuitModel<R>,
    tstep: R,
    tstop: R,
    limit: nat,
    i: int,
)
    requires
        transient::tran_opening(c, tstep, tstop, false, limit).1 is Some,
        0 <= i < c.devs.len(),
    ensures
        ({
            let (report, state) = transient::tran_opening(c, tstep, tstop, false, limit);
            let s = state->0;
            &&& solver::resting_point(c) == Ok::<(Seq<R>, Seq<(R, R)>), SimFault>((s.x, s.lim))
            &&& report.lines[2] == output::point_row(R::nil(), s.x, output::selected(c))
            &&& s.t == R::nil()
            &&& s.old.len() == 0
            &&& s.st.len() == c.devs.len()
            &&& resting_state(c.devs[i], s.x, s.st[i])
        }),
{
}

/// With initial conditions in use, a device without one starts from the
/// unknowns at time 0 as well.
pub proof fn missing_conditions_are_live<R: Real>(
    c: CircuitModel<R>,
    tstep: R,
    tstop: R,
    limit: nat,
    i: int,
)
    requires
        transient::tran_opening(c, tstep, tstop, true, limit).1 is Some,
        0 <= i < c.devs.len(),
        match c.devs[i] {
            DevModel::C { ic, .. } => !ic.finite(),
            DevModel::L { ic, .. } => !ic.finite(),
            _ => true,
        },
    ensures
        ({
            let s = transient::tran_opening(c, tstep, tstop, true, limit).1->0;
            resting_state(c.devs[i], s.x, s.st[i])
        }),
{
}

/// The sources of the circuit have no time course.
pub open spec fn sources_are_constant<R: Real>(c: CircuitModel<R>) -> bool {
    forall|i: int|
        0 <= i < c.devs.len() ==> match #[trigger] c.devs[i] {
            DevModel::V { wave, .. } => wave is None,
            DevModel::I { wave, .. } => wave is None,
            _ => true,
        }
}

/// Every reactive device holds what it does at rest at `x`.
pub open spec fn states_rest<R: Real>(c: CircuitModel<R>, x: Seq<R>, st: Seq<(R, R)>) -> bool {
    &&& st.len() == c.devs.len()
    &&& forall|i: int|
        0 <= i < c.devs.len() ==> #[trigger] resting_state(c.devs[i], x, st[i])
}

/// Nothing moves where no current flows.
proof fn lemma_no_current<R: Real>(d: R, r: int, p: int, n: int)
    requires
        num::is_field::<R>(),
    ensures
        stamps::moved(d, R::nil(), r, p, n) == d,
{
    field::plus_nil(d);
    field::minus_nil(d);
}

/// `((k v) / h) i == (k / h) (v i)`
proof fn lemma_quotient<R: Real>(k: R, v: R, h: R, i: R)
    requires
        num::is_field::<R>(),
        h != R::nil(),
    ensures
        k.times(v).over(h).times(i) == k.over(h).times(v.times(i)),
{
    let q = k.over(h);
    field::times_assoc(q, v, h);
    field::times_comm(v, h);
    field::times_assoc(q, h, v);
    field::over_times(k, h);
    field::over_unique(k.times(v), h, q.times(v));
    field::times_assoc(q, v, i);
}

/// The balance of the first `i` devices is that of the operating point.
proof fn lemma_balance_rests<R: Real>(
    c: CircuitModel<R>,
    x: Seq<R>,
    lim: Seq<(R, R)>,
    st: Seq<(R, R)>,
    h: R,
    t: R,
    be: bool,
    gmin: R,
    r: int,
    i: int,
)
    requires
        num::is_field::<R>(),
        wave_laws::opposites_are_exact::<R>(),
        sources_are_constant(c),
        states_rest(c, x, st),
        h != R::nil(),
        x[0] == R::nil(),
        0 <= i <= c.devs.len(),
    ensures
        ({
            let dc = ModeModel::Dc { fac: R::unit() };
            let tran = ModeModel::Tran { h, t, st, be };
            kirchhoff::balance(c, x, lim, tran, gmin, x, r, i) == kirchhoff::balance(
                c,
                x,
                lim,
                dc,
                gmin,
                x,
                r,
                i,
            )
        }),
    decreases i,
{
    if i > 0 {
        lemma_balance_rests(c, x, lim, st, h, t, be, gmin, r, i - 1);
        let dc = ModeModel::Dc { fac: R::unit() };
        let tran = ModeModel::Tran { h, t, st, be };
        let d = c.devs[i - 1];
        let before = kirchhoff::balance(c, x, lim, dc, gmin, x, r, i - 1);
        assert(resting_state(d, x, st[i - 1]));
        let k = assembly::rule_factor::<R>(be);
        match d {
            DevModel::C { p, n, v, m, .. } => {
                let (q, cap) = models::charge(assembly::across(x, p, n), v, m);
                let ctl = seq![(p, n, k.times(cap).over(h))];
                field::minus_self(q);
                field::times_nil(k.over(h));
                field::minus_nil(R::nil());
                let j = k.over(h).times(q.minus(st[i - 1].0)).minus(
                    assembly::carried(be, st[i - 1].1),
                );
                assert(j == R::nil());
                stamps::linearized_at_its_point(j, ctl, x);
                kirchhoff::lemma_one_flow(before, (p, n, j), r);
                lemma_no_current(before, r, p as int, n as int);
                reveal_with_fuel(kirchhoff::drained, 1);
            },
            DevModel::L { p, n, v, br, .. } => {
                let u = assembly::across(x, p, n);
                let i0 = x[br as int];
                let ctl = seq![(br, 0usize, k.times(v).over(h))];
                reveal_with_fuel(stamps::sloped, 2);
                field::minus_nil(i0);
                let g = k.times(v).over(h).times(i0);
                field::plus_nil(g);
                assert(stamps::sloped(ctl, x, 1) == g);
                lemma_quotient(k, v, h, i0);
                field::plus_nil(k.over(h).times(v.times(i0)));
                let vh = k.over(h).times(st[i - 1].0).plus(
                    assembly::carried(be, st[i - 1].1),
                );
                assert(vh == g);
                assert(vh.opposite() == R::nil().minus(g));
                field::minus_difference(u.minus(g), R::nil(), g);
                field::minus_nil(u.minus(g));
                field::minus_plus(u, g);
                field::minus_nil(u);
                assert(kirchhoff::voltage_gap(d, i - 1, tran, x) == u);
                assert(kirchhoff::voltage_gap(d, i - 1, dc, x) == u);
            },
            _ => {
                assert(kirchhoff::currents(d, i - 1, x, lim, tran, gmin, x)
                    == kirchhoff::currents(d, i - 1, x, lim, dc, gmin, x));
                assert(kirchhoff::voltage_gap(d, i - 1, tran, x) == kirchhoff::voltage_gap(
                    d,
                    i - 1,
                    dc,
                    x,
                ));
            },
        }
    }
}

/// With constant sources a point that meets the equations of the operating
/// point meets those of a time step too, whatever its length and by either
/// rule, as long as the stored charges and fluxes are those of the point.
pub proof fn operating_points_persist<R: Real>(
    c: CircuitModel<R>,
    x: Seq<R>,
    lim: Seq<(R, R)>,
    st: Seq<(R, R)>,
    h: R,
    t: R,
    be: bool,
    gmin: R,
)
    requires
        num::is_field::<R>(),
        wave_laws::opposites_are_exact::<R>(),
        c.wf(),
        lim.len() == c.devs.len(),
        sources_are_constant(c),
        states_rest(c, x, st),
        h != R::nil(),
        x[0] == R::nil(),
        exact::solves(
            assembly::circuit_equations(
                c,
                x,
                lim,
                ModeModel::Dc { fac: R::unit() },
                gmin,
            ).eq,
            x,
        ),
    ensures
        exact::solves(
            assembly::circuit_equations(
                c,
                x,
                lim,
                ModeModel::Tran { h, t, st, be },
                gmin,
            ).eq,
            x,
        ),
{
    let dc = ModeModel::Dc { fac: R::unit() };
    let tran = ModeModel::Tran { h, t, st, be };
    let n = c.devs.len() as int;
    let s = assembly::circuit_equations(c, x, lim, dc, gmin).eq;
    let u = assembly::circuit_equations(c, x, lim, tran, gmin).eq;
    kirchhoff::lemma_closed(c, x, lim, dc, gmin, n);
    kirchhoff::lemma_closed(c, x, lim, tran, gmin, n);
    assert forall|r: int| 1 <= r < u.order() implies exact::dot(
        #[trigger] u.rows[r],
        x,
        u.order(),
    ) == u.b[r] by {
        kirchhoff::equations_are_the_balance(c, x, lim, dc, gmin, x, r);
        kirchhoff::equations_are_the_balance(c, x, lim, tran, gmin, x, r);
        lemma_balance_rests(c, x, lim, st, h, t, be, gmin, r, n);
        assert(exact::dot(s.rows[r], x, s.order()) == s.b[r]);
        field::minus_self(s.b[r]);
        field::minus_plus(exact::dot(u.rows[r], x, u.order()), u.b[r]);
        field::plus_nil(u.b[r]);
    }
}

/// The junction voltages and whether one was held back do not depend on what
/// the equations are set up for.
proof fn lemma_limits<R: Real>(
    c: CircuitModel<R>,
    x: Seq<R>,
    lim: Seq<(R, R)>,
    a: ModeModel<R>,
    b: ModeModel<R>,
    gmin: R,
    i: int,
)
    ensures
        ({
            let u = assembly::assembled(c, x, lim, a, gmin, false, i);
            let v = assembly::assembled(c, x, lim, b, gmin, false, i);
            u.lim == v.lim && u.limited == v.limited
        }),
    decreases i,
{
    if i > 0 {
        lemma_limits(c, x, lim, a, b, gmin, i - 1);
    }
}

/// The iteration of a time step that starts from a point that meets its
/// equations stays there.
proof fn lemma_stays<R: Real>(
    c: CircuitModel<R>,
    x: Seq<R>,
    lim: Seq<(R, R)>,
    mode: ModeModel<R>,
    gmin: R,
)
    requires
        num::is_field::<R>(),
        R::nil().negligible(),
        assembly::fits(c, x, lim, mode),
        c.unknowns() > 1,
        x[0] == R::nil(),
        ({
            let s = assembly::circuit_equations(c, x, lim, mode, gmin);
            &&& exact::solves(s.eq, x)
            &&& equations::solution(s.eq) is Ok
            &&& s.lim == lim
            &&& !s.limited
        }),
        solver::settled(c.nodes.len() as int, x, x),
    ensures
        solver::converged(c, x, lim, mode, gmin, ITL_TRAN as int) == Ok::<
            solver::Iterated<R>,
            SimFault,
        >(solver::Iterated { x, lim, done: Some(2) }),
{
    let s = assembly::circuit_equations(c, x, lim, mode, gmin);
    let n = c.devs.len() as int;
    let y = equations::solution(s.eq)->Ok_0;
    kirchhoff::lemma_closed(c, x, lim, mode, gmin, n);
    circuit::lemma_branch_count(c.devs, 0, n);
    let zero = Seq::new(c.unknowns() as nat, |i: int| R::nil());
    kirchhoff::lemma_balance(c, x, lim, mode, gmin, zero, 1, n);
    exact::solution_is_sound(s.eq);
    assert forall|i: int| 0 <= i < x.len() implies #[trigger] y[i] == x[i] by {
        if i > 0 {
            exact::solution_is_unique(s.eq, x, i);
        }
    }
    assert(y =~= x);
    reveal_with_fuel(solver::iterated, 3);
}

/// With constant sources the operating point is not left: in exact arithmetic
/// the first step of a transient analysis that starts there is accepted at the
/// same unknowns, with the same stored charges and fluxes, and its row differs
/// from the one at time 0 in the time alone.
pub proof fn first_steps_stay_at_the_operating_point<R: Real>(
    c: CircuitModel<R>,
    tstep: R,
    tstop: R,
    limit: nat,
)
    requires
        num::is_field::<R>(),
        wave_laws::opposites_are_exact::<R>(),
        R::nil().negligible(),
        c.wf(),
        c.unknowns() > 1,
        sources_are_constant(c),
        transient::tran_opening(c, tstep, tstop, false, limit).1 is Some,
        ({
            let s = transient::tran_opening(c, tstep, tstop, false, limit).1->0;
            let gmin = models::min_conductance::<R>();
            let rest = assembly::circuit_equations(
                c,
                s.x,
                s.lim,
                ModeModel::Dc { fac: R::unit() },
                gmin,
            );
            let h = transient::trial(s).hs;
            let step = assembly::circuit_equations(
                c,
                s.x,
                s.lim,
                ModeModel::Tran { h, t: s.t.plus(h), st: s.st, be: true },
                gmin,
            );
            &&& s.x.len() == c.unknowns()
            &&& s.lim.len() == c.devs.len()
            &&& s.x[0] == R::nil()
            &&& exact::solves(rest.eq, s.x)
            &&& rest.lim == s.lim
            &&& !rest.limited
            &&& h != R::nil()
            &&& equations::solution(step.eq) is Ok
            &&& solver::settled(c.nodes.len() as int, s.x, s.x)
        }),
    ensures
        ({
            let s = transient::tran_opening(c, tstep, tstop, false, limit).1->0;
            match transient::stepped(c, s) {
                Ok((n, Some(line))) => {
                    &&& n.t == s.t.plus(transient::trial(s).hs)
                    &&& n.x == s.x
                    &&& n.st == s.st
                    &&& line == output::point_row(n.t, s.x, output::selected(c))
                },
                _ => false,
            }
        }),
{
    let s = transient::tran_opening(c, tstep, tstop, false, limit).1->0;
    let gmin = models::min_conductance::<R>();
    let h = transient::trial(s).hs;
    let dc = ModeModel::Dc { fac: R::unit() };
    let mode = ModeModel::Tran { h, t: s.t.plus(h), st: s.st, be: true };
    assert forall|i: int| 0 <= i < c.devs.len() implies #[trigger] resting_state(
        c.devs[i],
        s.x,
        s.st[i],
    ) by {
        transients_start_from_the_operating_point(c, tstep, tstop, limit, i);
    }
    operating_points_persist(c, s.x, s.lim, s.st, h, s.t.plus(h), true, gmin);
    lemma_limits(c, s.x, s.lim, dc, mode, gmin, c.devs.len() as int);
    lemma_stays(c, s.x, s.lim, mode, gmin);
    let n = transient::stepped(c, s)->Ok_0.0;
    assert forall|i: int| 0 <= i < c.devs.len() implies #[trigger] n.st[i] == s.st[i] by {
        assert(resting_state(c.devs[i], s.x, s.st[i]));
        let q = s.st[i].0;
        field::minus_self(q);
        field::times_nil(assembly::rule_factor::<R>(true).over(h));
        field::times_nil(R::nil());
        field::minus_nil(R::nil());
    }
    assert(n.st =~= s.st);
}

} // verus!
