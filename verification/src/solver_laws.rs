//! What the operating points are.
use vstd::prelude::*;

use crate::assembly;
use crate::assembly::ModeModel;
use crate::circuit;
use crate::circuit::{CircuitModel, DevModel};
use crate::equations;
use crate::fault::SimFault;
use crate::field;
use crate::models;
use crate::num;
use crate::num::Real;
use crate::solver;
use crate::solver::{Iterated, ITL_OP};

verus! {

/// The iteration moves from the point `from` to `x` and is satisfied: `x`
/// solves the equations set up at `from`, no unknown moved by more than its
/// tolerance, and no junction was held back.
pub open spec fn settles<R: Real>(
    c: CircuitModel<R>,
    mode: ModeModel<R>,
    gmin: R,
    from: (Seq<R>, Seq<(R, R)>),
    x: Seq<R>,
    lim: Seq<(R, R)>,
) -> bool {
    let s = assembly::circuit_equations(c, from.0, from.1, mode, gmin);
    &&& equations::solution(s.eq) == Ok::<Seq<R>, usize>(x)
    &&& solver::settled(c.nodes.len() as int, x, from.0)
    &&& !s.limited
    &&& lim == s.lim
}

/// The iteration settles at `x` from some point.
pub open spec fn at_rest<R: Real>(
    c: CircuitModel<R>,
    mode: ModeModel<R>,
    gmin: R,
    x: Seq<R>,
    lim: Seq<(R, R)>,
) -> bool {
    exists|from: (Seq<R>, Seq<(R, R)>)| #[trigger] settles(c, mode, gmin, from, x, lim)
}

proof fn lemma_iterated_rests<R: Real>(
    c: CircuitModel<R>,
    x: Seq<R>,
    lim: Seq<(R, R)>,
    mode: ModeModel<R>,
    gmin: R,
    it: int,
    maxit: int,
)
    requires
        1 <= it,
        maxit <= usize::MAX,
    ensures
        match solver::iterated(c, x, lim, mode, gmin, it, maxit) {
            Ok(t) => match t.done {
                Some(n) => 2 <= n <= maxit && at_rest(c, mode, gmin, t.x, t.lim),
                None => true,
            },
            Err(e) => true,
        },
    decreases maxit - it + 1,
{
    if it <= maxit {
        let s = assembly::circuit_equations(c, x, lim, mode, gmin);
        match equations::solution(s.eq) {
            Ok(xn) => {
                if solver::settled(c.nodes.len() as int, xn, x) && !s.limited && it > 1 {
                    assert(settles(c, mode, gmin, (x, lim), xn, s.lim));
                } else {
                    lemma_iterated_rests(c, xn, s.lim, mode, gmin, it + 1, maxit);
                }
            },
            Err(_) => {},
        }
    }
}

/// An iteration that reports convergence after some number of steps took at
/// least two of them and not more than allowed, and it came to rest.
pub proof fn convergence_means_rest<R: Real>(
    c: CircuitModel<R>,
    x: Seq<R>,
    lim: Seq<(R, R)>,
    mode: ModeModel<R>,
    gmin: R,
    maxit: usize,
)
    ensures
        match solver::converged(c, x, lim, mode, gmin, maxit as int) {
            Ok(t) => match t.done {
                Some(n) => 2 <= n <= maxit && at_rest(c, mode, gmin, t.x, t.lim),
                None => true,
            },
            Err(e) => true,
        },
{
    lemma_iterated_rests(c, x, lim, mode, gmin, 1, maxit as int);
}

proof fn lemma_walked_rests<R: Real>(
    c: CircuitModel<R>,
    path: Seq<(R, R)>,
    j: int,
    x: Seq<R>,
    lim: Seq<(R, R)>,
)
    requires
        0 <= j < path.len(),
    ensures
        match solver::walked(c, path, j, x, lim) {
            Ok(Some(p)) => at_rest(
                c,
                ModeModel::Dc { fac: path.last().1 },
                path.last().0,
                p.0,
                p.1,
            ),
            _ => true,
        },
    decreases path.len() - j,
{
    let mode = ModeModel::Dc { fac: path[j].1 };
    convergence_means_rest(c, x, lim, mode, path[j].0, ITL_OP);
    match solver::converged(c, x, lim, mode, path[j].0, ITL_OP as int) {
        Ok(t) => {
            if t.done is Some {
                if j + 1 < path.len() {
                    lemma_walked_rests(c, path, j + 1, t.x, t.lim);
                } else {
                    assert(solver::walked(c, path, j + 1, t.x, t.lim) == Ok::<
                        Option<(Seq<R>, Seq<(R, R)>)>,
                        SimFault,
                    >(Some((t.x, t.lim))));
                }
            }
        },
        Err(_) => {},
    }
}

/// An operating point is a point of rest of the circuit with the full sources
/// and the minimal conductance, or with what the last stage of one of the two
/// continuations sets.
pub proof fn operating_points_are_at_rest<R: Real>(
    c: CircuitModel<R>,
    x: Seq<R>,
    lim: Seq<(R, R)>,
)
    ensures
        match solver::operating_point(c, x, lim) {
            Ok(p) => {
                ||| at_rest(
                    c,
                    ModeModel::Dc { fac: R::unit() },
                    models::min_conductance::<R>(),
                    p.0,
                    p.1,
                )
                ||| at_rest(
                    c,
                    ModeModel::Dc { fac: R::unit() },
                    R::decimal(10, 0).int_power(-12),
                    p.0,
                    p.1,
                )
                ||| at_rest(
                    c,
                    ModeModel::Dc { fac: R::integer(10).over(R::decimal(10, 0)) },
                    models::min_conductance::<R>(),
                    p.0,
                    p.1,
                )
            },
            Err(e) => true,
        },
{
    convergence_means_rest(
        c,
        x,
        lim,
        ModeModel::Dc { fac: R::unit() },
        models::min_conductance::<R>(),
        ITL_OP,
    );
    let x0 = solver::origin::<R>(x.len());
    let l0 = solver::relaxed::<R>(lim.len());
    lemma_walked_rests(c, solver::gmin_path::<R>(), 0, x0, l0);
    lemma_walked_rests(c, solver::source_path::<R>(), 0, x0, l0);
    assert(solver::gmin_path::<R>().last() == (R::decimal(10, 0).int_power(-12), R::unit()));
    assert(solver::source_path::<R>().last() == (
        models::min_conductance::<R>(),
        R::integer(10).over(R::decimal(10, 0)),
    ));
}

/// The device is linear: a source, controlled or not, a resistor, or one that
/// stores energy. Resistances are not zero.
pub open spec fn is_linear<R: Real>(d: DevModel<R>) -> bool {
    match d {
        DevModel::R { v, .. } => v != R::nil(),
        DevModel::D { .. } => false,
        DevModel::M { .. } => false,
        DevModel::Q { .. } => false,
        _ => true,
    }
}

proof fn lemma_resistor_offset<R: Real>(p: usize, n: usize, v: R, x: Seq<R>)
    requires
        num::is_field::<R>(),
        v != R::nil(),
    ensures
        equations::offset_current(
            assembly::across(x, p, n).over(v),
            seq![(p, n, R::unit().over(v))],
            x,
            1,
        ) == R::nil(),
{
    let a = assembly::across(x, p, n);
    let ctl = seq![(p, n, R::unit().over(v))];
    let q = R::unit().over(v).times(a);
    // q v == (1/v) v a == a, so q is a / v
    field::times_assoc(R::unit().over(v), a, v);
    field::times_comm(a, v);
    field::times_assoc(R::unit().over(v), v, a);
    field::over_times(R::unit(), v);
    field::times_unit(a);
    field::over_unique(a, v, q);
    field::minus_self(q);
    reveal_with_fuel(equations::offset_current, 2);
    assert(ctl[0] == (p, n, R::unit().over(v)));
}

proof fn lemma_gain_offset<R: Real>(cp: usize, cn: usize, k: R, x: Seq<R>)
    requires
        num::is_field::<R>(),
    ensures
        equations::offset_current(
            k.times(assembly::across(x, cp, cn)),
            seq![(cp, cn, k)],
            x,
            1,
        ) == R::nil(),
{
    field::minus_self(k.times(assembly::across(x, cp, cn)));
    reveal_with_fuel(equations::offset_current, 2);
    assert(seq![(cp, cn, k)][0] == (cp, cn, k));
}

proof fn lemma_linear_equations<R: Real>(
    c: CircuitModel<R>,
    x: Seq<R>,
    lim: Seq<(R, R)>,
    y: Seq<R>,
    fac: R,
    gmin: R,
    i: int,
)
    requires
        num::is_field::<R>(),
        0 <= i <= c.devs.len(),
        forall|j: int| 0 <= j < c.devs.len() ==> is_linear(#[trigger] c.devs[j]),
    ensures
        ({
            let mode = ModeModel::Dc { fac };
            let s = assembly::assembled(c, x, lim, mode, gmin, false, i);
            let t = assembly::assembled(c, y, lim, mode, gmin, false, i);
            s == t && s.lim == lim && !s.limited
        }),
    decreases i,
{
    if i > 0 {
        lemma_linear_equations(c, x, lim, y, fac, gmin, i - 1);
        let d = c.devs[i - 1];
        assert(is_linear(d));
        match d {
            DevModel::R { p, n, v } => {
                lemma_resistor_offset(p, n, v, x);
                lemma_resistor_offset(p, n, v, y);
            },
            DevModel::G { p, n, cp, cn, k } => {
                lemma_gain_offset(cp, cn, k, x);
                lemma_gain_offset(cp, cn, k, y);
            },
            _ => {},
        }
    }
}

/// In exact arithmetic a linear circuit is solved by the first step of the
/// iteration, from wherever it starts: the second step confirms it, since an
/// unknown that does not move is within its tolerance.
pub proof fn linear_circuits_converge_at_once<R: Real>(
    c: CircuitModel<R>,
    x: Seq<R>,
    lim: Seq<(R, R)>,
    fac: R,
    gmin: R,
    maxit: usize,
)
    requires
        num::is_field::<R>(),
        c.wf(),
        forall|j: int| 0 <= j < c.devs.len() ==> is_linear(#[trigger] c.devs[j]),
        match equations::solution(
            assembly::circuit_equations(c, x, lim, ModeModel::Dc { fac }, gmin).eq,
        ) {
            Ok(y) => forall|i: int|
                1 <= i < y.len() ==> R::nil().size().at_most(
                    solver::tolerance(i, c.nodes.len() as int, #[trigger] y[i], y[i]),
                ),
            Err(_) => true,
        },
        maxit >= 2,
    ensures
        ({
            let mode = ModeModel::Dc { fac };
            let s = assembly::circuit_equations(c, x, lim, mode, gmin);
            solver::converged(c, x, lim, mode, gmin, maxit as int) == match equations::solution(
                s.eq,
            ) {
                Ok(y) => Ok::<Iterated<R>, SimFault>(Iterated { x: y, lim, done: Some(2) }),
                Err(k) => Err(SimFault::Singular(circuit::unknown_label(c, k as int))),
            }
        }),
{
    let mode = ModeModel::Dc { fac };
    let s = assembly::circuit_equations(c, x, lim, mode, gmin);
    reveal_with_fuel(solver::iterated, 3);
    lemma_linear_equations(c, x, lim, x, fac, gmin, c.devs.len() as int);
    if equations::solution(s.eq) is Ok {
        let y = equations::solution(s.eq)->Ok_0;
        lemma_linear_equations(c, x, lim, y, fac, gmin, c.devs.len() as int);
        assert forall|i: int| 1 <= i < y.len() implies (#[trigger] y[i]).minus(y[i]).size().at_most(
            solver::tolerance(i, c.nodes.len() as int, y[i], y[i]),
        ) by {
            field::minus_self(y[i]);
        }
        assert(solver::settled(c.nodes.len() as int, y, y));
    }
}

/// What a device keeps of a time step is what it contributed to the equations
/// of that step: in exact arithmetic the current of a capacitor at the end of
/// the step is the current that was balanced.
pub proof fn kept_current_is_the_balanced_one<R: Real>(
    d: DevModel<R>,
    x: Seq<R>,
    h: R,
    last: (R, R),
    be: bool,
)
    requires
        num::is_field::<R>(),
        d is C,
    ensures
        match d {
            DevModel::C { p, n, v, m, .. } => {
                let q = models::charge(assembly::across(x, p, n), v, m).0;
                solver::next_state(d, x, h, last, be) == (
                    q,
                    assembly::rule_factor::<R>(be).over(h).times(q.minus(last.0)).minus(
                        assembly::carried(be, last.1),
                    ),
                )
            },
            _ => true,
        },
{
    field::times_nil(last.1);
    field::times_unit(last.1);
}

} // verus!
