//! What a step of a transient analysis does.
use vstd::prelude::*;

use crate::assembly;
use crate::assembly::ModeModel;
use crate::breaks;
use crate::circuit;
use crate::circuit::CircuitModel;
use crate::equations;
use crate::fault::SimFault;
use crate::field;
use crate::num;
use crate::num::Real;
use crate::output;
use crate::output::EndModel;
use crate::solver;
use crate::solver::Iterated;
use crate::solver_laws;
use crate::transient;
use crate::transient::{TranModel, Verdict};

verus! {

/// An accepted step of length `h` settles the equations of the time `t + h`,
/// set up from the charges and fluxes kept before, by the backward Euler rule
/// until there are two earlier solutions and by the trapezoidal rule from then
/// on. It keeps the charges and fluxes of the new solution by the same rule,
/// and the solution it came from with its length as the latest of at most two
/// earlier ones, unless it ends on a break time.
pub proof fn accepted_steps_settle_the_new_time<R: Real>(c: CircuitModel<R>, s: TranModel<R>)
    ensures
        match transient::stepped(c, s) {
            Ok((n, Some(line))) => {
                let p = transient::trial(s);
                let be = s.old.len() < 2;
                &&& solver_laws::at_rest(
                    c,
                    ModeModel::Tran { h: p.hs, t: s.t.plus(p.hs), st: s.st, be },
                    R::decimal(1, -12),
                    n.x,
                    n.lim,
                )
                &&& n.t == s.t.plus(p.hs)
                &&& n.st.len() == c.devs.len()
                &&& forall|i: int|
                    0 <= i < c.devs.len() ==> #[trigger] n.st[i] == solver::next_state(
                        c.devs[i],
                        n.x,
                        p.hs,
                        s.st[i],
                        be,
                    )
                &&& p.on_bp ==> n.old.len() == 0 && n.h == s.tstep.over(R::decimal(100, 0))
                &&& !p.on_bp ==> n.old.len() > 0 && n.old[0] == (s.x, p.hs)
                &&& !p.on_bp && s.old.len() == 0 ==> n.old.len() == 1
                &&& !p.on_bp && s.old.len() > 0 ==> n.old.len() == 2 && n.old[1] == s.old[0]
                &&& n.tstep == s.tstep
                &&& n.tstop == s.tstop
                &&& n.bp == s.bp
                &&& n.bpi == p.bpi
                &&& n.idx == s.idx
                &&& line == output::point_row(n.t, n.x, n.idx)
            },
            _ => true,
        },
{
    let p = transient::trial(s);
    let from = match transient::prediction(s, p.hs) {
        Some(xp) => xp,
        None => s.x,
    };
    let be = s.old.len() < 2;
    let mode = ModeModel::Tran { h: p.hs, t: s.t.plus(p.hs), st: s.st, be };
    solver_laws::convergence_means_rest(
        c,
        from,
        s.lim,
        mode,
        R::decimal(1, -12),
        solver::ITL_TRAN,
    );
}

/// The step tried is the one that was decided on, cut off at the end of the
/// analysis, or it goes to the next break time where that comes before its end
/// or hardly behind it. The next break time is not one that has been reached.
pub proof fn trials_are_cut_off<R: Real>(s: TranModel<R>)
    ensures
        ({
            let p = transient::trial(s);
            let grain = s.tstop.times(R::decimal(1, -12));
            let h = s.h.lesser_of(s.tstop.minus(s.t));
            &&& p.on_bp <==> p.bpi < s.bp.len() && s.bp[p.bpi].minus(grain).at_most(s.t.plus(h))
            &&& p.on_bp ==> p.hs == s.bp[p.bpi].minus(s.t)
            &&& !p.on_bp ==> p.hs == h
            &&& 0 <= p.bpi < s.bp.len() ==> !s.bp[p.bpi].at_most(s.t.plus(grain))
        }),
{
    lemma_next_break(s.bp, s.bpi, s.t.plus(s.tstop.times(R::decimal(1, -12))));
}

proof fn lemma_next_break<R: Real>(bp: Seq<R>, i: int, t: R)
    ensures
        ({
            let k = transient::next_break(bp, i, t);
            0 <= k < bp.len() ==> !bp[k].at_most(t)
        }),
    decreases bp.len() - i,
{
    if 0 <= i < bp.len() && bp[i].at_most(t) {
        lemma_next_break(bp, i + 1, t);
    }
}

/// A step that does not converge within ten iterations from the prediction,
/// or from the last solution where there is none, is tried again with an eighth
/// of its length. The analysis fails exactly if that is below the smallest
/// step.
pub proof fn steps_that_fail_are_cut<R: Real>(c: CircuitModel<R>, s: TranModel<R>)
    ensures
        ({
            let p = transient::trial(s);
            let from = if s.old.len() == 2 {
                transient::predicted(s.x, s.old, p.hs)
            } else {
                s.x
            };
            let mode = ModeModel::Tran {
                h: p.hs,
                t: s.t.plus(p.hs),
                st: s.st,
                be: s.old.len() < 2,
            };
            let h = p.hs.over(R::decimal(8, 0));
            match solver::converged(c, from, s.lim, mode, R::decimal(1, -12), 10) {
                Err(e) => transient::stepped(c, s) == Err::<
                    (TranModel<R>, Option<Seq<char>>),
                    SimFault,
                >(e),
                Ok(t) => t.done is None ==> match transient::stepped(c, s) {
                    Ok((n, line)) => {
                        &&& !h.below(s.tstop.times(R::decimal(1, -12)))
                        &&& line is None
                        &&& n.h == h
                        &&& n.lim == t.lim
                        &&& n.x == s.x
                        &&& n.t == s.t
                    },
                    Err(e) => {
                        &&& h.below(s.tstop.times(R::decimal(1, -12)))
                        &&& e == SimFault::StepTooSmall(s.t.shown(3))
                    },
                },
            }
        }),
{
}

/// The larger of two numbers is one of them and not below either.
pub open spec fn maxima_are_exact<R: Real>() -> bool {
    &&& num::is_order::<R>()
    &&& forall|a: R, b: R|
        a.at_most(#[trigger] a.greater_of(b)) && b.at_most(a.greater_of(b)) && (a.greater_of(b)
            == a || a.greater_of(b) == b)
}

/// The truncation error of an unknown in units of what is tolerated: a share
/// `fac` of the gap between solution and prediction, against seven times the
/// tolerance, which is a microvolt or a picoampere and a thousandth of the
/// larger of the new and the old value.
pub open spec fn error_of<R: Real>(
    nn: int,
    xn: Seq<R>,
    xp: Seq<R>,
    x: Seq<R>,
    fac: R,
    i: int,
) -> R {
    let floor = if i < nn {
        R::decimal(1, -6)
    } else {
        R::decimal(1, -12)
    };
    let larger = xn[i].size().greater_of(x[i].size());
    let allowed = floor.plus(R::decimal(1, -3).times(larger));
    fac.times(xn[i].minus(xp[i]).size()).over(R::decimal(7, 0).times(allowed))
}

/// The error of a step is the largest among the errors of its unknowns, or
/// zero.
pub proof fn the_worst_error_counts<R: Real>(
    nn: int,
    xn: Seq<R>,
    xp: Seq<R>,
    x: Seq<R>,
    fac: R,
    n: int,
    i: int,
)
    requires
        maxima_are_exact::<R>(),
        1 <= i < n,
    ensures
        ({
            let r = transient::worst_error(nn, xn, xp, x, fac, n);
            &&& error_of(nn, xn, xp, x, fac, i).at_most(r)
            &&& r == R::nil() || exists|j: int|
                1 <= j < n && r == #[trigger] error_of(nn, xn, xp, x, fac, j)
        }),
    decreases n,
{
    lemma_worst_is_some(nn, xn, xp, x, fac, n);
    lemma_worst_is_bound(nn, xn, xp, x, fac, n, i);
}

proof fn lemma_worst_is_some<R: Real>(
    nn: int,
    xn: Seq<R>,
    xp: Seq<R>,
    x: Seq<R>,
    fac: R,
    n: int,
)
    requires
        maxima_are_exact::<R>(),
    ensures
        ({
            let r = transient::worst_error(nn, xn, xp, x, fac, n);
            r == R::nil() || exists|j: int|
                1 <= j < n && r == #[trigger] error_of(nn, xn, xp, x, fac, j)
        }),
    decreases n,
{
    if n > 1 {
        lemma_worst_is_some(nn, xn, xp, x, fac, n - 1);
        let (a, b) = (
            transient::worst_error(nn, xn, xp, x, fac, n - 1),
            error_of(nn, xn, xp, x, fac, n - 1),
        );
        assert(transient::worst_error(nn, xn, xp, x, fac, n) == a.greater_of(b));
        assert(a.greater_of(b) == a || a.greater_of(b) == b);
    }
}

proof fn lemma_worst_is_bound<R: Real>(
    nn: int,
    xn: Seq<R>,
    xp: Seq<R>,
    x: Seq<R>,
    fac: R,
    n: int,
    i: int,
)
    requires
        maxima_are_exact::<R>(),
        1 <= i < n,
    ensures
        error_of(nn, xn, xp, x, fac, i).at_most(transient::worst_error(nn, xn, xp, x, fac, n)),
    decreases n,
{
    let (a, b) = (
        transient::worst_error(nn, xn, xp, x, fac, n - 1),
        error_of(nn, xn, xp, x, fac, n - 1),
    );
    let w = a.greater_of(b);
    assert(transient::worst_error(nn, xn, xp, x, fac, n) == w);
    assert(a.at_most(w) && b.at_most(w));
    if i < n - 1 {
        lemma_worst_is_bound(nn, xn, xp, x, fac, n - 1, i);
        reveal(num::is_order);
    }
}

/// The share of the truncation error in the gap between solution and
/// prediction. The trapezoidal rule is off by a twelfth of `h` cubed, the
/// prediction by a sixth of the product of the distances to the three points it
/// goes through, both in units of the third derivative and to opposite sides.
pub proof fn the_error_is_its_share_of_the_gap<R: Real>(h: R, d1: R, d2: R)
    requires
        num::is_field::<R>(),
        R::decimal(6, 0) != R::nil(),
        R::decimal(12, 0) != R::nil(),
        ({
            let rule = h.times(h).times(h).over(R::decimal(12, 0));
            let ahead = h.times(h.plus(d1)).times(h.plus(d1).plus(d2)).over(R::decimal(6, 0));
            ahead.plus(rule) != R::nil()
        }),
    ensures
        ({
            let rule = h.times(h).times(h).over(R::decimal(12, 0));
            let ahead = h.times(h.plus(d1)).times(h.plus(d1).plus(d2)).over(R::decimal(6, 0));
            let share = transient::error_share(h, d1, d2);
            &&& share.times(ahead.plus(rule)) == rule
            &&& rule.times(R::decimal(12, 0)) == h.times(h).times(h)
            &&& ahead.times(R::decimal(6, 0)) == h.times(h.plus(d1)).times(
                h.plus(d1).plus(d2),
            )
        }),
{
    let rule = h.times(h).times(h).over(R::decimal(12, 0));
    let ahead = h.times(h.plus(d1)).times(h.plus(d1).plus(d2)).over(R::decimal(6, 0));
    field::over_times(rule, ahead.plus(rule));
    field::over_times(h.times(h).times(h), R::decimal(12, 0));
    field::over_times(
        h.times(h.plus(d1)).times(h.plus(d1).plus(d2)),
        R::decimal(6, 0),
    );
}

/// The length of a step goes with the cube root of its error: the scale that
/// follows from the error `r`, cubed and times `r`, is `0.9` cubed. An error
/// below `1e-8` counts as that.
pub proof fn steps_go_with_the_cube_root<R: Real>(r: R)
    requires
        num::is_field::<R>(),
        forall|a: R|
            a != R::nil() ==> (#[trigger] a.cube_root()) != R::nil() && a.cube_root().times(
                a.cube_root(),
            ).times(a.cube_root()) == a,
        r.greater_of(R::decimal(1, -8)) != R::nil(),
    ensures
        ({
            let k = transient::step_scale(r);
            let n = R::decimal(9, -1);
            k.times(k).times(k).times(r.greater_of(R::decimal(1, -8))) == n.times(n).times(n)
        }),
{
    let a = r.greater_of(R::decimal(1, -8));
    let c = a.cube_root();
    let k = transient::step_scale(r);
    let n = R::decimal(9, -1);
    field::over_times(n, c);
    assert(k.times(c) == n);
    assert(c.times(c).times(c) == a);
    // (k k k) (c c c) == (k c) (k c) (k c)
    lemma_product(k, k, c, c);
    lemma_product(k.times(k), k, c.times(c), c);
}

/// `(a b) (c d) == (a c) (b d)`
proof fn lemma_product<R: Real>(a: R, b: R, c: R, d: R)
    requires
        num::is_field::<R>(),
    ensures
        a.times(b).times(c.times(d)) == a.times(c).times(b.times(d)),
{
    field::times_assoc(a, b, c.times(d));
    field::times_assoc(b, c, d);
    field::times_comm(b, c);
    field::times_assoc(c, b, d);
    field::times_assoc(a, c, b.times(d));
}

/// The scale within its bounds.
pub open spec fn bounded<R: Real>(scale: R, lo: R, hi: R, k: R) -> bool {
    &&& scale.below(lo) ==> k == lo
    &&& !scale.below(lo) && hi.below(scale) ==> k == hi
    &&& !scale.below(lo) && !hi.below(scale) ==> k == scale
}

/// The verdict on a step. Without a prediction it is accepted, and the next one
/// is twice as long, but not longer than asked for, if it converged within five
/// iterations. Against a prediction it is repeated if its error is above one
/// and it is longer than twenty smallest steps; a repeated step has between an
/// eighth and nine tenths of the length, the one behind an accepted step
/// between three tenths and twice the length and not more than asked for.
pub proof fn verdicts_follow_the_error<R: Real>(
    c: CircuitModel<R>,
    s: TranModel<R>,
    hs: R,
    pred: Option<Seq<R>>,
    xn: Seq<R>,
    iters: usize,
)
    ensures
        match pred {
            None => match transient::judged(c, s, hs, pred, xn, iters) {
                Verdict::Accept(h) => h == if iters <= 5 {
                    R::decimal(2, 0).times(hs).lesser_of(s.tstep)
                } else {
                    hs
                },
                Verdict::Repeat(_) => false,
            },
            Some(xp) => {
                let fac = transient::error_share(hs, s.old[0].1, s.old[1].1);
                let r = transient::worst_error(
                    c.nodes.len() as int,
                    xn,
                    xp,
                    s.x,
                    fac,
                    c.unknowns(),
                );
                let scale = transient::step_scale(r);
                let short = R::decimal(20, 0).times(s.tstop.times(R::decimal(1, -12)));
                match transient::judged(c, s, hs, pred, xn, iters) {
                    Verdict::Accept(h) => {
                        &&& !(R::unit().below(r) && short.below(hs))
                        &&& exists|k: R|
                            #[trigger] bounded(scale, R::decimal(3, -1), R::decimal(2, 0), k)
                                && h == hs.times(k).lesser_of(s.tstep)
                    },
                    Verdict::Repeat(h) => {
                        &&& R::unit().below(r)
                        &&& short.below(hs)
                        &&& exists|k: R|
                            #[trigger] bounded(scale, R::decimal(125, -3), R::decimal(9, -1), k)
                                && h == hs.times(k)
                    },
                }
            },
        },
{
    if let Some(xp) = pred {
        let fac = transient::error_share(hs, s.old[0].1, s.old[1].1);
        let r = transient::worst_error(c.nodes.len() as int, xn, xp, s.x, fac, c.unknowns());
        let scale = transient::step_scale(r);
        let up = num::clamped(scale, R::decimal(3, -1), R::decimal(2, 0));
        let down = num::clamped(scale, R::decimal(125, -3), R::decimal(9, -1));
        assert(bounded(scale, R::decimal(3, -1), R::decimal(2, 0), up));
        assert(bounded(scale, R::decimal(125, -3), R::decimal(9, -1), down));
    }
}

/// A solution counts as settled exactly if every unknown but ground moved by at
/// most its tolerance: a microvolt for a node and a picoampere for a branch,
/// and a thousandth of the larger of the two values.
pub proof fn settled_means_within_tolerance<R: Real>(nn: int, xn: Seq<R>, x: Seq<R>)
    ensures
        solver::settled(nn, xn, x) <==> forall|i: int|
            1 <= i < xn.len() ==> (#[trigger] xn[i]).minus(x[i]).size().at_most(
                (if i < nn {
                    R::decimal(1, -6)
                } else {
                    R::decimal(1, -12)
                }).plus(R::decimal(1, -3).times(xn[i].size().greater_of(x[i].size()))),
            ),
{
}

/// The continuations towards an operating point. The first lowers the minimal
/// conductance by tens from a hundredth to `1e-12` with the full sources, the
/// second raises the sources by tenths to their full value.
pub proof fn continuations_go_by_tens<R: Real>(i: int)
    requires
        num::is_field::<R>(),
        R::decimal(10, 0) != R::nil(),
        forall|k: int| #[trigger]
            R::decimal(10, 0).int_power(k).times(R::decimal(10, 0)) == R::decimal(
                10,
                0,
            ).int_power(k + 1),
    ensures
        ({
            let (a, b) = (solver::gmin_path::<R>(), solver::source_path::<R>());
            &&& a.len() == 11
            &&& a[0].0 == R::decimal(10, 0).int_power(-2)
            &&& a[10].0 == R::decimal(10, 0).int_power(-12)
            &&& 0 <= i < 10 ==> a[i + 1].0.times(R::decimal(10, 0)) == a[i].0
            &&& 0 <= i < 11 ==> a[i].1 == R::unit()
            &&& b.len() == 10
            &&& 0 <= i < 10 ==> b[i].0 == R::decimal(1, -12)
            &&& 0 <= i < 10 ==> b[i].1.times(R::decimal(10, 0)) == R::integer(i + 1)
        }),
{
    if 0 <= i < 10 {
        field::over_times(R::integer(i + 1), R::decimal(10, 0));
        let k = -(i + 3);
        assert(R::decimal(10, 0).int_power(k).times(R::decimal(10, 0)) == R::decimal(
            10,
            0,
        ).int_power(k + 1));
        assert(k + 1 == -(i + 2));
    }
}

/// The stages of a continuation are taken in turn, each from the point where
/// the one before settled, within a hundred iterations each; one that does not
/// settle ends the continuation without a result.
pub proof fn continuations_go_stage_by_stage<R: Real>(
    c: CircuitModel<R>,
    path: Seq<(R, R)>,
    j: int,
    x: Seq<R>,
    lim: Seq<(R, R)>,
)
    requires
        0 <= j <= path.len(),
    ensures
        ({
            let end = solver::walked(c, path, j, x, lim);
            if j == path.len() {
                end == Ok::<_, SimFault>(Some((x, lim)))
            } else {
                match solver::converged(
                    c,
                    x,
                    lim,
                    ModeModel::Dc { fac: path[j].1 },
                    path[j].0,
                    100,
                ) {
                    Err(e) => end == Err::<Option<(Seq<R>, Seq<(R, R)>)>, SimFault>(e),
                    Ok(t) => if t.done is Some {
                        end == solver::walked(c, path, j + 1, t.x, t.lim)
                    } else {
                        end == Ok::<Option<(Seq<R>, Seq<(R, R)>)>, SimFault>(None)
                    },
                }
            }
        }),
{
}

/// An iteration sets the equations up at the point and the junction voltages
/// that the one before left, and it ends as soon as a step behind the first
/// settles without a junction being held back. A singular system is reported
/// with the unknown at which it was found.
pub proof fn iterations_go_on_from_the_last_point<R: Real>(
    c: CircuitModel<R>,
    x: Seq<R>,
    lim: Seq<(R, R)>,
    mode: ModeModel<R>,
    gmin: R,
    it: int,
    maxit: int,
)
    requires
        1 <= it <= maxit <= usize::MAX,
    ensures
        ({
            let end = solver::iterated(c, x, lim, mode, gmin, it, maxit);
            let s = assembly::circuit_equations(c, x, lim, mode, gmin);
            match equations::solution(s.eq) {
                Ok(xn) => {
                    let done = it >= 2 && !s.limited && solver::settled(
                        c.nodes.len() as int,
                        xn,
                        x,
                    );
                    &&& done ==> end == Ok::<Iterated<R>, SimFault>(
                        Iterated { x: xn, lim: s.lim, done: Some(it as usize) },
                    )
                    &&& !done ==> end == solver::iterated(
                        c,
                        xn,
                        s.lim,
                        mode,
                        gmin,
                        it + 1,
                        maxit,
                    )
                },
                Err(k) => end == Err::<Iterated<R>, SimFault>(
                    SimFault::Singular(circuit::unknown_label(c, k as int)),
                ),
            }
        }),
{
}

/// An operating point is sought directly from where the last one was, then
/// from zero along the continuation of the conductance, then from zero along
/// that of the sources.
pub proof fn operating_points_are_sought_in_turn<R: Real>(
    c: CircuitModel<R>,
    x: Seq<R>,
    lim: Seq<(R, R)>,
)
    ensures
        ({
            let full = ModeModel::Dc { fac: R::unit() };
            let direct = solver::converged(c, x, lim, full, R::decimal(1, -12), 100);
            let zero = Seq::new(x.len(), |i: int| R::nil());
            let rest = Seq::new(lim.len(), |i: int| (R::nil(), R::nil()));
            let second = solver::walked(c, solver::gmin_path::<R>(), 0, zero, rest);
            let third = solver::walked(c, solver::source_path::<R>(), 0, zero, rest);
            let found = |p: (Seq<R>, Seq<(R, R)>)|
                solver::operating_point(c, x, lim) == Ok::<_, SimFault>(p);
            let failed = |e: SimFault|
                solver::operating_point(c, x, lim) == Err::<(Seq<R>, Seq<(R, R)>), SimFault>(e);
            match direct {
                Err(e) => failed(e),
                Ok(t) => if t.done is Some {
                    found((t.x, t.lim))
                } else {
                    match second {
                        Err(e) => failed(e),
                        Ok(Some(p)) => found(p),
                        Ok(None) => match third {
                            Err(e) => failed(e),
                            Ok(Some(p)) => found(p),
                            Ok(None) => failed(SimFault::NoOperatingPoint),
                        },
                    }
                },
            }
        }),
{
    let zero = Seq::new(x.len(), |i: int| R::nil());
    let rest = Seq::new(lim.len(), |i: int| (R::nil(), R::nil()));
    assert(solver::origin::<R>(x.len()) =~= zero);
    assert(solver::relaxed::<R>(lim.len()) =~= rest);
}

/// A step that converges is judged against the prediction where there are two
/// earlier solutions. It is tried again with the length that the verdict gives,
/// or its solution is kept and the next step has that length.
pub proof fn converged_steps_are_judged<R: Real>(c: CircuitModel<R>, s: TranModel<R>)
    ensures
        ({
            let p = transient::trial(s);
            let pred = if s.old.len() == 2 {
                Some(transient::predicted(s.x, s.old, p.hs))
            } else {
                None
            };
            let from = match pred {
                Some(xp) => xp,
                None => s.x,
            };
            let mode = ModeModel::Tran {
                h: p.hs,
                t: s.t.plus(p.hs),
                st: s.st,
                be: s.old.len() < 2,
            };
            match solver::converged(c, from, s.lim, mode, R::decimal(1, -12), 10) {
                Ok(t) => t.done is Some ==> match (
                    transient::judged(c, s, p.hs, pred, t.x, t.done->0),
                    transient::stepped(c, s),
                ) {
                    (Verdict::Repeat(h), Ok((n, line))) => {
                        &&& line is None
                        &&& n.h == h
                        &&& n.lim == t.lim
                        &&& n.x == s.x
                        &&& n.t == s.t
                        &&& n.st == s.st
                        &&& n.old == s.old
                    },
                    (Verdict::Accept(h), Ok((n, line))) => {
                        &&& line is Some
                        &&& !p.on_bp ==> n.h == h
                        &&& n.lim == t.lim
                        &&& n.x == t.x
                    },
                    _ => false,
                },
                Err(_) => true,
            }
        }),
{
}

/// Steps are attempted as long as the end is further away than the smallest
/// step, one after the other, and every accepted one is a row.
pub proof fn steps_are_taken_up_to_the_end<R: Real>(
    c: CircuitModel<R>,
    s: TranModel<R>,
    limit: nat,
)
    requires
        limit > 0,
    ensures
        ({
            let a = transient::advanced(c, s, limit);
            if s.t.below(s.tstop.minus(s.tstop.times(R::decimal(1, -12)))) {
                match transient::stepped(c, s) {
                    Ok((n, line)) => {
                        let rest = transient::advanced(c, n, (limit - 1) as nat);
                        &&& a.end == rest.end
                        &&& a.state == rest.state
                        &&& line is None ==> a.rows == rest.rows
                        &&& line is Some ==> a.rows == seq![line->0] + rest.rows
                    },
                    Err(e) => a.end == EndModel::Failed(e) && a.rows.len() == 0,
                }
            } else {
                a.end is Done && a.rows.len() == 0 && a.state == s
            }
        }),
{
}

/// A transient analysis opens at time 0 with a hundredth of the time step and
/// the break times of its sources before it.
pub proof fn transients_open_with_a_small_step<R: Real>(
    c: CircuitModel<R>,
    tstep: R,
    tstop: R,
    uic: bool,
    limit: nat,
)
    requires
        transient::tran_opening(c, tstep, tstop, uic, limit).1 is Some,
    ensures
        ({
            let s = transient::tran_opening(c, tstep, tstop, uic, limit).1->0;
            &&& s.t == R::nil()
            &&& s.h == tstep.over(R::decimal(100, 0))
            &&& s.tstep == tstep
            &&& s.tstop == tstop
            &&& s.old.len() == 0
            &&& breaks::break_times(c, tstop, limit) == Some(s.bp)
            &&& s.bpi == 0
        }),
{
}

/// The operating point of a circuit is sought from every unknown and every
/// junction at zero.
pub proof fn circuits_rest_from_zero<R: Real>(c: CircuitModel<R>)
    ensures
        solver::resting_point(c) == solver::operating_point(
            c,
            Seq::new(c.unknowns() as nat, |i: int| R::nil()),
            Seq::new(c.devs.len(), |i: int| (R::nil(), R::nil())),
        ),
{
    assert(solver::origin::<R>(c.unknowns() as nat) =~= Seq::new(
        c.unknowns() as nat,
        |i: int| R::nil(),
    ));
    assert(solver::relaxed::<R>(c.devs.len()) =~= Seq::new(
        c.devs.len(),
        |i: int| (R::nil(), R::nil()),
    ));
}

/// An iteration that runs out of steps hands back where it came to, without
/// having converged.
pub proof fn exhausted_iterations_have_not_converged<R: Real>(
    c: CircuitModel<R>,
    x: Seq<R>,
    lim: Seq<(R, R)>,
    mode: ModeModel<R>,
    gmin: R,
    maxit: int,
)
    ensures
        solver::iterated(c, x, lim, mode, gmin, maxit + 1, maxit) == Ok::<Iterated<R>, SimFault>(
            Iterated { x, lim, done: None },
        ),
        solver::converged(c, x, lim, mode, gmin, maxit) == solver::iterated(
            c,
            x,
            lim,
            mode,
            gmin,
            1,
            maxit,
        ),
{
}

} // verus!
