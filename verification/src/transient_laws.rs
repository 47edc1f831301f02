//! What holds of every transient analysis.
use vstd::prelude::*;

use crate::circuit::{CircuitModel, DevModel};
use crate::field;
use crate::models;
use crate::num;
use crate::num::Real;
use crate::output;
use crate::solver;
use crate::transient;
use crate::transient::{Advance, TranModel, Verdict};

verus! {

/// With the initial conditions in use the operating point is skipped, and the
/// row at time 0 shows every unknown at zero.
pub proof fn initial_conditions_start_from_zero<R: Real>(
    c: CircuitModel<R>,
    tstep: R,
    tstop: R,
    limit: nat,
)
    requires
        c.wf(),
        !tstep.at_most(R::nil()),
        !tstop.at_most(R::nil()),
    ensures
        ({
            let (report, state) = transient::tran_opening(c, tstep, tstop, true, limit);
            &&& report.lines.len() == 3
            &&& report.lines[2] == output::led(
                output::cell(R::nil()),
                output::row(Seq::new(output::selected(c).len(), |i: int| R::nil())),
            )
            &&& match state {
                Some(s) => s.x == solver::origin::<R>(c.unknowns() as nat),
                None => true,
            }
        }),
{
    let idx = output::selected(c);
    output::selected_unknowns_exist(c);
    assert(output::picked(solver::origin::<R>(c.unknowns() as nat), idx) =~= Seq::new(
        idx.len(),
        |i: int| R::nil(),
    ));
}

/// With the initial conditions in use, a finite one of a capacitor sets its
/// charge and a finite one of an inductor its flux.
pub proof fn initial_conditions_seed_the_state<R: Real>(
    c: CircuitModel<R>,
    tstep: R,
    tstop: R,
    limit: nat,
    i: int,
)
    requires
        transient::tran_opening(c, tstep, tstop, true, limit).1 is Some,
        0 <= i < c.devs.len(),
    ensures
        ({
            let s = transient::tran_opening(c, tstep, tstop, true, limit).1->0;
            match c.devs[i] {
                DevModel::C { p, n, v, ic, m } => ic.finite() ==> s.st[i] == (
                    models::charge(ic, v, m).0,
                    R::nil(),
                ),
                DevModel::L { p, n, v, br, ic } => ic.finite() ==> s.st[i] == (
                    v.times(ic),
                    R::nil(),
                ),
                _ => s.st[i] == (R::nil(), R::nil()),
            }
        }),
{
}

pub(crate) proof fn lemma_next_break<R: Real>(bp: Seq<R>, i: int, t: R)
    requires
        0 <= i <= bp.len(),
    ensures
        i <= transient::next_break(bp, i, t) <= bp.len(),
        forall|k: int|
            i <= k < transient::next_break(bp, i, t) ==> (#[trigger] bp[k]).at_most(t),
        transient::next_break(bp, i, t) < bp.len() ==> !bp[transient::next_break(
            bp,
            i,
            t,
        )].at_most(t),
        i < bp.len() && !bp[i].at_most(t) ==> transient::next_break(bp, i, t) == i,
    decreases bp.len() - i,
{
    if i < bp.len() && bp[i].at_most(t) {
        lemma_next_break(bp, i + 1, t);
    }
}

/// A step never passes a break time: the break times that are skipped have
/// been reached, and a step either ends on the next one, or so far before it
/// that at least the smallest step is left. In exact arithmetic the time after
/// a step that ends on a break time is that break time.
pub proof fn steps_land_on_break_times<R: Real>(c: CircuitModel<R>, s: TranModel<R>)
    requires
        s.wf(c),
    ensures
        ({
            let p = transient::trial(s);
            &&& s.bpi <= p.bpi <= s.bp.len()
            &&& forall|k: int|
                s.bpi <= k < p.bpi ==> (#[trigger] s.bp[k]).at_most(s.t.plus(s.hmin()))
            &&& p.bpi < s.bp.len() && !p.on_bp ==> !s.bp[p.bpi].minus(s.hmin()).at_most(
                s.t.plus(p.hs),
            )
            &&& p.on_bp && num::is_field::<R>() ==> s.t.plus(p.hs) == s.bp[p.bpi]
        }),
{
    let p = transient::trial(s);
    lemma_next_break(s.bp, s.bpi, s.t.plus(s.hmin()));
    if p.on_bp && num::is_field::<R>() {
        field::minus_plus(s.bp[p.bpi], s.t);
        field::plus_comm(s.t, s.bp[p.bpi].minus(s.t));
    }
}

/// A step is printed exactly if it was accepted. An attempt that was not
/// leaves time, solution, stored state and history alone; one that was moves
/// the time by the length of the step, and at a break time it drops the
/// history.
pub proof fn refused_steps_leave_no_trace<R: Real>(c: CircuitModel<R>, s: TranModel<R>)
    ensures
        match transient::stepped(c, s) {
            Ok((n, None)) => n == (TranModel { h: n.h, lim: n.lim, bpi: n.bpi, ..s }),
            Ok((n, Some(line))) => {
                let p = transient::trial(s);
                &&& n.t == s.t.plus(p.hs)
                &&& line == output::point_row(n.t, n.x, n.idx)
                &&& p.on_bp ==> n.old.len() == 0 && n.h == s.small_step()
                &&& n.idx == s.idx
            },
            Err(e) => true,
        },
{
}

/// A step that is accepted against a prediction has a truncation error within
/// what is tolerated, or it is so short that it is not shortened any more; the
/// next step is the smaller of some length and the one asked for. A step is
/// repeated only if its error is beyond what is tolerated.
pub proof fn accepted_steps_are_accurate<R: Real>(
    c: CircuitModel<R>,
    s: TranModel<R>,
    hs: R,
    xp: Seq<R>,
    xn: Seq<R>,
    iters: usize,
)
    ensures
        ({
            let fac = transient::error_share(hs, s.old[0].1, s.old[1].1);
            let r = transient::worst_error(
                c.nodes.len() as int,
                xn,
                xp,
                s.x,
                fac,
                c.unknowns(),
            );
            match transient::judged(c, s, hs, Some(xp), xn, iters) {
                Verdict::Accept(h) => {
                    &&& !R::unit().below(r) || !R::decimal(20, 0).times(s.hmin()).below(hs)
                    &&& exists|k: R| h == #[trigger] k.lesser_of(s.tstep)
                },
                Verdict::Repeat(h) => R::unit().below(r),
            }
        }),
{
}

/// Attempting `a` steps and then `b` more is the same as attempting `a + b`:
/// an analysis can be taken up where it was left.
pub proof fn analyses_can_be_taken_up_again<R: Real>(
    c: CircuitModel<R>,
    s: TranModel<R>,
    a: nat,
    b: nat,
)
    ensures
        ({
            let first = transient::advanced(c, s, a);
            let whole = transient::advanced(c, s, a + b);
            if first.end is Unfinished {
                let second = transient::advanced(c, first.state, b);
                whole == (Advance {
                    rows: first.rows + second.rows,
                    state: second.state,
                    end: second.end,
                })
            } else {
                whole == first
            }
        }),
    decreases a,
{
    if !s.pending() {
    } else if a == 0 {
        let second = transient::advanced(c, s, b);
        assert(Seq::<Seq<char>>::empty() + second.rows =~= second.rows);
    } else {
        match transient::stepped(c, s) {
            Err(_) => {},
            Ok((n, line)) => {
                analyses_can_be_taken_up_again(c, n, (a - 1) as nat, b);
                let first = transient::advanced(c, n, (a - 1) as nat);
                let second = transient::advanced(c, first.state, b);
                if line is Some {
                    let l = line->0;
                    assert(seq![l] + (first.rows + second.rows) =~= (seq![l] + first.rows)
                        + second.rows);
                }
            },
        }
    }
}

/// A finished analysis has reached its end up to the smallest step, and an
/// unfinished one has not.
pub proof fn finished_means_at_the_end<R: Real>(c: CircuitModel<R>, s: TranModel<R>, limit: nat)
    ensures
        ({
            let a = transient::advanced(c, s, limit);
            &&& a.end is Done ==> !a.state.pending()
            &&& a.end is Unfinished ==> a.state.pending()
            &&& a.rows.len() <= limit
        }),
    decreases limit,
{
    if s.pending() && limit > 0 {
        match transient::stepped(c, s) {
            Ok((n, _)) => finished_means_at_the_end(c, n, (limit - 1) as nat),
            Err(_) => {},
        }
    }
}

} // verus!
