//! Transient analysis with a step control by the local truncation error.
use vstd::prelude::*;

use crate::assembly::{Mode, ModeModel};
use crate::breaks;
use crate::breaks::breakpoints;
use crate::circuit::{Circuit, CircuitModel};
use crate::fault::{SimError, SimFault};
use crate::models;
use crate::models::gmin;
use crate::num;
use crate::num::{clamp, Real};
use crate::output;
use crate::output::{
    complain, failed, lead, selection, show_point, End, EndModel, Report, ReportModel,
};
use crate::solver;
use crate::solver::{
    init_state, newton, op_solve, tolv, update_state, zero_pairs, zeros, ITL_TRAN,
};
use crate::text;
use crate::text::{join, put};

verus! {

/// A transient analysis under way. `old` holds up to two earlier solutions,
/// the most recent one first, each with the step that led away from it.
pub struct Tran<R> {
    pub tstep: R,
    pub tstop: R,
    pub t: R,
    pub h: R,
    pub x: Vec<R>,
    pub lim: Vec<(R, R)>,
    pub st: Vec<(R, R)>,
    pub old: Vec<(Vec<R>, R)>,
    pub bp: Vec<R>,
    pub bpi: usize,
    pub idx: Vec<usize>,
}

#[verifier::ext_equal]
pub struct TranModel<R> {
    pub tstep: R,
    pub tstop: R,
    pub t: R,
    pub h: R,
    pub x: Seq<R>,
    pub lim: Seq<(R, R)>,
    pub st: Seq<(R, R)>,
    pub old: Seq<(Seq<R>, R)>,
    pub bp: Seq<R>,
    pub bpi: int,
    pub idx: Seq<usize>,
}

pub open spec fn histories<R>(v: Seq<(Vec<R>, R)>) -> Seq<(Seq<R>, R)> {
    Seq::new(v.len(), |i: int| (v[i].0@, v[i].1))
}

impl<R> View for Tran<R> {
    type V = TranModel<R>;

    open spec fn view(&self) -> TranModel<R> {
        TranModel {
            tstep: self.tstep,
            tstop: self.tstop,
            t: self.t,
            h: self.h,
            x: self.x@,
            lim: self.lim@,
            st: self.st@,
            old: histories(self.old@),
            bp: self.bp@,
            bpi: self.bpi as int,
            idx: self.idx@,
        }
    }
}

impl<R: Real> TranModel<R> {
    /// The state fits the circuit.
    pub open spec fn wf(self, c: CircuitModel<R>) -> bool {
        &&& c.wf()
        &&& self.x.len() == c.unknowns()
        &&& self.lim.len() == c.devs.len()
        &&& self.st.len() == c.devs.len()
        &&& self.old.len() <= 2
        &&& forall|i: int|
            0 <= i < self.old.len() ==> (#[trigger] self.old[i]).0.len() == c.unknowns()
        &&& 0 <= self.bpi <= self.bp.len()
        &&& self.idx == output::selected(c)
    }

    /// The smallest step.
    pub open spec fn hmin(self) -> R {
        self.tstop.times(R::decimal(1, -12))
    }

    /// The step to start with and to restart with.
    pub open spec fn small_step(self) -> R {
        self.tstep.over(R::decimal(100, 0))
    }

    /// The end of the analysis has not been reached.
    pub open spec fn pending(self) -> bool {
        self.t.below(self.tstop.minus(self.hmin()))
    }
}

/// The first break time from `i` on that lies behind `t`.
pub open spec fn next_break<R: Real>(bp: Seq<R>, i: int, t: R) -> int
    decreases bp.len() - i,
{
    if 0 <= i < bp.len() && bp[i].at_most(t) {
        next_break(bp, i + 1, t)
    } else {
        i
    }
}

/// A step to be tried: its length, and whether it ends on a break time.
pub struct Trial<R> {
    pub bpi: int,
    pub hs: R,
    pub on_bp: bool,
}

/// The step tried from a state: cut off at the end of the analysis and at the
/// next break time.
pub open spec fn trial<R: Real>(s: TranModel<R>) -> Trial<R> {
    let bpi = next_break(s.bp, s.bpi, s.t.plus(s.hmin()));
    let h = s.h.lesser_of(s.tstop.minus(s.t));
    let on_bp = bpi < s.bp.len() && s.bp[bpi].minus(s.hmin()).at_most(s.t.plus(h));
    Trial {
        bpi,
        hs: if on_bp {
            s.bp[bpi].minus(s.t)
        } else {
            h
        },
        on_bp,
    }
}

/// The weights of the current and the two earlier solutions in the quadratic
/// through them, `h` ahead of the current one, when `d1` and `d2` are the
/// steps between them.
pub open spec fn predictor_weights<R: Real>(h: R, d1: R, d2: R) -> (R, R, R) {
    let a = h.plus(d1);
    let b = a.plus(d2);
    let d = d1.plus(d2);
    (
        a.times(b).over(d1.times(d)),
        h.opposite().times(b).over(d1.times(d2)),
        h.times(a).over(d.times(d2)),
    )
}

pub open spec fn predicted<R: Real>(
    x: Seq<R>,
    old: Seq<(Seq<R>, R)>,
    h: R,
) -> Seq<R> {
    let (l0, l1, l2) = predictor_weights(h, old[0].1, old[1].1);
    Seq::new(
        x.len(),
        |i: int| l0.times(x[i]).plus(l1.times(old[0].0[i])).plus(l2.times(old[1].0[i])),
    )
}

/// The solution predicted from the history, once that is long enough.
pub open spec fn prediction<R: Real>(s: TranModel<R>, h: R) -> Option<Seq<R>> {
    if s.old.len() == 2 {
        Some(predicted(s.x, s.old, h))
    } else {
        None
    }
}

/// The share of the trapezoidal rule in the gap between the corrector and the
/// predictor: both errors are proportional to the third derivative.
pub open spec fn error_share<R: Real>(h: R, d1: R, d2: R) -> R {
    let e = h.times(h).times(h).over(R::decimal(12, 0));
    let a = h.plus(d1);
    e.over(h.times(a).times(a.plus(d2)).over(R::decimal(6, 0)).plus(e))
}

/// The worst truncation error among the unknowns from 1 up to `i - 1`, in
/// units of what is tolerated.
pub open spec fn worst_error<R: Real>(
    nn: int,
    xn: Seq<R>,
    xp: Seq<R>,
    x: Seq<R>,
    fac: R,
    i: int,
) -> R
    decreases i,
{
    if i <= 1 {
        R::nil()
    } else {
        worst_error(nn, xn, xp, x, fac, i - 1).greater_of(
            fac.times(xn[i - 1].minus(xp[i - 1]).size()).over(
                R::decimal(7, 0).times(solver::tolerance(i - 1, nn, xn[i - 1], x[i - 1])),
            ),
        )
    }
}

/// What becomes of a step that converged: it is accepted with a length for the
/// next one, or to be repeated with a shorter one.
pub enum Verdict<R> {
    Accept(R),
    Repeat(R),
}

/// By how much a step is scaled after one with the error `r`, the cube root of
/// which is proportional to the step.
pub open spec fn step_scale<R: Real>(r: R) -> R {
    R::decimal(9, -1).over(r.greater_of(R::decimal(1, -8)).cube_root())
}

/// The verdict on a converged step.
pub open spec fn judged<R: Real>(
    c: CircuitModel<R>,
    s: TranModel<R>,
    hs: R,
    pred: Option<Seq<R>>,
    xn: Seq<R>,
    iters: usize,
) -> Verdict<R> {
    match pred {
        None => Verdict::Accept(
            if iters <= ITL_TRAN / 2 {
                R::decimal(2, 0).times(hs).lesser_of(s.tstep)
            } else {
                hs
            },
        ),
        Some(xp) => {
            let fac = error_share(hs, s.old[0].1, s.old[1].1);
            let r = worst_error(c.nodes.len() as int, xn, xp, s.x, fac, c.unknowns());
            let scale = step_scale(r);
            if R::unit().below(r) && R::decimal(20, 0).times(s.hmin()).below(hs) {
                Verdict::Repeat(
                    hs.times(num::clamped(scale, R::decimal(125, -3), R::decimal(9, -1))),
                )
            } else {
                Verdict::Accept(
                    hs.times(num::clamped(scale, R::decimal(3, -1), R::decimal(2, 0))).lesser_of(
                        s.tstep,
                    ),
                )
            }
        },
    }
}

/// The state after an accepted step. The slope of a source jumps at a break
/// time: the history is dropped there and the step made small again.
pub open spec fn accepted<R: Real>(
    c: CircuitModel<R>,
    s: TranModel<R>,
    p: Trial<R>,
    xn: Seq<R>,
    lim: Seq<(R, R)>,
    hnew: R,
) -> TranModel<R> {
    let be = s.old.len() < 2;
    TranModel {
        t: s.t.plus(p.hs),
        h: if p.on_bp {
            s.small_step()
        } else {
            hnew
        },
        x: xn,
        lim,
        st: solver::next_states(c, xn, p.hs, s.st, be),
        old: if p.on_bp {
            Seq::empty()
        } else if s.old.len() == 0 {
            seq![(s.x, p.hs)]
        } else {
            seq![(s.x, p.hs), s.old[0]]
        },
        bpi: p.bpi,
        ..s
    }
}

/// One attempt at a step: the new state with the row to print if the step was
/// accepted. The predictor is the point to start from; steps without one use
/// the backward Euler rule.
pub open spec fn stepped<R: Real>(c: CircuitModel<R>, s: TranModel<R>) -> Result<
    (TranModel<R>, Option<Seq<char>>),
    SimFault,
> {
    let p = trial(s);
    let pred = prediction(s, p.hs);
    let from = match pred {
        Some(xp) => xp,
        None => s.x,
    };
    let mode = ModeModel::Tran { h: p.hs, t: s.t.plus(p.hs), st: s.st, be: s.old.len() < 2 };
    match solver::converged(
        c,
        from,
        s.lim,
        mode,
        models::min_conductance::<R>(),
        ITL_TRAN as int,
    ) {
        Err(e) => Err(e),
        Ok(it) => match it.done {
            None => {
                let h = p.hs.over(R::decimal(8, 0));
                if h.below(s.hmin()) {
                    Err(SimFault::StepTooSmall(s.t.shown(3)))
                } else {
                    Ok((TranModel { h, lim: it.lim, bpi: p.bpi, ..s }, None))
                }
            },
            Some(iters) => match judged(c, s, p.hs, pred, it.x, iters) {
                Verdict::Repeat(h) => Ok(
                    (TranModel { h, lim: it.lim, bpi: p.bpi, ..s }, None),
                ),
                Verdict::Accept(hnew) => {
                    let n = accepted(c, s, p, it.x, it.lim, hnew);
                    Ok((n, Some(output::point_row(n.t, n.x, n.idx))))
                },
            },
        },
    }
}

/// What up to `limit` attempts bring: the rows printed, the state reached and
/// how it ended.
pub struct Advance<R> {
    pub rows: Seq<Seq<char>>,
    pub state: TranModel<R>,
    pub end: EndModel,
}

pub open spec fn advanced<R: Real>(c: CircuitModel<R>, s: TranModel<R>, limit: nat) -> Advance<R>
    decreases limit,
{
    if !s.pending() {
        Advance { rows: Seq::empty(), state: s, end: EndModel::Done }
    } else if limit == 0 {
        Advance { rows: Seq::empty(), state: s, end: EndModel::Unfinished }
    } else {
        match stepped(c, s) {
            Err(e) => Advance { rows: Seq::empty(), state: s, end: EndModel::Failed(e) },
            Ok((n, line)) => {
                let a = advanced(c, n, (limit - 1) as nat);
                match line {
                    Some(l) => Advance { rows: seq![l] + a.rows, ..a },
                    None => a,
                }
            },
        }
    }
}

/// The state at time 0: the operating point, or everything at zero where the
/// initial conditions are given.
pub open spec fn first_point<R: Real>(c: CircuitModel<R>, uic: bool) -> Result<
    (Seq<R>, Seq<(R, R)>),
    SimFault,
> {
    if uic {
        Ok((solver::origin(c.unknowns() as nat), solver::relaxed(c.devs.len())))
    } else {
        solver::resting_point(c)
    }
}

pub open spec fn first_tran<R: Real>(
    c: CircuitModel<R>,
    tstep: R,
    tstop: R,
    uic: bool,
    x: Seq<R>,
    lim: Seq<(R, R)>,
    bp: Seq<R>,
) -> TranModel<R> {
    TranModel {
        tstep,
        tstop,
        t: R::nil(),
        h: tstep.over(R::decimal(100, 0)),
        x,
        lim,
        st: solver::first_states(c, x, uic),
        old: Seq::empty(),
        bp,
        bpi: 0,
        idx: output::selected(c),
    }
}

/// The lines before the first step.
pub open spec fn tran_head<R: Real>(c: CircuitModel<R>, x: Seq<R>) -> Seq<Seq<char>> {
    let idx = output::selected(c);
    seq![
        "# tran"@,
        output::led("time"@, text::joined(output::headings(c, idx), ","@)),
        output::point_row(R::nil(), x, idx),
    ]
}

/// The opening of a transient analysis: its report so far, and the state to
/// go on from unless it failed or a source repeats more than `limit` times.
pub open spec fn tran_opening<R: Real>(
    c: CircuitModel<R>,
    tstep: R,
    tstop: R,
    uic: bool,
    limit: nat,
) -> (ReportModel, Option<TranModel<R>>) {
    if tstep.at_most(R::nil()) || tstop.at_most(R::nil()) {
        (output::failure(SimFault::BadTran), None)
    } else {
        match first_point(c, uic) {
            Err(e) => (output::failure(e), None),
            Ok((x, lim)) => (
                ReportModel {
                    notes: output::complaints(output::missing(c)),
                    lines: tran_head(c, x),
                    end: EndModel::Unfinished,
                },
                match breaks::break_times(c, tstop, limit) {
                    None => None,
                    Some(bp) => Some(first_tran(c, tstep, tstop, uic, x, lim, bp)),
                },
            ),
        }
    }
}

/// The report on a transient analysis of up to `limit` attempted steps.
pub open spec fn tran_report<R: Real>(
    c: CircuitModel<R>,
    tstep: R,
    tstop: R,
    uic: bool,
    limit: nat,
) -> ReportModel {
    let (opening, state) = tran_opening(c, tstep, tstop, uic, limit);
    match state {
        None => opening,
        Some(s) => {
            let a = advanced(c, s, limit);
            ReportModel {
                lines: opening.lines + a.rows + (if a.end is Done {
                    seq![""@]
                } else {
                    Seq::empty()
                }),
                end: a.end,
                ..opening
            }
        },
    }
}

fn copied<R: Real>(v: &Vec<R>) -> (r: Vec<R>)
    ensures
        r@ == v@,
{
    let mut out: Vec<R> = Vec::new();
    let mut i: usize = 0;
    while i < v.len()
        invariant
            i <= v@.len(),
            out@ == v@.take(i as int),
        decreases v@.len() - i,
    {
        out.push(v[i]);
        i = i + 1;
        proof {
            assert(v@.take(i as int) =~= v@.take(i - 1).push(v@[i - 1]));
        }
    }
    proof {
        assert(v@.take(v@.len() as int) =~= v@);
    }
    out
}

fn error_of_step<R: Real>(
    nn: usize,
    xn: &Vec<R>,
    xp: &Vec<R>,
    x: &Vec<R>,
    fac: R,
) -> (r: R)
    requires
        xn@.len() == x@.len(),
        xp@.len() == x@.len(),
        x@.len() > 0,
    ensures
        r == worst_error(nn as int, xn@, xp@, x@, fac, x@.len() as int),
{
    let mut r = R::zero();
    let mut i: usize = 1;
    while i < x.len()
        invariant
            1 <= i <= x@.len(),
            xn@.len() == x@.len(),
            xp@.len() == x@.len(),
            r == worst_error(nn as int, xn@, xp@, x@, fac, i as int),
        decreases x@.len() - i,
    {
        r = r.max(
            fac.mul(xn[i].sub(xp[i]).abs()).div(R::lit(7, 0).mul(tolv(i, nn, xn[i], x[i]))),
        );
        i = i + 1;
    }
    r
}

impl<R: Real> Tran<R> {
    fn smallest(&self) -> (r: R)
        ensures
            r == self@.hmin(),
    {
        self.tstop.mul(R::lit(1, -12))
    }

    /// Whether the end of the analysis has not been reached.
    pub fn is_pending(&self) -> (r: bool)
        ensures
            r == self@.pending(),
    {
        self.t.lt(self.tstop.sub(self.smallest()))
    }

    fn skip_breaks(&self) -> (r: usize)
        requires
            0 <= self@.bpi <= self@.bp.len(),
        ensures
            r <= self@.bp.len(),
            r == next_break(self@.bp, self@.bpi, self@.t.plus(self@.hmin())),
    {
        let after = self.t.add(self.smallest());
        let mut i: usize = self.bpi;
        while i < self.bp.len() && self.bp[i].le(after)
            invariant
                i <= self.bp@.len(),
                after == self@.t.plus(self@.hmin()),
                next_break(self@.bp, self@.bpi, after) == next_break(self@.bp, i as int, after),
            decreases self.bp@.len() - i,
        {
            i = i + 1;
        }
        i
    }

    fn predict(&self, h: R) -> (r: Option<Vec<R>>)
        requires
            self@.old.len() <= 2,
            forall|i: int|
                0 <= i < self@.old.len() ==> (#[trigger] self@.old[i]).0.len() == self@.x.len(),
        ensures
            match r {
                Some(v) => prediction(self@, h) == Some(v@) && v@.len() == self@.x.len(),
                None => prediction(self@, h) is None,
            },
    {
        if self.old.len() != 2 {
            return None;
        }
        let o0 = &self.old[0];
        let o1 = &self.old[1];
        let d1 = o0.1;
        let d2 = o1.1;
        let a = h.add(d1);
        let b = a.add(d2);
        let d = d1.add(d2);
        let l0 = a.mul(b).div(d1.mul(d));
        let l1 = h.neg().mul(b).div(d1.mul(d2));
        let l2 = h.mul(a).div(d.mul(d2));
        let ghost all = predicted(self@.x, self@.old, h);
        proof {
            assert(self@.old[0] == (o0.0@, d1));
            assert(self@.old[1] == (o1.0@, d2));
        }
        let mut out: Vec<R> = Vec::new();
        let mut i: usize = 0;
        while i < self.x.len()
            invariant
                i <= self.x@.len(),
                o0.0@.len() == self.x@.len(),
                o1.0@.len() == self.x@.len(),
                self@.old[0] == (o0.0@, d1),
                self@.old[1] == (o1.0@, d2),
                (l0, l1, l2) == predictor_weights(h, d1, d2),
                all == predicted(self@.x, self@.old, h),
                out@ == all.take(i as int),
            decreases self.x@.len() - i,
        {
            out.push(
                l0.mul(self.x[i]).add(l1.mul(o0.0[i])).add(l2.mul(o1.0[i])),
            );
            i = i + 1;
            proof {
                assert(out@ =~= all.take(i as int));
            }
        }
        proof {
            assert(all.take(all.len() as int) =~= all);
        }
        Some(out)
    }

    fn judge(
        &self,
        ckt: &Circuit<R>,
        hs: R,
        pred: &Option<Vec<R>>,
        xn: &Vec<R>,
        iters: usize,
    ) -> (r: Verdict<R>)
        requires
            self@.wf(ckt@),
            xn@.len() == self@.x.len(),
            match pred {
                Some(v) => v@.len() == self@.x.len() && self@.old.len() == 2,
                None => true,
            },
        ensures
            r == judged(
                ckt@,
                self@,
                hs,
                match pred {
                    Some(v) => Some(v@),
                    None => None,
                },
                xn@,
                iters,
            ),
    {
        match pred {
            None => {
                if iters <= ITL_TRAN / 2 {
                    Verdict::Accept(R::lit(2, 0).mul(hs).min(self.tstep))
                } else {
                    Verdict::Accept(hs)
                }
            },
            Some(xp) => {
                let d1 = self.old[0].1;
                let d2 = self.old[1].1;
                proof {
                    assert(self@.old[0].1 == d1);
                    assert(self@.old[1].1 == d2);
                }
                let e = hs.mul(hs).mul(hs).div(R::lit(12, 0));
                let a = hs.add(d1);
                let fac = e.div(hs.mul(a).mul(a.add(d2)).div(R::lit(6, 0)).add(e));
                let r = error_of_step(ckt.nodes.len(), xn, xp, &self.x, fac);
                let scale = R::lit(9, -1).div(r.max(R::lit(1, -8)).cbrt());
                if R::one().lt(r) && R::lit(20, 0).mul(self.smallest()).lt(hs) {
                    Verdict::Repeat(hs.mul(clamp(scale, R::lit(125, -3), R::lit(9, -1))))
                } else {
                    Verdict::Accept(
                        hs.mul(clamp(scale, R::lit(3, -1), R::lit(2, 0))).min(self.tstep),
                    )
                }
            },
        }
    }

    /// Attempts one step; the row to print if it was accepted.
    pub fn step(&mut self, ckt: &Circuit<R>) -> (r: Result<Option<String>, SimError>)
        requires
            old(self)@.wf(ckt@),
        ensures
            final(self)@.wf(ckt@),
            match r {
                Ok(line) => stepped(ckt@, old(self)@) == Ok::<
                    (TranModel<R>, Option<Seq<char>>),
                    SimFault,
                >(
                    (
                        final(self)@,
                        match line {
                            Some(l) => Some(l@),
                            None => None,
                        },
                    ),
                ),
                Err(e) => stepped(ckt@, old(self)@) == Err::<
                    (TranModel<R>, Option<Seq<char>>),
                    SimFault,
                >(e@),
            },
    {
        let ghost s = self@;
        let ghost p = trial(s);
        let hmin = self.smallest();
        let bpi: usize = self.skip_breaks();
        let h = self.h.min(self.tstop.sub(self.t));
        let on_bp = bpi < self.bp.len() && self.bp[bpi].sub(hmin).le(self.t.add(h));
        let hs = if on_bp {
            self.bp[bpi].sub(self.t)
        } else {
            h
        };
        let pred = self.predict(hs);
        let be = self.old.len() < 2;
        let mut xn = match &pred {
            Some(v) => copied(v),
            None => copied(&self.x),
        };
        let to = self.t.add(hs);
        let outcome = newton(
            ckt,
            &mut xn,
            &mut self.lim,
            &Mode::Tran { h: hs, t: to, st: &self.st, be },
            gmin::<R>(),
            ITL_TRAN,
        );
        let iters = match outcome {
            Err(e) => {
                proof {
                    assert(self@.old =~= s.old);
                }
                return Err(e);
            },
            Ok(done) => done,
        };
        match iters {
            None => {
                let shorter = hs.div(R::lit(8, 0));
                if shorter.lt(hmin) {
                    return Err(SimError::StepTooSmall(self.t.show(3)));
                }
                self.bpi = bpi;
                self.h = shorter;
                return Ok(None);
            },
            Some(n) => {
                let verdict = self.judge(ckt, hs, &pred, &xn, n);
                match verdict {
                    Verdict::Repeat(shorter) => {
                        self.bpi = bpi;
                        self.h = shorter;
                        Ok(None)
                    },
                    Verdict::Accept(hnew) => {
                        self.bpi = bpi;
                        self.t = to;
                        update_state(ckt, xn.as_slice(), hs, &mut self.st, be);
                        self.shift(xn, hs, on_bp);
                        if on_bp {
                            self.h = self.tstep.div(R::lit(100, 0));
                        } else {
                            self.h = hnew;
                        }
                        proof {
                            output::selected_unknowns_exist(ckt@);
                        }
                        Ok(Some(show_point(self.t, self.x.as_slice(), self.idx.as_slice())))
                    },
                }
            },
        }
    }

    /// Makes `xn` the current solution and the current one the most recent of
    /// the history, or drops the history.
    fn shift(&mut self, xn: Vec<R>, hs: R, drop: bool)
        requires
            old(self)@.old.len() <= 2,
        ensures
            final(self)@ == (TranModel {
                x: xn@,
                old: if drop {
                    Seq::empty()
                } else if old(self)@.old.len() == 0 {
                    seq![(old(self)@.x, hs)]
                } else {
                    seq![(old(self)@.x, hs), old(self)@.old[0]]
                },
                ..old(self)@
            }),
    {
        let ghost s = self@;
        let mut was = xn;
        std::mem::swap(&mut was, &mut self.x);
        if drop {
            self.old = Vec::new();
            proof {
                assert(self@.old =~= Seq::empty());
            }
        } else {
            if self.old.len() == 2 {
                let _ = self.old.pop();
            }
            self.old.insert(0, (was, hs));
            proof {
                assert(self@.old =~= if s.old.len() == 0 {
                    seq![(s.x, hs)]
                } else {
                    seq![(s.x, hs), s.old[0]]
                });
            }
        }
    }

    /// Attempts up to `limit` steps; the rows of the accepted ones and how it
    /// ended. An analysis left unfinished can be taken up again.
    pub fn advance(&mut self, ckt: &Circuit<R>, limit: usize) -> (r: (Vec<String>, End))
        requires
            old(self)@.wf(ckt@),
        ensures
            final(self)@.wf(ckt@),
            ({
                let a = advanced(ckt@, old(self)@, limit as nat);
                &&& text::texts(r.0@) == a.rows
                &&& r.1@ == a.end
                &&& !(a.end is Failed) ==> final(self)@ == a.state
            }),
    {
        let ghost all = advanced(ckt@, self@, limit as nat);
        let mut rows: Vec<String> = Vec::new();
        let mut left: usize = limit;
        proof {
            assert(text::texts(rows@) + all.rows =~= all.rows);
        }
        while self.is_pending()
            invariant
                self@.wf(ckt@),
                all == advanced(ckt@, old(self)@, limit as nat),
                ({
                    let a = advanced(ckt@, self@, left as nat);
                    &&& all.rows == text::texts(rows@) + a.rows
                    &&& all.end == a.end
                    &&& all.state == a.state
                }),
            decreases left,
        {
            if left == 0 {
                proof {
                    assert(text::texts(rows@) + Seq::<Seq<char>>::empty() =~= text::texts(rows@));
                }
                return (rows, End::Unfinished);
            }
            let ghost shown = text::texts(rows@);
            match self.step(ckt) {
                Err(e) => {
                    proof {
                        assert(shown + Seq::<Seq<char>>::empty() =~= shown);
                    }
                    return (rows, End::Failed(e));
                },
                Ok(line) => {
                    left = left - 1;
                    match line {
                        Some(l) => {
                            put(&mut rows, l);
                            proof {
                                let a = advanced(ckt@, self@, left as nat);
                                assert(shown + (seq![l@] + a.rows) =~= text::texts(rows@) + a.rows);
                            }
                        },
                        None => {},
                    }
                },
            }
        }
        proof {
            assert(text::texts(rows@) + Seq::<Seq<char>>::empty() =~= text::texts(rows@));
        }
        (rows, End::Done)
    }
}

/// Opens a transient analysis.
pub fn start_tran<R: Real>(ckt: &Circuit<R>, tstep: R, tstop: R, uic: bool, limit: usize) -> (r: (
    Report,
    Option<Tran<R>>,
))
    requires
        ckt@.wf(),
    ensures
        ({
            let (report, state) = tran_opening(ckt@, tstep, tstop, uic, limit as nat);
            &&& r.0@ == report
            &&& match r.1 {
                Some(s) => state == Some(s@) && s@.wf(ckt@),
                None => state is None,
            }
        }),
{
    if tstep.le(R::zero()) || tstop.le(R::zero()) {
        return (failed(SimError::BadTran), None);
    }
    let m: usize = ckt.nodes.len() + ckt.nb;
    let mut x = zeros::<R>(m);
    let mut lim = zero_pairs::<R>(ckt.devs.len());
    if !uic {
        match op_solve(ckt, &mut x, &mut lim) {
            Err(e) => {
                return (failed(e), None);
            },
            Ok(_) => {},
        }
    }
    let st = init_state(ckt, x.as_slice(), uic);
    let sel = selection(ckt);
    proof {
        output::selected_unknowns_exist(ckt@);
    }
    let mut lines: Vec<String> = Vec::new();
    put(&mut lines, "# tran".to_owned());
    put(&mut lines, lead("time", join(&sel.names, ",").as_str()));
    put(&mut lines, show_point(R::zero(), x.as_slice(), sel.idx.as_slice()));
    let report = Report { notes: complain(&sel.missing), lines, end: End::Unfinished };
    proof {
        assert(report@.lines =~= tran_head(ckt@, x@));
    }
    match breakpoints(ckt, tstop, limit) {
        None => (report, None),
        Some(bp) => {
            let state = Tran {
                tstep,
                tstop,
                t: R::zero(),
                h: tstep.div(R::lit(100, 0)),
                x,
                lim,
                st,
                old: Vec::new(),
                bp,
                bpi: 0,
                idx: sel.idx,
            };
            proof {
                assert(state@.old =~= Seq::empty());
            }
            (report, Some(state))
        },
    }
}

/// Runs a transient analysis of up to `limit` attempted steps.
pub fn run_tran<R: Real>(ckt: &Circuit<R>, tstep: R, tstop: R, uic: bool, limit: usize) -> (r:
    Report)
    requires
        ckt@.wf(),
    ensures
        r@ == tran_report(ckt@, tstep, tstop, uic, limit as nat),
{
    let (mut report, state) = start_tran(ckt, tstep, tstop, uic, limit);
    let ghost opening = report@;
    match state {
        None => report,
        Some(mut s) => {
            let (mut rows, end) = s.advance(ckt, limit);
            let ghost a = text::texts(rows@);
            let done = match &end {
                End::Done => true,
                _ => false,
            };
            if done {
                put(&mut rows, "".to_owned());
            }
            let Report { notes, lines, end: _ } = report;
            let mut lines = lines;
            let ghost first = lines@;
            let ghost more = rows@;
            lines.append(&mut rows);
            let whole = Report { notes, lines, end };
            proof {
                assert(text::texts(first + more) =~= text::texts(first) + text::texts(more));
                assert(whole@.lines =~= tran_report(
                    ckt@,
                    tstep,
                    tstop,
                    uic,
                    limit as nat,
                ).lines);
            }
            whole
        },
    }
}

} // verus!
