//! The analyses of a netlist, one after the other.
use vstd::prelude::*;

use crate::circuit;
use crate::circuit::{Analysis, AnalysisModel, Circuit, CircuitModel};
use crate::num::Real;
use crate::output::{End, EndModel, Report, ReportModel};
use crate::small_signal;
use crate::small_signal::run_ac;
use crate::sweep;
use crate::sweep::{run_dc, run_op};
use crate::text;
use crate::transient;
use crate::transient::run_tran;

verus! {

/// The analyses to run: an operating point if the netlist asks for nothing.
pub open spec fn planned<R>(c: CircuitModel<R>) -> Seq<AnalysisModel<R>> {
    if c.analyses.len() == 0 {
        seq![AnalysisModel::Op]
    } else {
        c.analyses
    }
}

fn copy_analysis<R: Real>(a: &Analysis<R>) -> (r: Analysis<R>)
    ensures
        r@ == a@,
{
    match a {
        Analysis::Op => Analysis::Op,
        Analysis::Dc { src, start, stop, step } => Analysis::Dc {
            src: src.clone(),
            start: *start,
            stop: *stop,
            step: *step,
        },
        Analysis::Tran { tstep, tstop, uic } => Analysis::Tran {
            tstep: *tstep,
            tstop: *tstop,
            uic: *uic,
        },
        Analysis::Ac { dec, n, f1, f2 } => Analysis::Ac { dec: *dec, n: *n, f1: *f1, f2: *f2 },
    }
}

/// The analyses to run.
pub fn plan<R: Real>(ckt: &Circuit<R>) -> (r: Vec<Analysis<R>>)
    ensures
        circuit::analysis_models(r@) == planned(ckt@),
{
    let mut out: Vec<Analysis<R>> = Vec::new();
    if ckt.analyses.len() == 0 {
        out.push(Analysis::Op);
        proof {
            assert(circuit::analysis_models(out@) =~= planned(ckt@));
        }
        return out;
    }
    let mut i: usize = 0;
    while i < ckt.analyses.len()
        invariant
            i <= ckt.analyses@.len(),
            out@.len() == i,
            forall|k: int| 0 <= k < i ==> (#[trigger] out@[k])@ == ckt.analyses@[k]@,
        decreases ckt.analyses@.len() - i,
    {
        out.push(copy_analysis(&ckt.analyses[i]));
        i = i + 1;
    }
    proof {
        assert(circuit::analysis_models(out@) =~= planned(ckt@));
    }
    out
}

/// The report on one analysis.
pub open spec fn analysis_report<R: Real>(
    c: CircuitModel<R>,
    a: AnalysisModel<R>,
    limit: nat,
) -> ReportModel {
    match a {
        AnalysisModel::Op => sweep::op_report(c),
        AnalysisModel::Dc { src, start, stop, step } => sweep::dc_report(
            c,
            src,
            start,
            stop,
            step,
        ),
        AnalysisModel::Tran { tstep, tstop, uic } => transient::tran_report(
            c,
            tstep,
            tstop,
            uic,
            limit,
        ),
        AnalysisModel::Ac { dec, n, f1, f2 } => small_signal::ac_report(c, dec, n, f1, f2, limit),
    }
}

/// The circuit that a finished analysis leaves to the next one. Only a sweep
/// changes it.
pub open spec fn left_by<R: Real>(c: CircuitModel<R>, a: AnalysisModel<R>) -> CircuitModel<R> {
    match a {
        AnalysisModel::Dc { src, start, stop, step } => sweep::dc_leaves(
            c,
            src,
            start,
            stop,
            step,
        ),
        _ => c,
    }
}

/// Runs one analysis; `limit` bounds the steps of a transient analysis and the
/// frequencies of a small signal analysis.
pub fn run_analysis<R: Real>(ckt: &mut Circuit<R>, a: &Analysis<R>, limit: usize) -> (r: Report)
    requires
        old(ckt)@.wf(),
    ensures
        r@ == analysis_report(old(ckt)@, a@, limit as nat),
        final(ckt)@.wf(),
        r@.end is Done ==> final(ckt)@ == left_by(old(ckt)@, a@),
{
    match a {
        Analysis::Op => run_op(ckt),
        Analysis::Dc { src, start, stop, step } => run_dc(ckt, src.as_str(), *start, *stop, *step),
        Analysis::Tran { tstep, tstop, uic } => run_tran(ckt, *tstep, *tstop, *uic, limit),
        Analysis::Ac { dec, n, f1, f2 } => run_ac(ckt, *dec, *n, *f1, *f2, limit),
    }
}

/// The reports on the analyses from `i` on as one. The first analysis that is
/// not done is the last.
pub open spec fn session<R: Real>(
    c: CircuitModel<R>,
    plan: Seq<AnalysisModel<R>>,
    i: int,
    limit: nat,
) -> ReportModel
    decreases plan.len() - i,
{
    if i >= plan.len() {
        ReportModel { notes: Seq::empty(), lines: Seq::empty(), end: EndModel::Done }
    } else {
        let r = analysis_report(c, plan[i], limit);
        if r.end is Done {
            let rest = session(left_by(c, plan[i]), plan, i + 1, limit);
            ReportModel { notes: r.notes + rest.notes, lines: r.lines + rest.lines, end: rest.end }
        } else {
            r
        }
    }
}

/// Runs all analyses of a circuit.
pub fn simulate<R: Real>(ckt: &mut Circuit<R>, limit: usize) -> (r: Report)
    requires
        old(ckt)@.wf(),
    ensures
        r@ == session(old(ckt)@, planned(old(ckt)@), 0, limit as nat),
        final(ckt)@.wf(),
{
    let todo = plan(ckt);
    let ghost steps = circuit::analysis_models(todo@);
    let ghost all = session(ckt@, steps, 0, limit as nat);
    let mut notes: Vec<String> = Vec::new();
    let mut lines: Vec<String> = Vec::new();
    let mut i: usize = 0;
    proof {
        assert(text::texts(notes@) + all.notes =~= all.notes);
        assert(text::texts(lines@) + all.lines =~= all.lines);
    }
    while i < todo.len()
        invariant
            i <= todo@.len(),
            ckt@.wf(),
            steps == circuit::analysis_models(todo@),
            steps == planned(old(ckt)@),
            all == session(old(ckt)@, steps, 0, limit as nat),
            ({
                let now = session(ckt@, steps, i as int, limit as nat);
                &&& all.notes == text::texts(notes@) + now.notes
                &&& all.lines == text::texts(lines@) + now.lines
                &&& all.end == now.end
            }),
        decreases todo@.len() - i,
    {
        let ghost c = ckt@;
        let ghost n0 = notes@;
        let ghost l0 = lines@;
        let report = run_analysis(ckt, &todo[i], limit);
        let ghost model = report@;
        let Report { notes: more, lines: rows, end } = report;
        let mut more = more;
        let mut rows = rows;
        let ghost n1 = more@;
        let ghost l1 = rows@;
        notes.append(&mut more);
        lines.append(&mut rows);
        proof {
            assert(steps[i as int] == todo@[i as int]@);
            assert(text::texts(n0 + n1) =~= text::texts(n0) + text::texts(n1));
            assert(text::texts(l0 + l1) =~= text::texts(l0) + text::texts(l1));
        }
        match end {
            End::Done => {
                proof {
                    let rest = session(ckt@, steps, i + 1, limit as nat);
                    assert(text::texts(notes@) + rest.notes =~= text::texts(n0) + (model.notes
                        + rest.notes));
                    assert(text::texts(lines@) + rest.lines =~= text::texts(l0) + (model.lines
                        + rest.lines));
                }
            },
            other => {
                return Report { notes, lines, end: other };
            },
        }
        i = i + 1;
    }
    let r = Report { notes, lines, end: End::Done };
    proof {
        assert(r@ =~= all);
    }
    r
}

/// A netlist that asks for no analysis gets the operating point.
pub proof fn no_analysis_means_operating_point<R: Real>(c: CircuitModel<R>, limit: nat)
    requires
        c.analyses.len() == 0,
    ensures
        session(c, planned(c), 0, limit) == sweep::op_report(c),
{
    let r = sweep::op_report(c);
    reveal_with_fuel(session, 2);
    assert(r.notes + Seq::<Seq<char>>::empty() =~= r.notes);
    assert(r.lines + Seq::<Seq<char>>::empty() =~= r.lines);
}

} // verus!
