//! Operating point and source sweep.
use vstd::prelude::*;

use crate::circuit;
use crate::circuit::{Circuit, CircuitModel, Dev, DevModel};
use crate::fault::{SimError, SimFault};
use crate::num;
use crate::num::{is_same, Real};
use crate::output;
use crate::output::{
    complain, failed, fmt_row, lead, pick, selection, show_point, End, EndModel, Report,
    ReportModel,
};
use crate::solver;
use crate::solver::{op_setup, op_solve, zero_pairs, zeros};
use crate::text;
use crate::text::{equal, join, put};

verus! {

/// The report on the operating point.
pub open spec fn op_report<R: Real>(c: CircuitModel<R>) -> ReportModel {
    match solver::resting_point(c) {
        Err(e) => output::failure(e),
        Ok((x, _)) => {
            let idx = output::selected(c);
            ReportModel {
                notes: output::complaints(output::missing(c)),
                lines: seq![
                    "# op"@,
                    text::joined(output::headings(c, idx), ","@),
                    output::row(output::picked(x, idx)),
                    ""@,
                ],
                end: EndModel::Done,
            }
        },
    }
}

pub fn run_op<R: Real>(ckt: &Circuit<R>) -> (r: Report)
    requires
        ckt@.wf(),
    ensures
        r@ == op_report(ckt@),
{
    let (_, x, _) = match op_setup(ckt) {
        Err(e) => {
            return failed(e);
        },
        Ok(p) => p,
    };
    let sel = selection(ckt);
    proof {
        output::selected_unknowns_exist(ckt@);
    }
    let mut lines: Vec<String> = Vec::new();
    put(&mut lines, "# op".to_owned());
    put(&mut lines, join(&sel.names, ","));
    put(&mut lines, fmt_row(pick(x.as_slice(), sel.idx.as_slice()).as_slice()));
    put(&mut lines, "".to_owned());
    let r = Report { notes: complain(&sel.missing), lines, end: End::Done };
    proof {
        assert(r@.lines =~= op_report(ckt@).lines);
    }
    r
}

/// The first device with the given name.
pub open spec fn device_named(names: Seq<Seq<char>>, src: Seq<char>) -> Option<int> {
    names.index_of_first(src)
}

fn find_device<R: Real>(ckt: &Circuit<R>, src: &str) -> (r: Option<usize>)
    ensures
        match r {
            Some(i) => device_named(ckt@.names, src@) == Some(i as int) && i < ckt@.names.len(),
            None => device_named(ckt@.names, src@) is None,
        },
{
    let mut i: usize = 0;
    while i < ckt.names.len()
        invariant
            i <= ckt.names@.len(),
            forall|k: int| 0 <= k < i ==> #[trigger] ckt@.names[k] != src@,
        decreases ckt.names@.len() - i,
    {
        proof {
            assert(ckt@.names[i as int] == ckt.names@[i as int]@);
        }
        if equal(ckt.names[i].as_str(), src) {
            proof {
                ckt@.names.index_of_first_ensures(src@);
            }
            return Some(i);
        }
        i = i + 1;
    }
    proof {
        ckt@.names.index_of_first_ensures(src@);
    }
    None
}

/// The source set to a constant value, if the device is a source. A time
/// course is dropped: the sweep owns the source.
pub open spec fn tuned<R>(d: DevModel<R>, val: R) -> Option<DevModel<R>> {
    match d {
        DevModel::V { p, n, dc, ac, wave, br } => Some(
            DevModel::V { p, n, dc: val, ac, wave: None, br },
        ),
        DevModel::I { p, n, dc, ac, wave } => Some(DevModel::I { p, n, dc: val, ac, wave: None }),
        _ => None,
    }
}

fn tune<R: Real>(d: &Dev<R>, val: R) -> (r: Option<Dev<R>>)
    ensures
        match r {
            Some(e) => tuned(d@, val) == Some(e@),
            None => tuned(d@, val) is None,
        },
{
    match d {
        Dev::V { p, n, dc, ac, wave, br } => Some(
            Dev::V { p: *p, n: *n, dc: val, ac: *ac, wave: None, br: *br },
        ),
        Dev::I { p, n, dc, ac, wave } => Some(
            Dev::I { p: *p, n: *n, dc: val, ac: *ac, wave: None },
        ),
        _ => None,
    }
}

/// The circuit with source `di` at the value `val`.
pub open spec fn with_source<R>(c: CircuitModel<R>, di: int, val: R) -> CircuitModel<R> {
    match tuned(c.devs[di], val) {
        Some(d) => CircuitModel { devs: c.devs.update(di, d), ..c },
        None => c,
    }
}

proof fn lemma_tuned_branches<R>(c: CircuitModel<R>, di: int, val: R, i: int)
    requires
        0 <= di < c.devs.len(),
        0 <= i <= c.devs.len(),
    ensures
        circuit::branch_count(with_source(c, di, val).devs, i) == circuit::branch_count(c.devs, i),
        with_source(c, di, val).branch_names(i) == c.branch_names(i),
    decreases i,
{
    if i > 0 {
        lemma_tuned_branches(c, di, val, i - 1);
    }
}

/// Setting a source changes neither the shape of the circuit nor what is
/// printed of it, and a later setting replaces an earlier one.
pub proof fn sweeping_keeps_the_circuit<R>(c: CircuitModel<R>, di: int, a: R, b: R)
    requires
        c.wf(),
        0 <= di < c.devs.len(),
    ensures
        with_source(c, di, a).wf(),
        with_source(c, di, a).unknowns() == c.unknowns(),
        output::selected(with_source(c, di, a)) == output::selected(c),
        with_source(with_source(c, di, a), di, b) == with_source(c, di, b),
{
    let w = with_source(c, di, a);
    assert forall|i: int| 0 <= i < w.devs.len() implies (#[trigger] w.devs[i]).placed(
        w.nodes.len() as int,
    ) && (w.devs[i].has_branch() ==> w.devs[i].branch() == w.nodes.len() + circuit::branch_count(
        w.devs,
        i,
    )) by {
        lemma_tuned_branches(c, di, a, i);
        assert(c.devs[i].placed(c.nodes.len() as int));
    }
    lemma_tuned_branches(c, di, a, c.devs.len() as int);
    assert(output::column_names(w) =~= output::column_names(c));
    assert(with_source(w, di, b).devs =~= with_source(c, di, b).devs);
}

/// The value of a swept source at point `k`.
pub open spec fn sweep_value<R: Real>(start: R, step: R, k: int) -> R {
    start.plus(step.times(R::integer(k)))
}

/// The last point of a sweep; the first one is 0.
pub open spec fn last_point<R: Real>(start: R, stop: R, step: R) -> int {
    let n = stop.minus(start).over(step).rounded();
    if n > 0 {
        n as int
    } else {
        0
    }
}

/// The rows of the sweep from point `k` to point `n`, each operating point
/// started from the one before.
pub open spec fn sweep_rows<R: Real>(
    c: CircuitModel<R>,
    di: int,
    start: R,
    step: R,
    k: int,
    n: int,
    x: Seq<R>,
    lim: Seq<(R, R)>,
) -> (Seq<Seq<char>>, EndModel)
    decreases n + 1 - k,
{
    if k > n {
        (Seq::empty(), EndModel::Done)
    } else {
        let val = sweep_value(start, step, k);
        match solver::operating_point(with_source(c, di, val), x, lim) {
            Err(e) => (Seq::empty(), EndModel::Failed(e)),
            Ok((xn, ln)) => {
                let (rest, end) = sweep_rows(c, di, start, step, k + 1, n, xn, ln);
                (seq![output::point_row(val, xn, output::selected(c))] + rest, end)
            },
        }
    }
}

/// A sweep under way: the point `k` is the next one.
pub struct Sweep<R> {
    pub di: usize,
    pub start: R,
    pub step: R,
    pub k: i128,
    pub last: i128,
    pub x: Vec<R>,
    pub lim: Vec<(R, R)>,
    pub idx: Vec<usize>,
}

#[verifier::ext_equal]
pub struct SweepModel<R> {
    pub di: int,
    pub start: R,
    pub step: R,
    pub k: int,
    pub last: int,
    pub x: Seq<R>,
    pub lim: Seq<(R, R)>,
    pub idx: Seq<usize>,
}

impl<R> View for Sweep<R> {
    type V = SweepModel<R>;

    open spec fn view(&self) -> SweepModel<R> {
        SweepModel {
            di: self.di as int,
            start: self.start,
            step: self.step,
            k: self.k as int,
            last: self.last as int,
            x: self.x@,
            lim: self.lim@,
            idx: self.idx@,
        }
    }
}

impl<R: Real> SweepModel<R> {
    /// The state fits the circuit, whatever value its source is at.
    pub open spec fn wf(self, c: CircuitModel<R>) -> bool {
        &&& c.wf()
        &&& 0 <= self.di < c.devs.len()
        &&& tuned(c.devs[self.di], self.start) is Some
        &&& 0 <= self.k <= self.last + 1
        &&& self.last <= i64::MAX
        &&& self.x.len() == c.unknowns()
        &&& self.lim.len() == c.devs.len()
        &&& self.idx == output::selected(c)
    }

    /// The value of the source at the next point.
    pub open spec fn value(self) -> R {
        sweep_value(self.start, self.step, self.k)
    }

    /// The rows that are left and how the sweep ends.
    pub open spec fn rows(self, c: CircuitModel<R>) -> (Seq<Seq<char>>, EndModel) {
        sweep_rows(
            c,
            self.di,
            self.start,
            self.step,
            self.k,
            self.last,
            self.x,
            self.lim,
        )
    }
}

/// The opening of a sweep of the named source: its report so far, and the
/// state to go on from unless it failed.
pub open spec fn dc_opening<R: Real>(
    c: CircuitModel<R>,
    src: Seq<char>,
    start: R,
    stop: R,
    step: R,
) -> (ReportModel, Option<SweepModel<R>>) {
    match device_named(c.names, src) {
        None => (output::failure(SimFault::UnknownSweep(src)), None),
        Some(di) => if num::same(step, R::nil()) {
            (output::failure(SimFault::ZeroSweepStep), None)
        } else {
            let idx = output::selected(c);
            let report = ReportModel {
                notes: output::complaints(output::missing(c)),
                lines: seq![
                    "# dc"@,
                    output::led(src, text::joined(output::headings(c, idx), ","@)),
                ],
                end: EndModel::Unfinished,
            };
            if tuned(c.devs[di], start) is None {
                (ReportModel { end: EndModel::Failed(SimFault::SweepOfNoSource), ..report }, None)
            } else {
                (
                    report,
                    Some(
                        SweepModel {
                            di,
                            start,
                            step,
                            k: 0,
                            last: last_point(start, stop, step),
                            x: solver::origin(c.unknowns() as nat),
                            lim: solver::relaxed(c.devs.len()),
                            idx,
                        },
                    ),
                )
            }
        },
    }
}

/// The report on a sweep of the named source.
pub open spec fn dc_report<R: Real>(
    c: CircuitModel<R>,
    src: Seq<char>,
    start: R,
    stop: R,
    step: R,
) -> ReportModel {
    let (opening, state) = dc_opening(c, src, start, stop, step);
    match state {
        None => opening,
        Some(s) => {
            let (rows, end) = s.rows(c);
            ReportModel {
                lines: opening.lines + rows + (if end is Done {
                    seq![""@]
                } else {
                    Seq::empty()
                }),
                end,
                ..opening
            }
        },
    }
}

/// The circuit that a finished sweep leaves behind: the source stays at its
/// last value.
pub open spec fn dc_leaves<R: Real>(
    c: CircuitModel<R>,
    src: Seq<char>,
    start: R,
    stop: R,
    step: R,
) -> CircuitModel<R> {
    with_source(
        c,
        device_named(c.names, src)->0,
        sweep_value(start, step, last_point(start, stop, step)),
    )
}

/// Opens a sweep of the named source.
pub fn start_dc<R: Real>(ckt: &Circuit<R>, src: &str, start: R, stop: R, step: R) -> (r: (
    Report,
    Option<Sweep<R>>,
))
    requires
        ckt@.wf(),
    ensures
        ({
            let (report, state) = dc_opening(ckt@, src@, start, stop, step);
            &&& r.0@ == report
            &&& match r.1 {
                Some(s) => state == Some(s@) && s@.wf(ckt@),
                None => state is None,
            }
        }),
{
    let di = match find_device(ckt, src) {
        None => {
            return (failed(SimError::UnknownSweep(src.to_owned())), None);
        },
        Some(i) => i,
    };
    if is_same(step, R::zero()) {
        return (failed(SimError::ZeroSweepStep), None);
    }
    let sel = selection(ckt);
    let notes = complain(&sel.missing);
    let mut lines: Vec<String> = Vec::new();
    put(&mut lines, "# dc".to_owned());
    put(&mut lines, lead(src, join(&sel.names, ",").as_str()));
    proof {
        assert(text::texts(lines@) =~= dc_opening(ckt@, src@, start, stop, step).0.lines);
    }
    if tune(&ckt.devs[di], start).is_none() {
        return (Report { notes, lines, end: End::Failed(SimError::SweepOfNoSource) }, None);
    }
    let npts: i64 = stop.sub(start).div(step).round_i64();
    let last: i64 = if npts > 0 {
        npts
    } else {
        0
    };
    let m: usize = ckt.nodes.len() + ckt.nb;
    let state = Sweep {
        di,
        start,
        step,
        k: 0,
        last: last as i128,
        x: zeros::<R>(m),
        lim: zero_pairs::<R>(ckt.devs.len()),
        idx: sel.idx,
    };
    (Report { notes, lines, end: End::Unfinished }, Some(state))
}

impl<R: Real> Sweep<R> {
    /// The row of the next point, or nothing behind the last one. The source
    /// stays at its value.
    pub fn next_row(&mut self, ckt: &mut Circuit<R>) -> (r: Option<Result<String, SimError>>)
        requires
            old(self)@.wf(old(ckt)@),
        ensures
            final(ckt)@ == (if r is None {
                old(ckt)@
            } else {
                with_source(old(ckt)@, old(self)@.di, old(self)@.value())
            }),
            match r {
                None => old(self)@.k > old(self)@.last && final(self)@ == old(self)@,
                Some(Ok(line)) => {
                    &&& old(self)@.k <= old(self)@.last
                    &&& solver::operating_point(final(ckt)@, old(self)@.x, old(self)@.lim)
                        == Ok::<(Seq<R>, Seq<(R, R)>), SimFault>(
                        (final(self)@.x, final(self)@.lim),
                    )
                    &&& line@ == output::point_row(
                        old(self)@.value(),
                        final(self)@.x,
                        old(self)@.idx,
                    )
                    &&& final(self)@ == (SweepModel {
                        k: old(self)@.k + 1,
                        x: final(self)@.x,
                        lim: final(self)@.lim,
                        ..old(self)@
                    })
                    &&& final(self)@.wf(final(ckt)@)
                },
                Some(Err(e)) => {
                    &&& old(self)@.k <= old(self)@.last
                    &&& solver::operating_point(final(ckt)@, old(self)@.x, old(self)@.lim)
                        == Err::<(Seq<R>, Seq<(R, R)>), SimFault>(e@)
                },
            },
            final(ckt)@.wf(),
    {
        if self.k > self.last {
            return None;
        }
        let ghost c = ckt@;
        let di = self.di;
        let val = self.start.add(self.step.mul(R::of_int(self.k)));
        proof {
            sweeping_keeps_the_circuit(c, di as int, val, val);
            output::selected_unknowns_exist(c);
        }
        match tune(&ckt.devs[di], val) {
            Some(d) => {
                ckt.devs.set(di, d);
                proof {
                    assert(ckt@.devs =~= with_source(c, di as int, val).devs);
                    assert(ckt@ == with_source(c, di as int, val));
                }
            },
            None => {},
        }
        match op_solve(ckt, &mut self.x, &mut self.lim) {
            Err(e) => {
                return Some(Err(e));
            },
            Ok(_) => {},
        }
        self.k = self.k + 1;
        Some(Ok(show_point(val, self.x.as_slice(), self.idx.as_slice())))
    }
}

pub fn run_dc<R: Real>(ckt: &mut Circuit<R>, src: &str, start: R, stop: R, step: R) -> (r: Report)
    requires
        old(ckt)@.wf(),
    ensures
        r@ == dc_report(old(ckt)@, src@, start, stop, step),
        final(ckt)@.wf(),
        r@.end is Done ==> final(ckt)@ == dc_leaves(old(ckt)@, src@, start, stop, step),
{
    let ghost c = ckt@;
    let (report, state) = start_dc(ckt, src, start, stop, step);
    let mut state = match state {
        None => {
            return report;
        },
        Some(s) => s,
    };
    let Report { notes, mut lines, end: _ } = report;
    let ghost head = text::texts(lines@);
    let ghost all = state@.rows(c);
    loop
        invariant
            c == old(ckt)@,
            c.wf(),
            state@.wf(c),
            state@.wf(ckt@),
            state@.k == 0 ==> ckt@ == c,
            state@.k > 0 ==> ckt@ == with_source(
                c,
                state@.di,
                sweep_value(start, step, state@.k - 1),
            ),
            dc_opening(c, src@, start, stop, step).1 is Some,
            ({
                let (opening, first) = dc_opening(c, src@, start, stop, step);
                &&& text::texts(notes@) == opening.notes
                &&& head == opening.lines
                &&& all == first->0.rows(c)
                &&& state@.di == first->0.di
                &&& state@.start == start
                &&& state@.step == step
                &&& state@.last == last_point(start, stop, step)
            }),
            all.1 == state@.rows(c).1,
            head + all.0 == text::texts(lines@) + state@.rows(c).0,
        decreases state@.last + 1 - state@.k,
    {
        let ghost before = state@;
        let ghost at = ckt@;
        let ghost shown = text::texts(lines@);
        proof {
            if before.k > 0 {
                sweeping_keeps_the_circuit(
                    c,
                    before.di,
                    sweep_value(start, step, before.k - 1),
                    before.value(),
                );
            }
            assert(with_source(at, before.di, before.value()) == with_source(
                c,
                before.di,
                before.value(),
            ));
            sweeping_keeps_the_circuit(c, before.di, before.value(), before.value());
        }
        match state.next_row(ckt) {
            None => {
                put(&mut lines, "".to_owned());
                let r = Report { notes, lines, end: End::Done };
                proof {
                    assert(r@.lines =~= dc_report(c, src@, start, stop, step).lines);
                }
                return r;
            },
            Some(Err(e)) => {
                let r = Report { notes, lines, end: End::Failed(e) };
                proof {
                    assert(r@.lines =~= dc_report(c, src@, start, stop, step).lines);
                }
                return r;
            },
            Some(Ok(line)) => {
                let ghost l = line@;
                put(&mut lines, line);
                proof {
                    assert(text::texts(lines@) + state@.rows(c).0 =~= shown + (seq![l]
                        + state@.rows(c).0));
                }
            },
        }
    }
}

} // verus!
