//! What the reports of the analyses show.
use vstd::prelude::*;

use crate::circuit;
use crate::circuit::{AnalysisModel, CircuitModel, DevModel};
use crate::equations;
use crate::equations::Equations;
use crate::fault::SimFault;
use crate::field;
use crate::models;
use crate::num;
use crate::num::Real;
use crate::output;
use crate::output::{EndModel, ReportModel};
use crate::session;
use crate::small_signal;
use crate::solver;
use crate::sweep;
use crate::sweep_laws;
use crate::text;
use crate::transient;

verus! {

/// Joined texts stand one after the other with the separator between them.
pub proof fn joined_texts_are_separated(v: Seq<Seq<char>>, w: Seq<char>, sep: Seq<char>)
    ensures
        text::joined(Seq::empty(), sep).len() == 0,
        text::joined(seq![w], sep) == w,
        v.len() > 0 ==> text::joined(v.push(w), sep) == text::joined(v, sep) + sep + w,
        v.len() > 0 ==> text::joined(seq![w] + v, sep) == w + sep + text::joined(v, sep),
{
    if v.len() > 0 {
        assert(v.push(w).drop_last() =~= v);
        lemma_joined_behind(v, w, sep);
    }
}

proof fn lemma_joined_behind(v: Seq<Seq<char>>, w: Seq<char>, sep: Seq<char>)
    requires
        v.len() > 0,
    ensures
        text::joined(seq![w] + v, sep) == w + sep + text::joined(v, sep),
    decreases v.len(),
{
    let all = seq![w] + v;
    assert(all.last() == v.last());
    if v.len() == 1 {
        assert(all.drop_last() =~= seq![w]);
        assert(text::joined(seq![w], sep) == w);
        assert(text::joined(v, sep) == v.last());
    } else {
        lemma_joined_behind(v.drop_last(), w, sep);
        assert(all.drop_last() =~= seq![w] + v.drop_last());
        assert(w + sep + text::joined(v.drop_last(), sep) + sep + v.last() =~= w + sep + (
        text::joined(v.drop_last(), sep) + sep + v.last()));
    }
}

/// The column of a node is its voltage under its name.
pub proof fn node_columns_are_voltages<R>(c: CircuitModel<R>, u: int)
    requires
        0 < u < c.nodes.len(),
    ensures
        output::column_names(c)[u - 1] == seq!['v', '('] + c.nodes[u] + seq![')'],
{
    reveal_strlit("v");
    reveal_strlit("(");
    reveal_strlit(")");
    assert("v"@ + "("@ =~= seq!['v', '(']);
    assert(")"@ =~= seq![')']);
}

proof fn lemma_branch_name<R>(c: CircuitModel<R>, i: int, n: int)
    requires
        0 <= i < n <= c.devs.len(),
        c.devs[i].has_branch(),
    ensures
        circuit::branch_count(c.devs, i) < c.branch_names(n).len(),
        c.branch_names(n)[circuit::branch_count(c.devs, i)] == c.names[i],
    decreases n,
{
    circuit::lemma_branch_names(c, n);
    circuit::lemma_branch_names(c, n - 1);
    circuit::lemma_branch_count(c.devs, 0, i);
    circuit::lemma_branch_count(c.devs, i, n);
    if i < n - 1 {
        lemma_branch_name(c, i, n - 1);
    }
}

/// The column of the branch of a device is its current under its name.
pub proof fn branch_columns_are_currents<R>(c: CircuitModel<R>, i: int)
    requires
        c.wf(),
        0 <= i < c.devs.len(),
        c.devs[i].has_branch(),
    ensures
        output::column_names(c)[c.devs[i].branch() - 1] == seq!['i', '('] + c.names[i]
            + seq![')'],
{
    reveal_strlit("i");
    reveal_strlit("(");
    reveal_strlit(")");
    assert("i"@ + "("@ =~= seq!['i', '(']);
    assert(")"@ =~= seq![')']);
    lemma_branch_name(c, i, c.devs.len() as int);
    circuit::lemma_branch_count(c.devs, 0, i);
}

/// The names over the printed columns, left to right.
pub open spec fn titles<R>(c: CircuitModel<R>) -> Seq<Seq<char>> {
    let idx = output::selected(c);
    Seq::new(idx.len(), |k: int| output::column_names(c)[idx[k] - 1])
}

/// The printed unknowns with nine digits, left to right.
pub open spec fn cells<R: Real>(c: CircuitModel<R>, x: Seq<R>) -> Seq<Seq<char>> {
    let idx = output::selected(c);
    Seq::new(idx.len(), |k: int| x[idx[k] as int].shown(9))
}

/// The report on the operating point shows each printed unknown under its
/// name; where there is no operating point it shows nothing.
pub proof fn operating_points_are_shown<R: Real>(c: CircuitModel<R>)
    ensures
        ({
            let r = sweep::op_report(c);
            match solver::resting_point(c) {
                Ok((x, _)) => {
                    &&& r.end is Done
                    &&& r.lines.len() == 4
                    &&& r.lines[0] == "# op"@
                    &&& r.lines[1] == text::joined(titles(c), seq![','])
                    &&& r.lines[2] == text::joined(cells(c, x), seq![','])
                    &&& r.lines[3].len() == 0
                },
                Err(e) => r.end == EndModel::Failed(e) && r.lines.len() == 0,
            }
        }),
{
    reveal_strlit(",");
    reveal_strlit("");
    assert(","@ =~= seq![',']);
    if let Ok((x, l)) = solver::resting_point(c) {
        let idx = output::selected(c);
        assert(output::headings(c, idx) =~= titles(c));
        lemma_row(c, x);
    }
}

proof fn lemma_row<R: Real>(c: CircuitModel<R>, x: Seq<R>)
    ensures
        output::row(output::picked(x, output::selected(c))) == text::joined(
            cells(c, x),
            seq![','],
        ),
{
    reveal_strlit(",");
    assert(","@ =~= seq![',']);
    let vals = output::picked(x, output::selected(c));
    assert(Seq::new(vals.len(), |i: int| output::cell(vals[i])) =~= cells(c, x));
}

/// A row of a sweep or of a transient analysis shows the swept quantity and
/// then the printed unknowns; a comma follows it even where nothing does.
pub proof fn rows_lead_with_the_swept_quantity<R: Real>(c: CircuitModel<R>, at: R, x: Seq<R>)
    ensures
        output::selected(c).len() > 0 ==> output::point_row(at, x, output::selected(c))
            == text::joined(seq![at.shown(9)] + cells(c, x), seq![',']),
        output::selected(c).len() == 0 ==> output::point_row(at, x, output::selected(c))
            == at.shown(9) + seq![','],
{
    reveal_strlit(",");
    assert(","@ =~= seq![',']);
    lemma_row(c, x);
    joined_texts_are_separated(cells(c, x), at.shown(9), seq![',']);
    if output::selected(c).len() == 0 {
        assert(cells(c, x) =~= Seq::<Seq<char>>::empty());
        assert(at.shown(9) + seq![','] + Seq::<char>::empty() =~= at.shown(9) + seq![',']);
    }
}

/// The items of a print card that are no column are complained about, and no
/// others.
pub proof fn missing_items_are_no_columns<R>(c: CircuitModel<R>, item: Seq<char>)
    ensures
        output::missing(c).contains(item) <==> c.prints.contains(item)
            && !output::column_names(c).contains(item),
{
    lemma_absent(output::column_names(c), c.prints, c.prints.len() as int, item);
    if c.prints.contains(item) {
        let k = choose|k: int| 0 <= k < c.prints.len() && c.prints[k] == item;
        assert(c.prints[k] == item);
    }
}

proof fn lemma_absent(
    columns: Seq<Seq<char>>,
    prints: Seq<Seq<char>>,
    i: int,
    item: Seq<char>,
)
    requires
        0 <= i <= prints.len(),
    ensures
        output::absent(columns, prints, i).contains(item) <==> !columns.contains(item) && exists|
            k: int,
        |
            0 <= k < i && #[trigger] prints[k] == item,
    decreases i,
{
    if i > 0 {
        lemma_absent(columns, prints, i - 1, item);
        let before = output::absent(columns, prints, i - 1);
        let p = prints[i - 1];
        if !columns.contains(p) {
            let after = before.push(p);
            assert(after[before.len() as int] == p);
            if before.contains(item) {
                let j = choose|j: int| 0 <= j < before.len() && before[j] == item;
                assert(after[j] == item);
            }
            if after.contains(item) && item != p {
                let j = choose|j: int| 0 <= j < after.len() && after[j] == item;
                assert(before[j] == item);
            }
        }
        if exists|k: int| 0 <= k < i && #[trigger] prints[k] == item {
            let k = choose|k: int| 0 <= k < i && #[trigger] prints[k] == item;
            assert(k < i - 1 || item == p);
        }
    }
}

/// A swept source has the value of the point at all times and keeps its
/// terminals and its small signal value; nothing else of the circuit changes.
pub proof fn swept_sources_have_the_value<R: Real>(c: CircuitModel<R>, di: int, val: R, t: R)
    requires
        0 <= di < c.devs.len(),
        c.devs[di] is V || c.devs[di] is I,
    ensures
        ({
            let s = sweep::with_source(c, di, val);
            &&& match (c.devs[di], s.devs[di]) {
                (DevModel::V { p, n, ac, br, .. }, DevModel::V { p: q, n: m, dc, ac: a, wave, br: b }) => {
                    q == p && m == n && a == ac && b == br && models::source_value(dc, wave, t)
                        == val
                },
                (DevModel::I { p, n, ac, .. }, DevModel::I { p: q, n: m, dc, ac: a, wave }) => {
                    q == p && m == n && a == ac && models::source_value(dc, wave, t) == val
                },
                _ => false,
            }
            &&& s.devs.len() == c.devs.len()
            &&& forall|j: int|
                0 <= j < c.devs.len() && j != di ==> #[trigger] s.devs[j] == c.devs[j]
            &&& s.nodes == c.nodes
            &&& s.names == c.names
            &&& s.prints == c.prints
            &&& s.analyses == c.analyses
        }),
{
}

/// `row` shows the operating point of the circuit with source `di` at `val`,
/// found from `from`.
pub open spec fn shows_point<R: Real>(
    c: CircuitModel<R>,
    di: int,
    val: R,
    from: (Seq<R>, Seq<(R, R)>),
    row: Seq<char>,
) -> bool {
    match solver::operating_point(sweep::with_source(c, di, val), from.0, from.1) {
        Ok((x, _)) => row == output::point_row(val, x, output::selected(c)),
        Err(_) => false,
    }
}

/// Each row of a sweep shows the operating point at its value of the source,
/// the first found from the point given and each other from somewhere.
pub proof fn sweep_rows_are_operating_points<R: Real>(
    c: CircuitModel<R>,
    di: int,
    start: R,
    step: R,
    k: int,
    n: int,
    x: Seq<R>,
    lim: Seq<(R, R)>,
    j: int,
)
    requires
        0 <= j < sweep::sweep_rows(c, di, start, step, k, n, x, lim).0.len(),
    ensures
        ({
            let rows = sweep::sweep_rows(c, di, start, step, k, n, x, lim).0;
            let val = start.plus(step.times(R::integer(k + j)));
            &&& exists|from: (Seq<R>, Seq<(R, R)>)| #[trigger]
                shows_point(c, di, val, from, rows[j])
            &&& j == 0 ==> shows_point(c, di, val, (x, lim), rows[j])
        }),
    decreases n + 1 - k,
{
    let val = start.plus(step.times(R::integer(k)));
    let rows = sweep::sweep_rows(c, di, start, step, k, n, x, lim).0;
    assert(shows_point(c, di, val, (x, lim), rows[0]));
    if j > 0 {
        let (xn, ln) = solver::operating_point(sweep::with_source(c, di, val), x, lim)->Ok_0;
        sweep_rows_are_operating_points(c, di, start, step, k + 1, n, xn, ln, j - 1);
        let rest = sweep::sweep_rows(c, di, start, step, k + 1, n, xn, ln).0;
        assert(rows[j] == rest[j - 1]);
        let later = start.plus(step.times(R::integer(k + j)));
        assert(k + 1 + (j - 1) == k + j);
        let from = choose|from: (Seq<R>, Seq<(R, R)>)| #[trigger]
            shows_point(c, di, later, from, rest[j - 1]);
        assert(shows_point(c, di, later, from, rows[j]));
    } else {
        assert(k + j == k);
        assert(shows_point(
            c,
            di,
            start.plus(step.times(R::integer(k + j))),
            (x, lim),
            rows[j],
        ));
    }
}

/// A sweep whose stop lies a whole number of steps from its start ends there;
/// one whose stop lies the other way has only its start.
pub proof fn sweeps_end_at_their_stop<R: Real>(start: R, step: R, n: int)
    requires
        num::is_field::<R>(),
        step != R::nil(),
        R::integer(n).rounded() == n,
    ensures
        sweep::last_point(start, start.plus(step.times(R::integer(n))), step) == if n > 0 {
            n
        } else {
            0
        },
{
    let d = step.times(R::integer(n));
    field::sum_minus(start, d, start);
    field::minus_self(start);
    field::plus_nil(d);
    field::times_comm(step, R::integer(n));
    field::over_unique(d, step, R::integer(n));
}

/// A sweep leaves the first device with its name at the value of its last
/// point to the analyses that follow; no other analysis changes the circuit.
pub proof fn sweeps_leave_their_last_value<R: Real>(
    c: CircuitModel<R>,
    a: AnalysisModel<R>,
    di: int,
)
    requires
        0 <= di < c.names.len(),
    ensures
        match a {
            AnalysisModel::Dc { src, start, stop, step } => {
                let last = sweep::last_point(start, stop, step);
                c.names[di] == src && (forall|j: int| 0 <= j < di ==> #[trigger] c.names[j] != src)
                    ==> session::left_by(c, a) == sweep::with_source(
                    c,
                    di,
                    start.plus(step.times(R::integer(last))),
                )
            },
            _ => session::left_by(c, a) == c,
        },
{
    if let AnalysisModel::Dc { src, start, stop, step } = a {
        if c.names[di] == src && (forall|j: int| 0 <= j < di ==> #[trigger] c.names[j] != src) {
            c.names.index_of_first_ensures(src);
            assert(c.names.contains(src));
        }
    }
}

/// The analyses are reported on in turn, each on the circuit that the one
/// before leaves; the first that is not done is the last.
pub proof fn analyses_are_reported_in_turn<R: Real>(
    c: CircuitModel<R>,
    plan: Seq<AnalysisModel<R>>,
    i: int,
    limit: nat,
)
    requires
        0 <= i < plan.len(),
    ensures
        ({
            let all = session::session(c, plan, i, limit);
            let r = match plan[i] {
                AnalysisModel::Op => sweep::op_report(c),
                AnalysisModel::Dc { src, start, stop, step } => sweep::dc_report(
                    c,
                    src,
                    start,
                    stop,
                    step,
                ),
                AnalysisModel::Tran { tstep, tstop, uic } => transient::tran_report(
                    c,
                    tstep,
                    tstop,
                    uic,
                    limit,
                ),
                AnalysisModel::Ac { dec, n, f1, f2 } => small_signal::ac_report(
                    c,
                    dec,
                    n,
                    f1,
                    f2,
                    limit,
                ),
            };
            if r.end is Done {
                let rest = session::session(session::left_by(c, plan[i]), plan, i + 1, limit);
                &&& all.lines == r.lines + rest.lines
                &&& all.notes == r.notes + rest.notes
                &&& all.end == rest.end
            } else {
                all == r
            }
        }),
{
}

/// The frequencies of a linear range are evenly spaced.
pub proof fn linear_ranges_are_even<R: Real>(n: usize, f1: R, f2: R, limit: nat, k: int)
    requires
        num::is_field::<R>(),
        sweep_laws::counts::<R>(),
        n > 1,
        R::integer(n - 1) != R::nil(),
        0 <= k < n,
    ensures
        match small_signal::frequencies(false, n, f1, f2, limit) {
            Some(fs) => fs.len() == n && fs[k].minus(f1).times(R::integer(n - 1)) == f2.minus(
                f1,
            ).times(R::integer(k)),
            None => false,
        },
{
    let d = f2.minus(f1).times(R::integer(k));
    let m = R::integer(n - 1);
    assert(R::integer(n - 1).plus(R::unit()) == R::integer(n - 1 + 1));
    field::minus_unique(R::integer(n as int), R::unit(), m);
    field::sum_minus(f1, d.over(m), f1);
    field::minus_self(f1);
    field::plus_nil(d.over(m));
    field::over_times(d, m);
}

/// Each row of a small signal analysis shows its frequency and the solution of
/// the small signal equations there.
pub proof fn response_rows_are_solutions<R: Real>(
    c: CircuitModel<R>,
    jacobian: Equations<R>,
    x: Seq<R>,
    fs: Seq<R>,
    k: int,
    j: int,
)
    requires
        0 <= k,
        0 <= j < small_signal::response_rows(c, jacobian, x, fs, k).0.len(),
    ensures
        ({
            let rows = small_signal::response_rows(c, jacobian, x, fs, k).0;
            let idx = output::selected(c);
            &&& k + j < fs.len()
            &&& match equations::solution(
                small_signal::response_equations(c, jacobian, x, fs[k + j]),
            ) {
                Ok(xa) => rows[j] == output::row(
                    small_signal::response(fs[k + j], xa, idx, idx.len() as int),
                ),
                Err(_) => false,
            }
        }),
    decreases fs.len() - k,
{
    if j > 0 {
        response_rows_are_solutions(c, jacobian, x, fs, k + 1, j - 1);
        let rows = small_signal::response_rows(c, jacobian, x, fs, k).0;
        let rest = small_signal::response_rows(c, jacobian, x, fs, k + 1).0;
        assert(rows[j] == rest[j - 1]);
    }
}

/// A small signal analysis that is done has one row for each frequency.
pub proof fn every_frequency_is_shown<R: Real>(
    c: CircuitModel<R>,
    jacobian: Equations<R>,
    x: Seq<R>,
    fs: Seq<R>,
    k: int,
)
    requires
        0 <= k <= fs.len(),
    ensures
        ({
            let (rows, end) = small_signal::response_rows(c, jacobian, x, fs, k);
            &&& end is Done <==> rows.len() == fs.len() - k
            &&& rows.len() <= fs.len() - k
        }),
    decreases fs.len() - k,
{
    if k < fs.len() {
        every_frequency_is_shown(c, jacobian, x, fs, k + 1);
    }
}

/// Over each printed column of a small signal analysis stand its magnitude and
/// its phase.
pub proof fn responses_have_two_headings(names: Seq<Seq<char>>, i: int, k: int)
    requires
        0 <= k < i <= names.len(),
    ensures
        ({
            let h = small_signal::response_headings(names, i);
            &&& h.len() == 2 * i
            &&& h[2 * k] == seq!['m', 'a', 'g', '('] + names[k] + seq![')']
            &&& h[2 * k + 1] == seq!['p', 'h', '('] + names[k] + seq![')']
        }),
    decreases i,
{
    reveal_strlit("mag");
    reveal_strlit("ph");
    reveal_strlit("(");
    reveal_strlit(")");
    assert("mag"@ + "("@ =~= seq!['m', 'a', 'g', '(']);
    assert("ph"@ + "("@ =~= seq!['p', 'h', '(']);
    assert(")"@ =~= seq![')']);
    lemma_heading_count(names, i - 1);
    if k < i - 1 {
        responses_have_two_headings(names, i - 1, k);
    }
}

proof fn lemma_heading_count(names: Seq<Seq<char>>, i: int)
    requires
        0 <= i <= names.len(),
    ensures
        small_signal::response_headings(names, i).len() == 2 * i,
    decreases i,
{
    if i > 0 {
        lemma_heading_count(names, i - 1);
    }
}

/// Which analyses are refused: a small signal analysis without points, from a
/// frequency that is not positive or backwards; a transient analysis whose step
/// or end is not positive; a sweep of a name that no device has, by a step of
/// zero, or of a device that is no source.
pub proof fn refused_analyses<R: Real>(
    c: CircuitModel<R>,
    n: usize,
    dec: bool,
    f1: R,
    f2: R,
    tstep: R,
    tstop: R,
    uic: bool,
    src: Seq<char>,
    start: R,
    stop: R,
    step: R,
    limit: nat,
)
    ensures
        n == 0 || f1.at_most(R::nil()) || f2.below(f1) ==> small_signal::ac_report(
            c,
            dec,
            n,
            f1,
            f2,
            limit,
        ).end == EndModel::Failed(SimFault::BadAc),
        !(n == 0 || f1.at_most(R::nil()) || f2.below(f1)) && solver::resting_point(c) is Ok
            && small_signal::frequencies(dec, n, f1, f2, limit) is Some ==> small_signal::ac_opening(
            c,
            dec,
            n,
            f1,
            f2,
            limit,
        ).1 is Some,
        tstep.at_most(R::nil()) || tstop.at_most(R::nil()) ==> transient::tran_report(
            c,
            tstep,
            tstop,
            uic,
            limit,
        ).end == EndModel::Failed(SimFault::BadTran),
        !(tstep.at_most(R::nil()) || tstop.at_most(R::nil())) && (uic || solver::resting_point(
            c,
        ) is Ok) ==> transient::tran_opening(c, tstep, tstop, uic, limit).0.lines.len() == 3,
        !c.names.contains(src) ==> sweep::dc_report(c, src, start, stop, step).end
            == EndModel::Failed(SimFault::UnknownSweep(src)),
        c.names.contains(src) && step.at_most(R::nil()) && R::nil().at_most(step) ==> sweep::dc_report(
            c,
            src,
            start,
            stop,
            step,
        ).end == EndModel::Failed(SimFault::ZeroSweepStep),
        c.names.contains(src) && !(step.at_most(R::nil()) && R::nil().at_most(step)) ==> {
            let d = c.devs[c.names.index_of_first(src)->0];
            if d is V || d is I {
                sweep::dc_opening(c, src, start, stop, step).1 is Some
            } else {
                sweep::dc_report(c, src, start, stop, step).end == EndModel::Failed(
                    SimFault::SweepOfNoSource,
                )
            }
        },
{
    c.names.index_of_first_ensures(src);
}

/// The headings over the rows: the time, the swept source or the frequency, and
/// then the printed columns.
pub proof fn headings_lead_with_the_swept_quantity<R: Real>(
    c: CircuitModel<R>,
    x: Seq<R>,
    src: Seq<char>,
    start: R,
    stop: R,
    step: R,
)
    requires
        output::selected(c).len() > 0,
    ensures
        transient::tran_head(c, x).len() == 3,
        transient::tran_head(c, x)[0] == "# tran"@,
        transient::tran_head(c, x)[1] == text::joined(seq!["time"@] + titles(c), seq![',']),
        transient::tran_head(c, x)[2] == text::joined(
            seq![R::nil().shown(9)] + cells(c, x),
            seq![','],
        ),
        sweep::dc_opening(c, src, start, stop, step).1 is Some ==> {
            let lines = sweep::dc_opening(c, src, start, stop, step).0.lines;
            &&& lines.len() == 2
            &&& lines[0] == "# dc"@
            &&& lines[1] == text::joined(seq![src] + titles(c), seq![','])
        },
{
    reveal_strlit(",");
    assert(","@ =~= seq![',']);
    let idx = output::selected(c);
    assert(output::headings(c, idx) =~= titles(c));
    joined_texts_are_separated(titles(c), "time"@, seq![',']);
    joined_texts_are_separated(titles(c), src, seq![',']);
    rows_lead_with_the_swept_quantity(c, R::nil(), x);
}

/// A singular system is reported by the name of a node or of the device whose
/// branch current it is.
pub proof fn unknowns_are_called_by_name<R>(c: CircuitModel<R>, u: int, i: int)
    requires
        c.wf(),
        0 <= u < c.nodes.len(),
        0 <= i < c.devs.len(),
        c.devs[i].has_branch(),
    ensures
        circuit::unknown_label(c, u) == "node "@ + c.nodes[u],
        circuit::unknown_label(c, c.devs[i].branch() as int) == "branch "@ + c.names[i],
{
    lemma_branch_name(c, i, c.devs.len() as int);
    circuit::lemma_branch_count(c.devs, 0, i);
}

/// Where a sweep starts and what it prints: point zero, from everything at
/// zero, for the first device of that name.
pub proof fn sweeps_start_from_zero<R: Real>(
    c: CircuitModel<R>,
    src: Seq<char>,
    start: R,
    stop: R,
    step: R,
)
    requires
        sweep::dc_opening(c, src, start, stop, step).1 is Some,
    ensures
        ({
            let s = sweep::dc_opening(c, src, start, stop, step).1->0;
            &&& s.k == 0
            &&& s.start == start
            &&& s.step == step
            &&& s.last == sweep::last_point(start, stop, step)
            &&& s.x == Seq::new(c.unknowns() as nat, |i: int| R::nil())
            &&& s.lim == Seq::new(c.devs.len(), |i: int| (R::nil(), R::nil()))
            &&& 0 <= s.di < c.names.len()
            &&& c.names[s.di] == src
            &&& forall|j: int| 0 <= j < s.di ==> #[trigger] c.names[j] != src
        }),
{
    c.names.index_of_first_ensures(src);
}

/// A report is its headings, its rows and, once the analysis is done, an empty
/// line.
pub proof fn reports_are_headings_and_rows<R: Real>(
    c: CircuitModel<R>,
    src: Seq<char>,
    start: R,
    stop: R,
    step: R,
    tstep: R,
    tstop: R,
    uic: bool,
    dec: bool,
    n: usize,
    f1: R,
    f2: R,
    limit: nat,
)
    ensures
        ({
            let (head, state) = sweep::dc_opening(c, src, start, stop, step);
            let r = sweep::dc_report(c, src, start, stop, step);
            state is Some ==> is_report(head.lines, state->0.rows(c).0, state->0.rows(c).1, r)
        }),
        ({
            let (head, state) = transient::tran_opening(c, tstep, tstop, uic, limit);
            let r = transient::tran_report(c, tstep, tstop, uic, limit);
            let a = transient::advanced(c, state->0, limit);
            state is Some ==> is_report(head.lines, a.rows, a.end, r)
        }),
        ({
            let (head, state) = small_signal::ac_opening(c, dec, n, f1, f2, limit);
            let r = small_signal::ac_report(c, dec, n, f1, f2, limit);
            state is Some ==> is_report(head.lines, state->0.rows(c).0, state->0.rows(c).1, r)
        }),
{
    reveal_strlit("");
    let t = transient::tran_opening(c, tstep, tstop, uic, limit);
    let d = sweep::dc_opening(c, src, start, stop, step);
    let a = small_signal::ac_opening(c, dec, n, f1, f2, limit);
    if d.1 is Some {
        lemma_report(d.0.lines, d.1->0.rows(c).0);
    }
    if t.1 is Some {
        lemma_report(t.0.lines, transient::advanced(c, t.1->0, limit).rows);
    }
    if a.1 is Some {
        lemma_report(a.0.lines, a.1->0.rows(c).0);
    }
}

/// The report has the headings, then the rows, and an empty line at its end if
/// it is done.
pub open spec fn is_report(
    head: Seq<Seq<char>>,
    rows: Seq<Seq<char>>,
    end: EndModel,
    r: ReportModel,
) -> bool {
    let n = head.len() + rows.len();
    &&& r.end == end
    &&& r.lines.len() == if end is Done {
        n + 1
    } else {
        n
    }
    &&& r.lines.take(head.len() as int) == head
    &&& r.lines.subrange(head.len() as int, n as int) == rows
    &&& end is Done ==> r.lines.last().len() == 0
}

proof fn lemma_report(head: Seq<Seq<char>>, rows: Seq<Seq<char>>)
    ensures
        ({
            let blank = head + rows + seq![""@];
            let n = (head.len() + rows.len()) as int;
            &&& blank.take(head.len() as int) == head
            &&& blank.subrange(head.len() as int, n) == rows
            &&& (head + rows + Seq::<Seq<char>>::empty()) == head + rows
            &&& (head + rows).take(head.len() as int) == head
            &&& (head + rows).subrange(head.len() as int, n) == rows
        }),
{
    let blank = head + rows + seq![""@];
    let n = (head.len() + rows.len()) as int;
    assert(blank.take(head.len() as int) =~= head);
    assert(blank.subrange(head.len() as int, n) =~= rows);
    assert((head + rows + Seq::<Seq<char>>::empty()) =~= head + rows);
    assert((head + rows).take(head.len() as int) =~= head);
    assert((head + rows).subrange(head.len() as int, n) =~= rows);
}

/// Every analysis that gets under way notes the items to print that are no
/// column.
pub proof fn missing_items_are_noted<R: Real>(
    c: CircuitModel<R>,
    src: Seq<char>,
    start: R,
    stop: R,
    step: R,
    tstep: R,
    tstop: R,
    uic: bool,
    dec: bool,
    n: usize,
    f1: R,
    f2: R,
    limit: nat,
)
    ensures
        ({
            let gone = output::missing(c);
            let notes = Seq::new(gone.len(), |i: int| "unknown .print item "@ + gone[i]);
            &&& sweep::op_report(c).end is Done ==> sweep::op_report(c).notes == notes
            &&& sweep::dc_opening(c, src, start, stop, step).1 is Some ==> sweep::dc_report(
                c,
                src,
                start,
                stop,
                step,
            ).notes == notes
            &&& transient::tran_opening(c, tstep, tstop, uic, limit).1 is Some
                ==> transient::tran_report(c, tstep, tstop, uic, limit).notes == notes
            &&& small_signal::ac_opening(c, dec, n, f1, f2, limit).1 is Some
                ==> small_signal::ac_report(c, dec, n, f1, f2, limit).notes == notes
        }),
{
    let gone = output::missing(c);
    assert(output::complaints(gone) =~= Seq::new(
        gone.len(),
        |i: int| "unknown .print item "@ + gone[i],
    ));
}

/// A sweep goes on from each operating point to the next: the rows behind the
/// first are those of a sweep that starts one point later, from the point just
/// found. A point without an operating point ends the sweep.
pub proof fn sweeps_go_on_from_the_last_point<R: Real>(
    c: CircuitModel<R>,
    di: int,
    start: R,
    step: R,
    k: int,
    n: int,
    x: Seq<R>,
    lim: Seq<(R, R)>,
)
    requires
        k <= n,
    ensures
        ({
            let (rows, end) = sweep::sweep_rows(c, di, start, step, k, n, x, lim);
            let val = start.plus(step.times(R::integer(k)));
            match solver::operating_point(sweep::with_source(c, di, val), x, lim) {
                Ok((xn, ln)) => {
                    let rest = sweep::sweep_rows(c, di, start, step, k + 1, n, xn, ln);
                    &&& rows.len() > 0
                    &&& rows[0] == output::point_row(val, xn, output::selected(c))
                    &&& rows.skip(1) == rest.0
                    &&& end == rest.1
                },
                Err(e) => rows.len() == 0 && end == EndModel::Failed(e),
            }
        }),
{
    let rows = sweep::sweep_rows(c, di, start, step, k, n, x, lim).0;
    let val = start.plus(step.times(R::integer(k)));
    if let Ok((xn, ln)) = solver::operating_point(sweep::with_source(c, di, val), x, lim) {
        assert(rows.skip(1) =~= sweep::sweep_rows(c, di, start, step, k + 1, n, xn, ln).0);
    }
}

/// A frequency at which the small signal equations are singular ends the
/// analysis with the name of the unknown.
pub proof fn singular_responses_end_the_analysis<R: Real>(
    c: CircuitModel<R>,
    jacobian: Equations<R>,
    x: Seq<R>,
    fs: Seq<R>,
    k: int,
)
    requires
        0 <= k < fs.len(),
    ensures
        match equations::solution(small_signal::response_equations(c, jacobian, x, fs[k])) {
            Err(u) => small_signal::response_rows(c, jacobian, x, fs, k) == (
                Seq::<Seq<char>>::empty(),
                EndModel::Failed(SimFault::SingularAc(circuit::unknown_label(c, u as int))),
            ),
            Ok(_) => small_signal::response_rows(c, jacobian, x, fs, k).0.len() > 0,
        },
{
}

} // verus!
