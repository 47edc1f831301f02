//! Small signal analysis: the circuit linearized at its operating point.
use vstd::prelude::*;

use crate::assembly;
use crate::assembly::{assemble, Mode, ModeModel};
use crate::circuit;
use crate::circuit::{unk_name, Circuit, CircuitModel, Dev, DevModel};
use crate::equations;
use crate::equations::Equations;
use crate::fault::{SimError, SimFault};
use crate::models;
use crate::models::{ceval, gmin};
use crate::num;
use crate::num::{pi, Cx, Num, Real};
use crate::output;
use crate::output::{
    complain, failed, fmt_row, label, lead, selection, End, EndModel, Report, ReportModel,
};
use crate::solver;
use crate::solver::op_setup;
use crate::sparse;
use crate::sparse::{solve, Sys};
use crate::text;
use crate::text::{join, put};

verus! {

/// The coefficients of a row as complex numbers.
pub open spec fn lifted_row<R: Real>(row: Map<int, R>) -> Map<int, Cx<R>> {
    Map::new(|j: int| row.contains_key(j), |j: int| Cx { re: row[j], im: R::nil() })
}

/// The coefficients of a system as complex numbers, with nothing on the right
/// hand side.
pub open spec fn lifted<R: Real>(s: Equations<R>) -> Equations<Cx<R>> {
    Equations {
        rows: Seq::new(s.rows.len(), |i: int| lifted_row(s.rows[i])),
        b: Seq::new(s.b.len(), |i: int| Cx::<R>::nil()),
    }
}

/// What a device adds at the angular frequency `w`: the admittance of a
/// capacitor, the impedance of an inductor, the excitation of a source.
pub open spec fn excited<R: Real>(
    s: Equations<Cx<R>>,
    d: DevModel<R>,
    x: Seq<R>,
    w: R,
) -> Equations<Cx<R>> {
    match d {
        DevModel::C { p, n, v, m, .. } => s.with_quad(
            p as int,
            n as int,
            p as int,
            n as int,
            Cx { re: R::nil(), im: w.times(models::charge(assembly::across(x, p, n), v, m).1) },
        ),
        DevModel::L { v, br, .. } => s.with(
            br as int,
            br as int,
            Cx { re: R::nil(), im: w.opposite().times(v) },
        ),
        DevModel::V { ac, br, .. } => s.with_rhs(br as int, Cx { re: ac, im: R::nil() }),
        DevModel::I { p, n, ac, .. } => s.with_rhs(
            p as int,
            Cx { re: ac.opposite(), im: R::nil() },
        ).with_rhs(n as int, Cx { re: ac, im: R::nil() }),
        _ => s,
    }
}

/// The small signal equations with the first `i` devices excited.
pub open spec fn excitation<R: Real>(
    devs: Seq<DevModel<R>>,
    jacobian: Equations<R>,
    x: Seq<R>,
    w: R,
    i: int,
) -> Equations<Cx<R>>
    decreases i,
{
    if i <= 0 {
        lifted(jacobian)
    } else {
        excited(excitation(devs, jacobian, x, w, i - 1), devs[i - 1], x, w)
    }
}

/// The angular frequency of a frequency.
pub open spec fn angular<R: Real>(f: R) -> R {
    R::decimal(2, 0).times(num::circle::<R>()).times(f)
}

/// The small signal equations of a circuit at the frequency `f`.
pub open spec fn response_equations<R: Real>(
    c: CircuitModel<R>,
    jacobian: Equations<R>,
    x: Seq<R>,
    f: R,
) -> Equations<Cx<R>> {
    excitation(c.devs, jacobian, x, angular(f), c.devs.len() as int)
}

fn lift<R: Real>(s: &Sys<R>) -> (r: Sys<Cx<R>>)
    requires
        s.wf(),
        s@.closed(),
    ensures
        r.wf(),
        r@.closed(),
        r@ == lifted(s@),
{
    let mut rows: Vec<Vec<(usize, Cx<R>)>> = Vec::new();
    let mut b: Vec<Cx<R>> = Vec::new();
    let mut i: usize = 0;
    while i < s.rows.len()
        invariant
            i <= s.rows@.len(),
            s.wf(),
            rows@.len() == i,
            b@.len() == i,
            forall|k: int|
                0 <= k < i ==> sparse::ascending((#[trigger] rows@[k])@) && sparse::row_map(
                    rows@[k]@,
                ) == lifted_row(sparse::row_map(s.rows@[k]@)),
            forall|k: int| 0 <= k < i ==> #[trigger] b@[k] == Cx::<R>::nil(),
        decreases s.rows@.len() - i,
    {
        let row = lift_row(&s.rows[i]);
        rows.push(row);
        b.push(Cx::zero());
        i = i + 1;
    }
    let r = Sys { rows, b };
    proof {
        assert(r@.rows =~= lifted(s@).rows);
        assert(r@.b =~= lifted(s@).b);
        assert forall|a: int, j: int| 0 <= a < r@.rows.len() && #[trigger] r@.rows[a].contains_key(
            j,
        ) implies a > 0 && 0 < j < s@.order() by {
            assert(s@.rows[a].contains_key(j));
        }
    }
    r
}

fn lift_row<R: Real>(row: &Vec<(usize, R)>) -> (r: Vec<(usize, Cx<R>)>)
    requires
        sparse::ascending(row@),
    ensures
        sparse::ascending(r@),
        sparse::row_map(r@) == lifted_row(sparse::row_map(row@)),
{
    let mut out: Vec<(usize, Cx<R>)> = Vec::new();
    let mut i: usize = 0;
    while i < row.len()
        invariant
            i <= row@.len(),
            out@.len() == i,
            forall|k: int|
                0 <= k < i ==> #[trigger] out@[k] == (
                    row@[k].0,
                    Cx { re: row@[k].1, im: R::nil() },
                ),
        decreases row@.len() - i,
    {
        out.push((row[i].0, Cx::new(row[i].1, R::zero())));
        i = i + 1;
    }
    proof {
        let a = sparse::row_map(out@);
        let b = lifted_row(sparse::row_map(row@));
        assert forall|i: int, j: int| 0 <= i < j < out@.len() implies (#[trigger] out@[i]).0 < (
        #[trigger] out@[j]).0 by {
            assert(row@[i].0 < row@[j].0);
        }
        assert forall|j: int| a.contains_key(j) implies #[trigger] b.contains_key(j) && a[j]
            == b[j] by {
            let k = choose|k: int| 0 <= k < out@.len() && (#[trigger] out@[k]).0 == j;
            sparse::lemma_row_entry(out@, k);
            sparse::lemma_row_entry(row@, k);
        }
        assert forall|j: int| b.contains_key(j) implies #[trigger] a.contains_key(j) by {
            let k = choose|k: int| 0 <= k < row@.len() && (#[trigger] row@[k]).0 == j;
            assert(out@[k].0 == j);
        }
        assert(a =~= b);
    }
    out
}

fn excite<R: Real>(s: &mut Sys<Cx<R>>, ckt: &Circuit<R>, di: usize, x: &[R], w: R)
    requires
        ckt@.wf(),
        di < ckt@.devs.len(),
        old(s).wf(),
        old(s)@.closed(),
        old(s)@.order() == ckt@.unknowns(),
        x@.len() == ckt@.unknowns(),
    ensures
        final(s).wf(),
        final(s)@.closed(),
        final(s)@.order() == old(s)@.order(),
        final(s)@ == excited(old(s)@, ckt@.devs[di as int], x@, w),
{
    proof {
        assert(ckt@.devs[di as int] == ckt.devs@[di as int]@);
        assert(ckt@.devs[di as int].placed(ckt@.nodes.len() as int));
        if ckt@.devs[di as int].has_branch() {
            circuit::lemma_branch_placed(ckt@, di as int);
        }
    }
    match &ckt.devs[di] {
        Dev::C { p, n, v, ic, m } => {
            let g = Cx::new(R::zero(), w.mul(ceval(x[*p].sub(x[*n]), *v, *m).1));
            proof {
                equations::lemma_with_quad_closed(
                    s@,
                    *p as int,
                    *n as int,
                    *p as int,
                    *n as int,
                    g,
                );
            }
            s.quad(*p, *n, *p, *n, g);
        },
        Dev::L { p, n, v, br, ic } => {
            let g = Cx::new(R::zero(), w.neg().mul(*v));
            proof {
                equations::lemma_with_closed(s@, *br as int, *br as int, g);
            }
            s.add(*br, *br, g);
        },
        Dev::V { p, n, dc, ac, wave, br } => {
            s.rhs(*br, Cx::new(*ac, R::zero()));
        },
        Dev::I { p, n, dc, ac, wave } => {
            s.rhs(*p, Cx::new(ac.neg(), R::zero()));
            s.rhs(*n, Cx::new(*ac, R::zero()));
        },
        _ => {},
    }
}

/// Whether the parameters of the analysis make no sense.
pub open spec fn bad_range<R: Real>(n: usize, f1: R, f2: R) -> bool {
    f1.at_most(R::nil()) || f2.below(f1) || n == 0
}

/// Frequency `k` of a logarithmic range with `n` points per decade.
pub open spec fn decade_point<R: Real>(n: usize, f1: R, k: int) -> R {
    f1.times(R::decimal(10, 0).power(R::integer(k).over(R::integer(n as int))))
}

/// The frequencies of a logarithmic range from point `k` on; nothing if there
/// are more than `limit`.
pub open spec fn decade_points<R: Real>(n: usize, f1: R, f2: R, k: int, limit: nat) -> Option<
    Seq<R>,
>
    decreases limit,
{
    let f = decade_point(n, f1, k);
    if !f.at_most(f2.times(R::unit().plus(R::decimal(1, -9)))) {
        Some(Seq::empty())
    } else if limit == 0 {
        None
    } else {
        match decade_points(n, f1, f2, k + 1, (limit - 1) as nat) {
            Some(rest) => Some(seq![f] + rest),
            None => None,
        }
    }
}

/// The frequencies of the analysis.
pub open spec fn frequencies<R: Real>(dec: bool, n: usize, f1: R, f2: R, limit: nat) -> Option<
    Seq<R>,
> {
    if dec {
        decade_points(n, f1, f2, 0, limit)
    } else if n == 1 {
        Some(seq![f1])
    } else {
        Some(
            Seq::new(
                n as nat,
                |k: int|
                    f1.plus(
                        f2.minus(f1).times(R::integer(k)).over(
                            R::integer(n as int).minus(R::unit()),
                        ),
                    ),
            ),
        )
    }
}

/// The frequencies of the analysis.
pub fn freqs<R: Real>(dec: bool, n: usize, f1: R, f2: R, limit: usize) -> (r: Option<Vec<R>>)
    ensures
        match r {
            Some(v) => frequencies(dec, n, f1, f2, limit as nat) == Some(v@),
            None => frequencies(dec, n, f1, f2, limit as nat) is None,
        },
{
    let mut out: Vec<R> = Vec::new();
    if dec {
        let ghost all = decade_points(n, f1, f2, 0, limit as nat);
        let stop = f2.mul(R::one().add(R::lit(1, -9)));
        let per = R::of_int(n as i128);
        let mut k: i128 = 0;
        let mut left: usize = limit;
        let mut f = f1.mul(R::lit(10, 0).powf(R::of_int(k).div(per)));
        proof {
            if all is Some {
                assert(out@ + all->0 =~= all->0);
            }
        }
        while f.le(stop)
            invariant
                stop == f2.times(R::unit().plus(R::decimal(1, -9))),
                per == R::integer(n as int),
                k + left == limit,
                0 <= k,
                f == decade_point(n, f1, k as int),
                all == decade_points(n, f1, f2, 0, limit as nat),
                dec,
                ({
                    let now = decade_points(n, f1, f2, k as int, left as nat);
                    match all {
                        Some(s) => now is Some && s == out@ + now->0,
                        None => now is None,
                    }
                }),
            decreases left,
        {
            if left == 0 {
                return None;
            }
            let ghost before = out@;
            out.push(f);
            k = k + 1;
            left = left - 1;
            proof {
                let now = decade_points(n, f1, f2, k as int, left as nat);
                if now is Some {
                    assert(before + (seq![f] + now->0) =~= out@ + now->0);
                }
            }
            f = f1.mul(R::lit(10, 0).powf(R::of_int(k).div(per)));
        }
        proof {
            assert(out@ + Seq::<R>::empty() =~= out@);
        }
    } else if n == 1 {
        out.push(f1);
        proof {
            assert(out@ =~= seq![f1]);
        }
    } else {
        let ghost all = frequencies(dec, n, f1, f2, limit as nat)->0;
        let span = f2.sub(f1);
        let last = R::of_int(n as i128).sub(R::one());
        let mut k: usize = 0;
        while k < n
            invariant
                k <= n,
                !dec,
                n != 1,
                span == f2.minus(f1),
                last == R::integer(n as int).minus(R::unit()),
                all == frequencies(dec, n, f1, f2, limit as nat)->0,
                out@ == all.take(k as int),
            decreases n - k,
        {
            out.push(f1.add(span.mul(R::of_int(k as i128)).div(last)));
            k = k + 1;
            proof {
                assert(out@ =~= all.take(k as int));
            }
        }
        proof {
            assert(all.take(n as int) =~= all);
        }
    }
    Some(out)
}

/// The phase of a response in degrees.
pub open spec fn phase<R: Real>(v: Cx<R>) -> R {
    v.im.angle(v.re).times(R::decimal(180, 0)).over(num::circle::<R>())
}

/// The numbers of a row: the frequency, then magnitude and phase of each of
/// the first `i` printed unknowns.
pub open spec fn response<R: Real>(f: R, x: Seq<Cx<R>>, idx: Seq<usize>, i: int) -> Seq<R>
    decreases i,
{
    if i <= 0 {
        seq![f]
    } else {
        let v = x[idx[i - 1] as int];
        response(f, x, idx, i - 1).push(v.length()).push(phase(v))
    }
}

fn respond<R: Real>(f: R, x: &Vec<Cx<R>>, idx: &Vec<usize>) -> (r: Vec<R>)
    requires
        forall|k: int| 0 <= k < idx@.len() ==> #[trigger] idx@[k] < x@.len(),
    ensures
        r@ == response(f, x@, idx@, idx@.len() as int),
{
    let mut out: Vec<R> = Vec::new();
    out.push(f);
    proof {
        assert(out@ =~= seq![f]);
    }
    let mut i: usize = 0;
    while i < idx.len()
        invariant
            i <= idx@.len(),
            forall|k: int| 0 <= k < idx@.len() ==> #[trigger] idx@[k] < x@.len(),
            out@ == response(f, x@, idx@, i as int),
        decreases idx@.len() - i,
    {
        let v = x[idx[i]];
        out.push(v.mag());
        out.push(v.im.atan2(v.re).mul(R::lit(180, 0)).div(pi::<R>()));
        i = i + 1;
    }
    out
}

/// The headings of magnitude and phase over the first `i` printed columns.
pub open spec fn response_headings(names: Seq<Seq<char>>, i: int) -> Seq<Seq<char>>
    decreases i,
{
    if i <= 0 {
        Seq::empty()
    } else {
        response_headings(names, i - 1).push(output::labelled("mag"@, names[i - 1])).push(
            output::labelled("ph"@, names[i - 1]),
        )
    }
}

fn head_response(names: &Vec<String>) -> (r: Vec<String>)
    ensures
        text::texts(r@) == response_headings(text::texts(names@), names@.len() as int),
{
    let mut out: Vec<String> = Vec::new();
    let mut i: usize = 0;
    proof {
        assert(text::texts(out@) =~= response_headings(text::texts(names@), 0));
    }
    while i < names.len()
        invariant
            i <= names@.len(),
            text::texts(out@) == response_headings(text::texts(names@), i as int),
        decreases names@.len() - i,
    {
        proof {
            assert(text::texts(names@)[i as int] == names@[i as int]@);
        }
        put(&mut out, label("mag", names[i].as_str()));
        put(&mut out, label("ph", names[i].as_str()));
        i = i + 1;
    }
    out
}

/// The rows of the analysis from frequency `k` on.
pub open spec fn response_rows<R: Real>(
    c: CircuitModel<R>,
    jacobian: Equations<R>,
    x: Seq<R>,
    fs: Seq<R>,
    k: int,
) -> (Seq<Seq<char>>, EndModel)
    decreases fs.len() - k,
{
    if k >= fs.len() {
        (Seq::empty(), EndModel::Done)
    } else {
        match equations::solution(response_equations(c, jacobian, x, fs[k])) {
            Err(u) => (
                Seq::empty(),
                EndModel::Failed(SimFault::SingularAc(circuit::unknown_label(c, u as int))),
            ),
            Ok(xa) => {
                let idx = output::selected(c);
                let (rest, end) = response_rows(c, jacobian, x, fs, k + 1);
                (seq![output::row(response(fs[k], xa, idx, idx.len() as int))] + rest, end)
            },
        }
    }
}

/// The coefficients of the operating point: the real part of the small signal
/// equations.
pub open spec fn jacobian<R: Real>(c: CircuitModel<R>, x: Seq<R>, lim: Seq<(R, R)>) -> Equations<R> {
    assembly::circuit_equations(
        c,
        x,
        lim,
        ModeModel::Dc { fac: R::unit() },
        models::min_conductance::<R>(),
    ).eq
}

/// A small signal analysis under way: the frequency `fs[k]` is the next one.
pub struct Response<R> {
    pub sdc: Sys<R>,
    pub x: Vec<R>,
    pub fs: Vec<R>,
    pub k: usize,
    pub idx: Vec<usize>,
}

#[verifier::ext_equal]
pub struct ResponseModel<R> {
    pub jacobian: Equations<R>,
    pub x: Seq<R>,
    pub fs: Seq<R>,
    pub k: int,
    pub idx: Seq<usize>,
}

impl<R: Real> View for Response<R> {
    type V = ResponseModel<R>;

    open spec fn view(&self) -> ResponseModel<R> {
        ResponseModel {
            jacobian: self.sdc@,
            x: self.x@,
            fs: self.fs@,
            k: self.k as int,
            idx: self.idx@,
        }
    }
}

impl<R: Real> Response<R> {
    /// The state fits the circuit.
    pub open spec fn wf(self, c: CircuitModel<R>) -> bool {
        &&& c.wf()
        &&& self.sdc.wf()
        &&& self.sdc@.closed()
        &&& self.sdc@.order() == c.unknowns()
        &&& self.x@.len() == c.unknowns()
        &&& self.k <= self.fs@.len()
        &&& self.idx@ == output::selected(c)
    }
}

impl<R: Real> ResponseModel<R> {
    /// The rows that are left and how the analysis ends.
    pub open spec fn rows(self, c: CircuitModel<R>) -> (Seq<Seq<char>>, EndModel) {
        response_rows(c, self.jacobian, self.x, self.fs, self.k)
    }
}

/// The opening of a small signal analysis: its report so far, and the state to
/// go on from unless it failed or has more than `limit` frequencies.
pub open spec fn ac_opening<R: Real>(
    c: CircuitModel<R>,
    dec: bool,
    n: usize,
    f1: R,
    f2: R,
    limit: nat,
) -> (ReportModel, Option<ResponseModel<R>>) {
    if bad_range(n, f1, f2) {
        (output::failure(SimFault::BadAc), None)
    } else {
        match solver::resting_point(c) {
            Err(e) => (output::failure(e), None),
            Ok((x, lim)) => match frequencies(dec, n, f1, f2, limit) {
                None => (
                    ReportModel {
                        notes: Seq::empty(),
                        lines: Seq::empty(),
                        end: EndModel::Unfinished,
                    },
                    None,
                ),
                Some(fs) => {
                    let idx = output::selected(c);
                    let names = output::headings(c, idx);
                    (
                        ReportModel {
                            notes: output::complaints(output::missing(c)),
                            lines: seq![
                                "# ac"@,
                                output::led(
                                    "freq"@,
                                    text::joined(
                                        response_headings(names, names.len() as int),
                                        ","@,
                                    ),
                                ),
                            ],
                            end: EndModel::Unfinished,
                        },
                        Some(
                            ResponseModel { jacobian: jacobian(c, x, lim), x, fs, k: 0, idx },
                        ),
                    )
                },
            },
        }
    }
}

/// The report on a small signal analysis; unfinished if it has more than
/// `limit` frequencies.
pub open spec fn ac_report<R: Real>(
    c: CircuitModel<R>,
    dec: bool,
    n: usize,
    f1: R,
    f2: R,
    limit: nat,
) -> ReportModel {
    let (opening, state) = ac_opening(c, dec, n, f1, f2, limit);
    match state {
        None => opening,
        Some(s) => {
            let (rows, end) = s.rows(c);
            ReportModel {
                lines: opening.lines + rows + (if end is Done {
                    seq![""@]
                } else {
                    Seq::empty()
                }),
                end,
                ..opening
            }
        },
    }
}

/// Solves the small signal equations at the frequency `f`.
fn respond_at<R: Real>(ckt: &Circuit<R>, sdc: &Sys<R>, x: &[R], f: R) -> (r: Result<
    Vec<Cx<R>>,
    usize,
>)
    requires
        ckt@.wf(),
        sdc.wf(),
        sdc@.closed(),
        sdc@.order() == ckt@.unknowns(),
        x@.len() == ckt@.unknowns(),
    ensures
        match r {
            Ok(xa) => equations::solution(response_equations(ckt@, sdc@, x@, f)) == Ok::<
                Seq<Cx<R>>,
                usize,
            >(xa@) && xa@.len() == ckt@.unknowns(),
            Err(k) => equations::solution(response_equations(ckt@, sdc@, x@, f)) == Err::<
                Seq<Cx<R>>,
                usize,
            >(k),
        },
{
    let w = R::lit(2, 0).mul(pi::<R>()).mul(f);
    let mut sc = lift(sdc);
    let mut di: usize = 0;
    while di < ckt.devs.len()
        invariant
            di <= ckt.devs@.len(),
            ckt@.wf(),
            sc.wf(),
            sc@.closed(),
            sc@.order() == ckt@.unknowns(),
            x@.len() == ckt@.unknowns(),
            sc@ == excitation(ckt@.devs, sdc@, x@, w, di as int),
        decreases ckt.devs@.len() - di,
    {
        excite(&mut sc, ckt, di, x, w);
        di = di + 1;
    }
    proof {
        equations::lemma_solution_shape(sc@);
    }
    solve(sc)
}

/// Opens a small signal analysis of up to `limit` frequencies.
pub fn start_ac<R: Real>(
    ckt: &Circuit<R>,
    dec: bool,
    n: usize,
    f1: R,
    f2: R,
    limit: usize,
) -> (r: (Report, Option<Response<R>>))
    requires
        ckt@.wf(),
    ensures
        ({
            let (report, state) = ac_opening(ckt@, dec, n, f1, f2, limit as nat);
            &&& r.0@ == report
            &&& match r.1 {
                Some(s) => state == Some(s@) && s.wf(ckt@),
                None => state is None,
            }
        }),
{
    if f1.le(R::zero()) || f2.lt(f1) || n == 0 {
        return (failed(SimError::BadAc), None);
    }
    let (_, x, mut lim) = match op_setup(ckt) {
        Err(e) => {
            return (failed(e), None);
        },
        Ok(p) => p,
    };
    let mut limited = false;
    let sdc = assemble(
        ckt,
        x.as_slice(),
        &mut lim,
        &Mode::Dc { fac: R::one() },
        gmin::<R>(),
        &mut limited,
    );
    let ghost opening = ac_opening(ckt@, dec, n, f1, f2, limit as nat).0;
    let fs = match freqs(dec, n, f1, f2, limit) {
        None => {
            let r = Report { notes: Vec::new(), lines: Vec::new(), end: End::Unfinished };
            proof {
                assert(r@ =~= opening);
            }
            return (r, None);
        },
        Some(v) => v,
    };
    let sel = selection(ckt);
    let mut lines: Vec<String> = Vec::new();
    put(&mut lines, "# ac".to_owned());
    put(&mut lines, lead("freq", join(&head_response(&sel.names), ",").as_str()));
    let r = Report { notes: complain(&sel.missing), lines, end: End::Unfinished };
    proof {
        assert(text::texts(sel.names@).len() == sel.names@.len());
        assert(r@.lines =~= opening.lines);
    }
    (r, Some(Response { sdc, x, fs, k: 0, idx: sel.idx }))
}

impl<R: Real> Response<R> {
    /// The row of the next frequency, or nothing behind the last one.
    pub fn next_row(&mut self, ckt: &Circuit<R>) -> (r: Option<Result<String, SimError>>)
        requires
            old(self).wf(ckt@),
        ensures
            final(self).wf(ckt@),
            ({
                let s = old(self)@;
                let found = equations::solution(
                    response_equations(ckt@, s.jacobian, s.x, s.fs[s.k]),
                );
                match r {
                    None => s.k == s.fs.len() && final(self)@ == s,
                    Some(Ok(line)) => {
                        &&& s.k < s.fs.len()
                        &&& found is Ok
                        &&& line@ == output::row(
                            response(s.fs[s.k], found->Ok_0, s.idx, s.idx.len() as int),
                        )
                        &&& final(self)@ == (ResponseModel { k: s.k + 1, ..s })
                    },
                    Some(Err(e)) => {
                        &&& s.k < s.fs.len()
                        &&& found is Err
                        &&& e@ == SimFault::SingularAc(
                            circuit::unknown_label(ckt@, found->Err_0 as int),
                        )
                        &&& final(self)@ == s
                    },
                }
            }),
    {
        if self.k >= self.fs.len() {
            return None;
        }
        let f = self.fs[self.k];
        proof {
            output::selected_unknowns_exist(ckt@);
        }
        match respond_at(ckt, &self.sdc, self.x.as_slice(), f) {
            Err(u) => Some(Err(SimError::SingularAc(unk_name(ckt, u)))),
            Ok(xa) => {
                self.k = self.k + 1;
                Some(Ok(fmt_row(respond(f, &xa, &self.idx).as_slice())))
            },
        }
    }
}

/// Runs a small signal analysis of up to `limit` frequencies.
pub fn run_ac<R: Real>(
    ckt: &Circuit<R>,
    dec: bool,
    n: usize,
    f1: R,
    f2: R,
    limit: usize,
) -> (r: Report)
    requires
        ckt@.wf(),
    ensures
        r@ == ac_report(ckt@, dec, n, f1, f2, limit as nat),
{
    let ghost c = ckt@;
    let (report, state) = start_ac(ckt, dec, n, f1, f2, limit);
    let mut state = match state {
        None => {
            return report;
        },
        Some(s) => s,
    };
    let Report { notes, mut lines, end: _ } = report;
    let ghost head = text::texts(lines@);
    let ghost all = state@.rows(c);
    loop
        invariant
            c == ckt@,
            state.wf(c),
            ac_opening(c, dec, n, f1, f2, limit as nat).1 is Some,
            ({
                let (opening, first) = ac_opening(c, dec, n, f1, f2, limit as nat);
                &&& text::texts(notes@) == opening.notes
                &&& head == opening.lines
                &&& all == first->0.rows(c)
            }),
            all.1 == state@.rows(c).1,
            head + all.0 == text::texts(lines@) + state@.rows(c).0,
        decreases state@.fs.len() - state@.k,
    {
        let ghost shown = text::texts(lines@);
        match state.next_row(ckt) {
            None => {
                put(&mut lines, "".to_owned());
                let r = Report { notes, lines, end: End::Done };
                proof {
                    assert(r@.lines =~= ac_report(c, dec, n, f1, f2, limit as nat).lines);
                }
                return r;
            },
            Some(Err(e)) => {
                let r = Report { notes, lines, end: End::Failed(e) };
                proof {
                    assert(r@.lines =~= ac_report(c, dec, n, f1, f2, limit as nat).lines);
                }
                return r;
            },
            Some(Ok(line)) => {
                let ghost l = line@;
                put(&mut lines, line);
                proof {
                    assert(text::texts(lines@) + state@.rows(c).0 =~= shown + (seq![l]
                        + state@.rows(c).0));
                }
            },
        }
    }
}

} // verus!
