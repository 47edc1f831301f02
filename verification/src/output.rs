//! What is printed of a solution.
use vstd::prelude::*;

use crate::circuit;
use crate::circuit::{branches, Circuit, CircuitModel};
use crate::fault::{SimError, SimFault};
use crate::num::Real;
use crate::text;
use crate::text::{join, lists, put};

verus! {

/// How an analysis ended.
pub enum End {
    Done,
    Failed(SimError),
    /// The limit on its length was reached first.
    Unfinished,
}

pub enum EndModel {
    Done,
    Failed(SimFault),
    Unfinished,
}

impl View for End {
    type V = EndModel;

    open spec fn view(&self) -> EndModel {
        match self {
            End::Done => EndModel::Done,
            End::Failed(e) => EndModel::Failed(e@),
            End::Unfinished => EndModel::Unfinished,
        }
    }
}

/// What an analysis has to say: notes for the user, the lines of its result,
/// and how it ended.
pub struct Report {
    pub notes: Vec<String>,
    pub lines: Vec<String>,
    pub end: End,
}

#[verifier::ext_equal]
pub struct ReportModel {
    pub notes: Seq<Seq<char>>,
    pub lines: Seq<Seq<char>>,
    pub end: EndModel,
}

impl View for Report {
    type V = ReportModel;

    open spec fn view(&self) -> ReportModel {
        ReportModel {
            notes: text::texts(self.notes@),
            lines: text::texts(self.lines@),
            end: self.end@,
        }
    }
}

/// The report of an analysis that failed before it printed anything.
pub open spec fn failure(e: SimFault) -> ReportModel {
    ReportModel { notes: Seq::empty(), lines: Seq::empty(), end: EndModel::Failed(e) }
}

pub fn failed(e: SimError) -> (r: Report)
    ensures
        r@ == failure(e@),
{
    let r = Report { notes: Vec::new(), lines: Vec::new(), end: End::Failed(e) };
    proof {
        assert(r@ =~= failure(e@));
    }
    r
}

/// A name in round brackets behind a letter or word.
pub open spec fn labelled(kind: Seq<char>, name: Seq<char>) -> Seq<char> {
    kind + "("@ + name + ")"@
}

pub fn label(kind: &str, name: &str) -> (r: String)
    ensures
        r@ == labelled(kind@, name@),
{
    let mut s = kind.to_owned();
    s.append("(");
    s.append(name);
    s.append(")");
    s
}

/// The printable quantities: the voltage of each node but ground, then the
/// branch currents. Column `i` is unknown `i + 1`.
pub open spec fn column_names<R>(c: CircuitModel<R>) -> Seq<Seq<char>> {
    Seq::new((c.nodes.len() - 1) as nat, |i: int| labelled("v"@, c.nodes[i + 1])) + Seq::new(
        c.branches().len(),
        |i: int| labelled("i"@, c.branches()[i]),
    )
}

/// There is a column for each unknown but ground.
pub proof fn columns_cover_the_unknowns<R>(c: CircuitModel<R>)
    requires
        c.wf(),
    ensures
        column_names(c).len() == c.unknowns() - 1,
{
    circuit::lemma_branch_names(c, c.devs.len() as int);
}

pub fn columns<R: Real>(ckt: &Circuit<R>) -> (r: Vec<String>)
    requires
        ckt@.wf(),
    ensures
        text::texts(r@) == column_names(ckt@),
{
    let ghost all = column_names(ckt@);
    let mut out: Vec<String> = Vec::new();
    let mut i: usize = 1;
    while i < ckt.nodes.len()
        invariant
            1 <= i <= ckt.nodes@.len(),
            all == column_names(ckt@),
            text::texts(out@) == all.take(i - 1),
        decreases ckt.nodes@.len() - i,
    {
        put(&mut out, label("v", ckt.nodes[i].as_str()));
        i = i + 1;
        proof {
            assert(all.take(i - 1) =~= all.take(i - 2).push(all[i - 2]));
        }
    }
    let names = branches(ckt);
    let ghost nn = ckt@.nodes.len() as int;
    let mut k: usize = 0;
    proof {
        assert(text::texts(names@).len() == names@.len());
    }
    while k < names.len()
        invariant
            k <= names@.len(),
            text::texts(names@) == ckt@.branches(),
            names@.len() == ckt@.branches().len(),
            nn == ckt@.nodes.len(),
            nn >= 1,
            all == column_names(ckt@),
            text::texts(out@) == all.take(nn - 1 + k),
        decreases names@.len() - k,
    {
        proof {
            assert(text::texts(names@)[k as int] == names@[k as int]@);
        }
        put(&mut out, label("i", names[k].as_str()));
        k = k + 1;
        proof {
            assert(all.take(nn - 1 + k) =~= all.take(nn - 2 + k).push(all[nn - 2 + k]));
        }
    }
    proof {
        assert(all.take(all.len() as int) =~= all);
    }
    out
}

/// The printed columns and the unknowns they show.
pub struct Selection {
    /// Items to print that the circuit has no column for.
    pub missing: Vec<String>,
    pub names: Vec<String>,
    pub idx: Vec<usize>,
}

/// A column is printed if it was asked for or if nothing was.
pub open spec fn wanted(prints: Seq<Seq<char>>, column: Seq<char>) -> bool {
    prints.len() == 0 || prints.contains(column)
}

/// The unknowns behind the wanted ones among the first `i` columns.
pub open spec fn chosen(columns: Seq<Seq<char>>, prints: Seq<Seq<char>>, i: int) -> Seq<usize>
    decreases i,
{
    if i <= 0 {
        Seq::empty()
    } else if wanted(prints, columns[i - 1]) {
        chosen(columns, prints, i - 1).push(i as usize)
    } else {
        chosen(columns, prints, i - 1)
    }
}

/// The unknowns that are printed.
pub open spec fn selected<R>(c: CircuitModel<R>) -> Seq<usize> {
    chosen(column_names(c), c.prints, column_names(c).len() as int)
}

/// The headings over the given unknowns.
pub open spec fn headings<R>(c: CircuitModel<R>, idx: Seq<usize>) -> Seq<Seq<char>> {
    Seq::new(idx.len(), |i: int| column_names(c)[idx[i] - 1])
}

/// Those of the first `i` items to print that are no column.
pub open spec fn absent(columns: Seq<Seq<char>>, prints: Seq<Seq<char>>, i: int) -> Seq<Seq<char>>
    decreases i,
{
    if i <= 0 {
        Seq::empty()
    } else if columns.contains(prints[i - 1]) {
        absent(columns, prints, i - 1)
    } else {
        absent(columns, prints, i - 1).push(prints[i - 1])
    }
}

/// The items to print that are no column.
pub open spec fn missing<R>(c: CircuitModel<R>) -> Seq<Seq<char>> {
    absent(column_names(c), c.prints, c.prints.len() as int)
}

proof fn lemma_chosen(columns: Seq<Seq<char>>, prints: Seq<Seq<char>>, i: int)
    requires
        0 <= i <= columns.len(),
        columns.len() < usize::MAX,
    ensures
        forall|k: int|
            0 <= k < chosen(columns, prints, i).len() ==> 1 <= #[trigger] chosen(
                columns,
                prints,
                i,
            )[k] <= i && wanted(prints, columns[chosen(columns, prints, i)[k] - 1]),
        forall|j: int, k: int|
            0 <= j < k < chosen(columns, prints, i).len() ==> #[trigger] chosen(
                columns,
                prints,
                i,
            )[j] < #[trigger] chosen(columns, prints, i)[k],
    decreases i,
{
    if i > 0 {
        lemma_chosen(columns, prints, i - 1);
        let s = chosen(columns, prints, i);
        let t = chosen(columns, prints, i - 1);
        assert(forall|k: int| 0 <= k < t.len() ==> s[k] == #[trigger] t[k]);
        assert forall|k: int| 0 <= k < s.len() implies 1 <= #[trigger] s[k] <= i && wanted(
            prints,
            columns[s[k] - 1],
        ) && (k < t.len() ==> s[k] < i) by {
            if k < t.len() {
                assert(t[k] <= i - 1);
            }
        }
        assert forall|j: int, k: int| 0 <= j < k < s.len() implies #[trigger] s[j] < #[trigger] s[k] by {
            if k < t.len() {
                assert(t[j] < t[k]);
            }
        }
    }
}

proof fn lemma_chosen_complete(columns: Seq<Seq<char>>, prints: Seq<Seq<char>>, i: int, u: int)
    requires
        0 <= i <= columns.len(),
        columns.len() < usize::MAX,
        1 <= u <= i,
        wanted(prints, columns[u - 1]),
    ensures
        chosen(columns, prints, i).contains(u as usize),
    decreases i,
{
    let s = chosen(columns, prints, i);
    if u == i {
        assert(s.last() == u as usize);
    } else {
        lemma_chosen_complete(columns, prints, i - 1, u);
        let t = chosen(columns, prints, i - 1);
        let k = choose|k: int| 0 <= k < t.len() && t[k] == u as usize;
        assert(s[k] == u as usize);
    }
}

/// The printed unknowns are unknowns other than ground, each printed once and
/// in their order.
pub proof fn selected_unknowns_exist<R>(c: CircuitModel<R>)
    requires
        c.wf(),
    ensures
        forall|k: int|
            0 <= k < selected(c).len() ==> 1 <= #[trigger] selected(c)[k] < c.unknowns(),
        forall|j: int, k: int|
            0 <= j < k < selected(c).len() ==> #[trigger] selected(c)[j] < #[trigger] selected(c)[k],
{
    columns_cover_the_unknowns(c);
    lemma_chosen(column_names(c), c.prints, column_names(c).len() as int);
}

/// An unknown is printed exactly if its column is asked for, or if nothing is:
/// then every unknown is printed.
pub proof fn selected_are_the_wanted<R>(c: CircuitModel<R>, u: usize)
    requires
        c.wf(),
    ensures
        selected(c).contains(u) <==> 1 <= u < c.unknowns() && (c.prints.len() == 0
            || c.prints.contains(column_names(c)[u - 1])),
{
    columns_cover_the_unknowns(c);
    let n = column_names(c).len() as int;
    lemma_chosen(column_names(c), c.prints, n);
    if selected(c).contains(u) {
        let k = choose|k: int| 0 <= k < selected(c).len() && selected(c)[k] == u;
        assert(selected(c)[k] == u);
    }
    if 1 <= u < c.unknowns() && wanted(c.prints, column_names(c)[u - 1]) {
        lemma_chosen_complete(column_names(c), c.prints, n, u as int);
    }
}

/// The columns to print and the unknowns behind them.
pub fn selection<R: Real>(ckt: &Circuit<R>) -> (r: Selection)
    requires
        ckt@.wf(),
    ensures
        text::texts(r.missing@) == missing(ckt@),
        r.idx@ == selected(ckt@),
        text::texts(r.names@) == headings(ckt@, r.idx@),
{
    let all = columns(ckt);
    let ghost cols = column_names(ckt@);
    let ghost prints = ckt@.prints;
    proof {
        columns_cover_the_unknowns(ckt@);
        assert(text::texts(all@).len() == all@.len());
    }
    let mut gone: Vec<String> = Vec::new();
    let mut i: usize = 0;
    proof {
        assert(text::texts(gone@) =~= absent(cols, prints, 0));
    }
    while i < ckt.prints.len()
        invariant
            i <= ckt.prints@.len(),
            prints == ckt@.prints,
            cols == text::texts(all@),
            text::texts(gone@) == absent(cols, prints, i as int),
        decreases ckt.prints@.len() - i,
    {
        if !lists(&all, ckt.prints[i].as_str()) {
            put(&mut gone, ckt.prints[i].clone());
        }
        i = i + 1;
    }
    let every: bool = ckt.prints.len() == 0;
    let mut names: Vec<String> = Vec::new();
    let mut idx: Vec<usize> = Vec::new();
    let mut k: usize = 0;
    proof {
        lemma_chosen(cols, prints, 0);
        assert(text::texts(names@) =~= headings(ckt@, idx@));
    }
    while k < all.len()
        invariant
            k <= all@.len(),
            all@.len() < usize::MAX,
            prints == ckt@.prints,
            every == (prints.len() == 0),
            cols == text::texts(all@),
            cols == column_names(ckt@),
            idx@ == chosen(cols, prints, k as int),
            text::texts(names@) == headings(ckt@, idx@),
        decreases all@.len() - k,
    {
        let ghost before = headings(ckt@, idx@);
        proof {
            assert(cols[k as int] == all@[k as int]@);
        }
        if every || lists(&ckt.prints, all[k].as_str()) {
            put(&mut names, all[k].clone());
            idx.push(k + 1);
            proof {
                assert(headings(ckt@, idx@) =~= before.push(cols[k as int]));
            }
        }
        k = k + 1;
    }
    Selection { missing: gone, names, idx }
}

/// The notes on items that cannot be printed.
pub open spec fn complaints(gone: Seq<Seq<char>>) -> Seq<Seq<char>> {
    Seq::new(gone.len(), |i: int| "unknown .print item "@ + gone[i])
}

pub fn complain(gone: &Vec<String>) -> (r: Vec<String>)
    ensures
        text::texts(r@) == complaints(text::texts(gone@)),
{
    let ghost all = complaints(text::texts(gone@));
    let mut out: Vec<String> = Vec::new();
    let mut i: usize = 0;
    while i < gone.len()
        invariant
            i <= gone@.len(),
            all == complaints(text::texts(gone@)),
            text::texts(out@) == all.take(i as int),
        decreases gone@.len() - i,
    {
        let mut s = "unknown .print item ".to_owned();
        s.append(gone[i].as_str());
        put(&mut out, s);
        i = i + 1;
        proof {
            assert(all.take(i as int) =~= all.take(i - 1).push(all[i - 1]));
        }
    }
    proof {
        assert(all.take(all.len() as int) =~= all);
    }
    out
}

/// The values of the given unknowns.
pub open spec fn picked<R>(x: Seq<R>, idx: Seq<usize>) -> Seq<R> {
    Seq::new(idx.len(), |i: int| x[idx[i] as int])
}

pub fn pick<R: Real>(x: &[R], idx: &[usize]) -> (r: Vec<R>)
    requires
        forall|k: int| 0 <= k < idx@.len() ==> #[trigger] idx@[k] < x@.len(),
    ensures
        r@ == picked(x@, idx@),
{
    let mut out: Vec<R> = Vec::new();
    let mut i: usize = 0;
    while i < idx.len()
        invariant
            i <= idx@.len(),
            forall|k: int| 0 <= k < idx@.len() ==> #[trigger] idx@[k] < x@.len(),
            out@ == picked(x@, idx@).take(i as int),
        decreases idx@.len() - i,
    {
        out.push(x[idx[i]]);
        i = i + 1;
        proof {
            assert(out@ =~= picked(x@, idx@).take(i as int));
        }
    }
    proof {
        assert(picked(x@, idx@).take(idx@.len() as int) =~= picked(x@, idx@));
    }
    out
}

/// The text of a number in a row.
pub open spec fn cell<R: Real>(v: R) -> Seq<char> {
    v.shown(9)
}

/// Numbers with nine digits behind the point, separated by commas.
pub open spec fn row<R: Real>(vals: Seq<R>) -> Seq<char> {
    text::joined(Seq::new(vals.len(), |i: int| cell(vals[i])), ","@)
}

pub fn fmt_row<R: Real>(vals: &[R]) -> (r: String)
    ensures
        r@ == row(vals@),
{
    let ghost all = Seq::new(vals@.len(), |i: int| cell(vals@[i]));
    let mut cells: Vec<String> = Vec::new();
    let mut i: usize = 0;
    while i < vals.len()
        invariant
            i <= vals@.len(),
            all == Seq::new(vals@.len(), |i: int| cell(vals@[i])),
            text::texts(cells@) == all.take(i as int),
        decreases vals@.len() - i,
    {
        put(&mut cells, vals[i].show(9));
        i = i + 1;
        proof {
            assert(all.take(i as int) =~= all.take(i - 1).push(all[i - 1]));
        }
    }
    proof {
        assert(all.take(vals@.len() as int) =~= all);
    }
    join(&cells, ",")
}

/// A first field before the others of a line.
pub open spec fn led(first: Seq<char>, rest: Seq<char>) -> Seq<char> {
    first + ","@ + rest
}

pub fn lead(first: &str, rest: &str) -> (r: String)
    ensures
        r@ == led(first@, rest@),
{
    let mut s = first.to_owned();
    s.append(",");
    s.append(rest);
    s
}

/// The row of a solution: the swept quantity and the printed unknowns.
pub open spec fn point_row<R: Real>(at: R, x: Seq<R>, idx: Seq<usize>) -> Seq<char> {
    led(cell(at), row(picked(x, idx)))
}

pub fn show_point<R: Real>(at: R, x: &[R], idx: &[usize]) -> (r: String)
    requires
        forall|k: int| 0 <= k < idx@.len() ==> #[trigger] idx@[k] < x@.len(),
    ensures
        r@ == point_row(at, x@, idx@),
{
    let vals = pick(x, idx);
    lead(at.show(9).as_str(), fmt_row(vals.as_slice()).as_str())
}

} // verus!
