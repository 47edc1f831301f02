//! What holds of sweeps over source values and frequencies.
use vstd::prelude::*;

use crate::assembly;
use crate::circuit;
use crate::circuit::{CircuitModel, DevModel};
use crate::equations::Equations;
use crate::exact;
use crate::field;
use crate::models;
use crate::num;
use crate::num::{Cx, Num, Real};
use crate::small_signal;
use crate::solver;
use crate::sweep;

verus! {

/// The integers of `R` are built by counting.
pub open spec fn counts<R: Real>() -> bool {
    &&& R::integer(0) == R::nil()
    &&& forall|i: int| #[trigger] R::integer(i).plus(R::unit()) == R::integer(i + 1)
}

/// A sweep that is done has one row for each of its points.
pub proof fn sweeps_print_every_point<R: Real>(
    c: CircuitModel<R>,
    di: int,
    start: R,
    step: R,
    k: int,
    n: int,
    x: Seq<R>,
    lim: Seq<(R, R)>,
)
    requires
        0 <= k <= n + 1,
    ensures
        ({
            let (rows, end) = sweep::sweep_rows(c, di, start, step, k, n, x, lim);
            &&& rows.len() <= n + 1 - k
            &&& end is Done <==> rows.len() == n + 1 - k
        }),
    decreases n + 1 - k,
{
    if k <= n {
        let val = sweep::sweep_value(start, step, k);
        match solver::operating_point(sweep::with_source(c, di, val), x, lim) {
            Ok((xn, ln)) => sweeps_print_every_point(c, di, start, step, k + 1, n, xn, ln),
            Err(_) => {},
        }
    }
}

/// In exact arithmetic a sweep begins at its start and goes on by its step.
pub proof fn sweeps_go_by_their_step<R: Real>(start: R, step: R, k: int)
    requires
        num::is_field::<R>(),
        counts::<R>(),
    ensures
        sweep::sweep_value(start, step, 0) == start,
        sweep::sweep_value(start, step, k + 1) == sweep::sweep_value(start, step, k).plus(step),
{
    field::times_nil(step);
    field::plus_nil(start);
    let i = R::integer(k);
    assert(i.plus(R::unit()) == R::integer(k + 1));
    field::distributes(step, i, R::unit());
    field::times_unit(step);
    field::plus_assoc(start, step.times(i), step);
}

/// A linear range of frequencies has the points asked for; in exact arithmetic
/// the first is its lower end and the last its upper end.
pub proof fn linear_ranges_reach_their_ends<R: Real>(n: usize, f1: R, f2: R, limit: nat)
    requires
        num::is_field::<R>(),
        counts::<R>(),
        n > 0,
        n > 1 ==> R::integer(n - 1) != R::nil(),
    ensures
        match small_signal::frequencies(false, n, f1, f2, limit) {
            Some(fs) => fs.len() == n && fs[0] == f1 && (n > 1 ==> fs.last() == f2),
            None => false,
        },
{
    if n > 1 {
        let span = f2.minus(f1);
        let last = R::integer(n as int).minus(R::unit());
        let top = R::integer(n - 1);
        assert(top.plus(R::unit()) == R::integer(n as int));
        field::minus_unique(R::integer(n as int), R::unit(), top);
        assert(last == top);
        // the first point
        field::times_nil(span);
        field::times_nil(last);
        field::over_unique(R::nil(), last, R::nil());
        field::plus_nil(f1);
        // the last point
        field::over_unique(span.times(top), last, span);
        field::minus_plus(f2, f1);
        field::plus_comm(f1, span);
    }
}

/// Every frequency of a logarithmic range lies below its upper end, up to the
/// tolerance for rounding, and the one that would come next does not.
pub proof fn decades_stay_in_range<R: Real>(n: usize, f1: R, f2: R, k: int, limit: nat)
    ensures
        match small_signal::decade_points(n, f1, f2, k, limit) {
            Some(fs) => {
                let top = f2.times(R::unit().plus(R::decimal(1, -9)));
                &&& fs.len() <= limit
                &&& forall|i: int|
                    0 <= i < fs.len() ==> (#[trigger] fs[i]) == small_signal::decade_point(
                        n,
                        f1,
                        k + i,
                    ) && fs[i].at_most(top)
                &&& !small_signal::decade_point(n, f1, k + fs.len()).at_most(top)
            },
            None => true,
        },
    decreases limit,
{
    let f = small_signal::decade_point(n, f1, k);
    if f.at_most(f2.times(R::unit().plus(R::decimal(1, -9)))) && limit > 0 {
        decades_stay_in_range(n, f1, f2, k + 1, (limit - 1) as nat);
        let rest = small_signal::decade_points(n, f1, f2, k + 1, (limit - 1) as nat);
        if rest is Some {
            let fs = seq![f] + rest->0;
            assert forall|i: int| 0 <= i < fs.len() implies (#[trigger] fs[i])
                == small_signal::decade_point(n, f1, k + i) && fs[i].at_most(
                f2.times(R::unit().plus(R::decimal(1, -9))),
            ) by {
                if i > 0 {
                    assert(fs[i] == rest->0[i - 1]);
                    assert(rest->0[i - 1] == small_signal::decade_point(n, f1, k + 1 + (i - 1)));
                }
            }
        }
    }
}

/// Every coefficient of a complex system has the real part that the real
/// system has there.
pub open spec fn real_part_of<R: Real>(s: Equations<Cx<R>>, j: Equations<R>) -> bool {
    &&& s.rows.len() == j.rows.len()
    &&& s.b.len() == j.b.len()
    &&& forall|r: int, k: int|
        0 <= r < s.rows.len() ==> (#[trigger] exact::coef(s.rows[r], k)).re == exact::coef(
            j.rows[r],
            k,
        )
}

proof fn lemma_with_imaginary<R: Real>(
    s: Equations<Cx<R>>,
    j: Equations<R>,
    a: int,
    b: int,
    g: Cx<R>,
)
    requires
        num::is_field::<R>(),
        real_part_of(s, j),
        0 <= a < s.rows.len(),
        g.re == R::nil(),
    ensures
        real_part_of(s.with(a, b, g), j),
{
    let w = s.with(a, b, g);
    assert forall|r: int, k: int| 0 <= r < w.rows.len() implies (#[trigger] exact::coef(
        w.rows[r],
        k,
    )).re == exact::coef(j.rows[r], k) by {
        let was = exact::coef(s.rows[r], k);
        assert(was.re == exact::coef(j.rows[r], k));
        if a != 0 && b != 0 && r == a && k == b {
            field::plus_nil(was.re);
        }
    }
}

proof fn lemma_excitation_real<R: Real>(
    c: CircuitModel<R>,
    j: Equations<R>,
    x: Seq<R>,
    w: R,
    i: int,
)
    requires
        num::is_field::<R>(),
        c.wf(),
        j.rows.len() == c.unknowns(),
        j.b.len() == c.unknowns(),
        0 <= i <= c.devs.len(),
    ensures
        real_part_of(small_signal::excitation(c.devs, j, x, w, i), j),
    decreases i,
{
    if i > 0 {
        lemma_excitation_real(c, j, x, w, i - 1);
        let s = small_signal::excitation(c.devs, j, x, w, i - 1);
        let d = c.devs[i - 1];
        assert(d.placed(c.nodes.len() as int));
        circuit::lemma_branch_count(c.devs, 0, c.devs.len() as int);
        if d.has_branch() {
            circuit::lemma_branch_placed(c, i - 1);
        }
        match d {
            DevModel::C { p, n, v, m, .. } => {
                let g = Cx {
                    re: R::nil(),
                    im: w.times(
                        models::charge(assembly::across(x, p, n), v, m).1,
                    ),
                };
                let o = Cx::<R>::nil().minus(g);
                field::minus_self(R::nil());
                let (a, b) = (p as int, n as int);
                lemma_with_imaginary(s, j, a, a, g);
                lemma_with_imaginary(s.with(a, a, g), j, a, b, o);
                lemma_with_imaginary(s.with(a, a, g).with(a, b, o), j, b, a, o);
                lemma_with_imaginary(
                    s.with(a, a, g).with(a, b, o).with(b, a, o),
                    j,
                    b,
                    b,
                    g,
                );
            },
            DevModel::L { v, br, .. } => {
                let g = Cx { re: R::nil(), im: w.opposite().times(v) };
                lemma_with_imaginary(s, j, br as int, br as int, g);
            },
            DevModel::V { ac, br, .. } => {
                assert(s.with_rhs(br as int, Cx { re: ac, im: R::nil() }).rows == s.rows);
            },
            DevModel::I { p, n, ac, .. } => {
                let u = s.with_rhs(p as int, Cx { re: ac.opposite(), im: R::nil() });
                assert(u.rows == s.rows);
                assert(u.with_rhs(n as int, Cx { re: ac, im: R::nil() }).rows == s.rows);
            },
            _ => {},
        }
    } else {
        let s = small_signal::lifted(j);
        assert forall|r: int, k: int| 0 <= r < s.rows.len() implies (#[trigger] exact::coef(
            s.rows[r],
            k,
        )).re == exact::coef(j.rows[r], k) by {}
    }
}

/// The real part of the small signal equations is the system of the operating
/// point, at every frequency.
pub proof fn real_part_is_the_operating_point<R: Real>(
    c: CircuitModel<R>,
    j: Equations<R>,
    x: Seq<R>,
    f: R,
)
    requires
        num::is_field::<R>(),
        c.wf(),
        j.rows.len() == c.unknowns(),
        j.b.len() == c.unknowns(),
    ensures
        real_part_of(small_signal::response_equations(c, j, x, f), j),
{
    lemma_excitation_real(c, j, x, small_signal::angular(f), c.devs.len() as int);
}

} // verus!
