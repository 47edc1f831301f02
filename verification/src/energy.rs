//! The trapezoidal rule conserves the energy of a resonator.
use vstd::prelude::*;

use crate::assembly;
use crate::circuit::DevModel;
use crate::field;
use crate::model_laws;
use crate::num;
use crate::num::Real;
use crate::solver;

verus! {

/// Twice the energy in a capacitance at the voltage `v` and an inductance with
/// the current `i`.
pub open spec fn energy<R: Real>(c: R, v: R, l: R, i: R) -> R {
    c.times(v.times(v)).plus(l.times(i.times(i)))
}

/// `((k * (g * d)) * s) == k * (g * (d * s))`
proof fn lemma_regroup<R: Real>(k: R, g: R, d: R, s: R)
    requires
        num::is_field::<R>(),
    ensures
        k.times(g.times(d)).times(s) == k.times(g.times(d.times(s))),
{
    field::times_assoc(k, g.times(d), s);
    field::times_assoc(g, d, s);
}

/// A number whose product with a number other than zero is zero is zero.
proof fn lemma_no_divisors<R: Real>(k: R, a: R)
    requires
        num::is_field::<R>(),
        k != R::nil(),
        k.times(a) == R::nil(),
    ensures
        a == R::nil(),
{
    field::times_comm(k, a);
    field::times_nil(k);
    field::over_unique(R::nil(), k, a);
    field::over_unique(R::nil(), k, R::nil());
}

/// In exact arithmetic a trapezoidal step does not change the energy of a
/// capacitor and an inductor in parallel: if their currents balance and they
/// share their voltage before and after the step, the energy after the step is
/// the energy before it.
pub proof fn resonators_keep_their_energy<R: Real>(
    p: usize,
    n: usize,
    c: R,
    l: R,
    ic: R,
    il: R,
    br: usize,
    x: Seq<R>,
    xn: Seq<R>,
    h: R,
)
    requires
        num::is_field::<R>(),
        R::nil().at_most(R::nil()),
        assembly::rule_factor::<R>(false).over(h) != R::nil(),
        ({
            let cap = DevModel::C { p, n, v: c, ic, m: R::nil() };
            let ind = DevModel::L { p, n, v: l, br, ic: il };
            let v = assembly::across(x, p, n);
            let i = x[br as int];
            let sc = solver::next_state(cap, xn, h, (c.times(v), R::nil().minus(i)), false);
            let sl = solver::next_state(ind, xn, h, (l.times(i), v), false);
            &&& sc.1 == R::nil().minus(xn[br as int])
            &&& sl.1 == assembly::across(xn, p, n)
        }),
    ensures
        energy(c, assembly::across(xn, p, n), l, xn[br as int]) == energy(
            c,
            assembly::across(x, p, n),
            l,
            x[br as int],
        ),
{
    let v = assembly::across(x, p, n);
    let w = assembly::across(xn, p, n);
    let i = x[br as int];
    let j = xn[br as int];
    let k = assembly::rule_factor::<R>(false).over(h);
    let s = w.plus(v);
    let t = j.plus(i);
    let ni = R::nil().minus(i);
    let nj = R::nil().minus(j);
    field::times_unit(ni);
    field::times_unit(v);
    // k c (w - v) == 0 - t
    let a = k.times(c.times(w).minus(c.times(v)));
    assert(a.minus(ni) == nj);
    field::minus_plus(a, ni);
    field::minus_exchange(R::nil(), j, R::nil(), i);
    field::plus_nil(R::nil());
    field::distributes_minus(c, w, v);
    assert(k.times(c.times(w.minus(v))) == R::nil().minus(t));
    // k l (j - i) == s
    let b = k.times(l.times(j).minus(l.times(i)));
    assert(b.minus(v) == w);
    field::minus_plus(b, v);
    field::distributes_minus(l, j, i);
    assert(k.times(l.times(j.minus(i))) == s);
    // multiplied by s and by t the two cancel
    lemma_regroup(k, c, w.minus(v), s);
    lemma_regroup(k, l, j.minus(i), t);
    model_laws::lemma_squares(w, v);
    model_laws::lemma_squares(j, i);
    field::opposite_times(t, s);
    field::times_comm(t, s);
    let st = s.times(t);
    let dv = c.times(w.times(w).minus(v.times(v)));
    let di = l.times(j.times(j).minus(i.times(i)));
    assert(k.times(dv) == R::nil().minus(st));
    assert(k.times(di) == st);
    field::minus_plus(R::nil(), st);
    field::distributes(k, dv, di);
    lemma_no_divisors(k, dv.plus(di));
    // so the energy does not change
    field::distributes_minus(c, w.times(w), v.times(v));
    field::distributes_minus(l, j.times(j), i.times(i));
    field::minus_exchange(
        c.times(w.times(w)),
        c.times(v.times(v)),
        l.times(j.times(j)),
        l.times(i.times(i)),
    );
    let after = energy(c, w, l, j);
    let before = energy(c, v, l, i);
    assert(after.minus(before) == R::nil());
    field::minus_plus(after, before);
    field::plus_nil(before);
}

} // verus!
