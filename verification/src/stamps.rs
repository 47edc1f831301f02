//! What the contributions of the devices mean for the equations, in exact
//! arithmetic.
use vstd::prelude::*;

use crate::equations;
use crate::equations::Equations;
use crate::exact;
use crate::field;
use crate::num;
use crate::num::Num;

verus! {

/// By how much row `r` misses its right hand side at `y`.
pub open spec fn surplus<T: Num>(s: Equations<T>, r: int, y: Seq<T>) -> T {
    exact::dot(s.rows[r], y, s.order()).minus(s.b[r])
}

/// The part of a linearized current that follows the control voltages, over
/// the first `k` control pairs.
pub open spec fn sloped<T: Num>(ctl: Seq<(usize, usize, T)>, y: Seq<T>, k: int) -> T
    decreases k,
{
    if k <= 0 {
        T::nil()
    } else {
        let c = ctl[k - 1];
        sloped(ctl, y, k - 1).plus(c.2.times(y[c.0 as int].minus(y[c.1 as int])))
    }
}

/// The current at `y` of a device that carries `i` at `x` and has the slopes
/// `ctl` there.
pub open spec fn linearized<T: Num>(
    i: T,
    ctl: Seq<(usize, usize, T)>,
    x: Seq<T>,
    y: Seq<T>,
) -> T {
    sloped(ctl, y, ctl.len() as int).plus(
        equations::offset_current(i, ctl, x, ctl.len() as int),
    )
}

/// `d` when the current `t` has been taken out at `p` and put in at `n`, seen
/// from row `r`.
pub open spec fn moved<T: Num>(d: T, t: T, r: int, p: int, n: int) -> T {
    let out = if r == p {
        d.plus(t)
    } else {
        d
    };
    if r == n {
        out.minus(t)
    } else {
        out
    }
}

/// A current from a node to itself moves nothing.
proof fn lemma_moved_nowhere<T: Num>(d: T, t: T, r: int, p: int)
    requires
        num::is_field::<T>(),
    ensures
        moved(d, t, r, p, p) == d,
{
    field::plus_minus(d, t, t);
    field::minus_self(t);
    field::plus_nil(d);
}

/// The system has `p` and `n` as unknowns or ground, and the controls too.
spec fn within<T: Num>(s: Equations<T>, p: int, n: int, ctl: Seq<(usize, usize, T)>, y: Seq<T>) -> bool {
    &&& s.grounded()
    &&& 0 <= p < s.order()
    &&& 0 <= n < s.order()
    &&& y[0] == T::nil()
    &&& forall|k: int|
        0 <= k < ctl.len() ==> (#[trigger] ctl[k]).0 < s.order() && ctl[k].1 < s.order()
}

proof fn lemma_dot_insert<T: Num>(row: Map<int, T>, y: Seq<T>, j: int, v: T, hi: int)
    requires
        num::is_field::<T>(),
        1 <= j,
    ensures
        ({
            let sum = if row.contains_key(j) {
                row[j].plus(v)
            } else {
                v
            };
            exact::dot(row.insert(j, sum), y, hi) == if j < hi {
                exact::dot(row, y, hi).plus(v.times(y[j]))
            } else {
                exact::dot(row, y, hi)
            }
        }),
    decreases hi,
{
    let sum = if row.contains_key(j) {
        row[j].plus(v)
    } else {
        v
    };
    let now = row.insert(j, sum);
    if hi > 1 {
        let h = hi - 1;
        lemma_dot_insert(row, y, j, v, h);
        let d = exact::dot(row, y, h);
        let c = exact::coef(row, h);
        if h == j {
            field::plus_nil(v);
            assert(exact::coef(now, h) == c.plus(v));
            field::plus_distributes(c, v, y[j]);
            field::plus_assoc(d, c.times(y[j]), v.times(y[j]));
        } else if j < h {
            let t = c.times(y[h]);
            let u = v.times(y[j]);
            field::plus_assoc(d, u, t);
            field::plus_comm(u, t);
            field::plus_assoc(d, t, u);
        }
    }
}

/// The effect of one coefficient on the value of row `r`.
proof fn lemma_with<T: Num>(s: Equations<T>, i: int, j: int, v: T, r: int, y: Seq<T>)
    requires
        num::is_field::<T>(),
        s.grounded(),
        0 <= i < s.order(),
        0 <= j < s.order(),
        0 < r < s.order(),
        y[0] == T::nil(),
    ensures
        s.with(i, j, v).grounded(),
        s.with(i, j, v).order() == s.order(),
        s.with(i, j, v).b == s.b,
        exact::dot(s.with(i, j, v).rows[r], y, s.order()) == if r == i {
            exact::dot(s.rows[r], y, s.order()).plus(v.times(y[j]))
        } else {
            exact::dot(s.rows[r], y, s.order())
        },
{
    let w = s.with(i, j, v);
    assert forall|a: int, c: int| 0 <= a < w.rows.len() && #[trigger] w.rows[a].contains_key(c) implies a
        > 0 && c > 0 by {
        if a != i || c != j {
            assert(s.rows[a].contains_key(c));
        }
    }
    if r == i {
        if j == 0 {
            field::times_nil(v);
            field::plus_nil(exact::dot(s.rows[r], y, s.order()));
        } else {
            lemma_dot_insert(s.rows[r], y, j, v, s.order());
        }
    }
}

/// The effect of a conductance quad on the value of row `r`.
proof fn lemma_with_quad<T: Num>(
    s: Equations<T>,
    p: int,
    n: int,
    cp: int,
    cn: int,
    g: T,
    r: int,
    y: Seq<T>,
)
    requires
        num::is_field::<T>(),
        s.grounded(),
        0 <= p < s.order(),
        0 <= n < s.order(),
        0 <= cp < s.order(),
        0 <= cn < s.order(),
        0 < r < s.order(),
        y[0] == T::nil(),
    ensures
        s.with_quad(p, n, cp, cn, g).grounded(),
        s.with_quad(p, n, cp, cn, g).order() == s.order(),
        s.with_quad(p, n, cp, cn, g).b == s.b,
        ({
            let d = exact::dot(s.rows[r], y, s.order());
            let t = g.times(y[cp].minus(y[cn]));
            exact::dot(s.with_quad(p, n, cp, cn, g).rows[r], y, s.order()) == moved(d, t, r, p, n)
        }),
{
    let o = T::nil().minus(g);
    let d = exact::dot(s.rows[r], y, s.order());
    let s1 = s.with(p, cp, g);
    let s2 = s1.with(p, cn, o);
    let s3 = s2.with(n, cp, o);
    lemma_with(s, p, cp, g, r, y);
    lemma_with(s1, p, cn, o, r, y);
    lemma_with(s2, n, cp, o, r, y);
    lemma_with(s3, n, cn, g, r, y);
    let (a, b) = (g.times(y[cp]), g.times(y[cn]));
    field::opposite_times(g, y[cp]);
    field::opposite_times(g, y[cn]);
    field::distributes_minus(g, y[cp], y[cn]);
    field::plus_opposite(d.plus(a), b);
    field::plus_minus(d, a, b);
    let e = if r == p {
        d.plus(a.minus(b))
    } else {
        d
    };
    field::plus_opposite(e, a);
    field::minus_difference(e, a, b);
}

proof fn lemma_with_controls<T: Num>(
    s: Equations<T>,
    p: int,
    n: int,
    ctl: Seq<(usize, usize, T)>,
    k: int,
    r: int,
    y: Seq<T>,
)
    requires
        num::is_field::<T>(),
        within(s, p, n, ctl, y),
        0 <= k <= ctl.len(),
        0 < r < s.order(),
    ensures
        s.with_controls(p, n, ctl, k).grounded(),
        s.with_controls(p, n, ctl, k).order() == s.order(),
        s.with_controls(p, n, ctl, k).b == s.b,
        ({
            let d = exact::dot(s.rows[r], y, s.order());
            let t = sloped(ctl, y, k);
            exact::dot(s.with_controls(p, n, ctl, k).rows[r], y, s.order()) == moved(d, t, r, p, n)
        }),
    decreases k,
{
    let d = exact::dot(s.rows[r], y, s.order());
    if k <= 0 {
        if p == n {
            lemma_moved_nowhere(d, T::nil(), r, p);
        }
        field::plus_nil(d);
        field::minus_nil(d);
    } else {
        let c = ctl[k - 1];
        lemma_with_controls(s, p, n, ctl, k - 1, r, y);
        let w = s.with_controls(p, n, ctl, k - 1);
        lemma_with_quad(w, p, n, c.0 as int, c.1 as int, c.2, r, y);
        let t = sloped(ctl, y, k - 1);
        let u = c.2.times(y[c.0 as int].minus(y[c.1 as int]));
        if p == n {
            lemma_moved_nowhere(d, t, r, p);
            lemma_moved_nowhere(d, u, r, p);
            lemma_moved_nowhere(d, t.plus(u), r, p);
        } else {
            field::plus_assoc(d, t, u);
            field::minus_sum(d, t, u);
        }
    }
}

/// A current contribution from `p` to `n` takes the linearized current out of
/// node `p` and puts it into node `n`, and touches no other row.
pub proof fn current_is_conserved<T: Num>(
    s: Equations<T>,
    p: int,
    n: int,
    i: T,
    ctl: Seq<(usize, usize, T)>,
    x: Seq<T>,
    y: Seq<T>,
    r: int,
)
    requires
        num::is_field::<T>(),
        s.grounded(),
        0 <= p < s.order(),
        0 <= n < s.order(),
        forall|k: int|
            0 <= k < ctl.len() ==> (#[trigger] ctl[k]).0 < s.order() && ctl[k].1 < s.order(),
        y[0] == T::nil(),
        0 < r < s.order(),
    ensures
        s.with_current(p, n, i, ctl, x).grounded(),
        s.with_current(p, n, i, ctl, x).order() == s.order(),
        surplus(s.with_current(p, n, i, ctl, x), r, y) == moved(
            surplus(s, r, y),
            linearized(i, ctl, x, y),
            r,
            p,
            n,
        ),
{
    let len = ctl.len() as int;
    let q = equations::offset_current(i, ctl, x, len);
    let t = sloped(ctl, y, len);
    let d = exact::dot(s.rows[r], y, s.order());
    let b = s.b[r];
    lemma_with_controls(s, p, n, ctl, len, r, y);
    if p == n {
        lemma_moved_nowhere(d, t, r, p);
        lemma_moved_nowhere(d.minus(b), t.plus(q), r, p);
        field::minus_plus(T::nil(), q);
        field::plus_assoc(b, T::nil().minus(q), q);
        field::plus_nil(b);
    } else if r == p {
        // (d + t) - (b + (0 - q)) == (d - b) + (t + q)
        field::plus_opposite(b, q);
        field::minus_difference(d.plus(t), b, q);
        field::sum_minus(d, t, b);
        field::plus_assoc(d.minus(b), t, q);
    } else if r == n {
        // (d - t) - (b + q) == (d - b) - (t + q)
        field::minus_sum(d.minus(t), b, q);
        field::minus_swap(d, t, b);
        field::minus_sum(d.minus(b), t, q);
    }
}

/// At the point where it was linearized, a contribution is the current itself.
pub proof fn linearized_at_its_point<T: Num>(i: T, ctl: Seq<(usize, usize, T)>, x: Seq<T>)
    requires
        num::is_field::<T>(),
    ensures
        linearized(i, ctl, x, x) == i,
{
    lemma_linearized(i, ctl, x, ctl.len() as int);
}

proof fn lemma_linearized<T: Num>(i: T, ctl: Seq<(usize, usize, T)>, x: Seq<T>, k: int)
    requires
        num::is_field::<T>(),
    ensures
        sloped(ctl, x, k).plus(equations::offset_current(i, ctl, x, k)) == i,
    decreases k,
{
    if k <= 0 {
        field::plus_nil(i);
    } else {
        lemma_linearized(i, ctl, x, k - 1);
        let c = ctl[k - 1];
        let u = c.2.times(x[c.0 as int].minus(x[c.1 as int]));
        let t = sloped(ctl, x, k - 1);
        let q = equations::offset_current(i, ctl, x, k - 1);
        field::plus_assoc(t, u, q.minus(u));
        field::plus_comm(u, q.minus(u));
        field::minus_plus(q, u);
    }
}

proof fn lemma_with_gains<T: Num>(
    s: Equations<T>,
    br: int,
    ctl: Seq<(usize, usize, T)>,
    k: int,
    r: int,
    y: Seq<T>,
)
    requires
        num::is_field::<T>(),
        within(s, br, br, ctl, y),
        0 <= k <= ctl.len(),
        0 < r < s.order(),
    ensures
        s.with_gains(br, ctl, k).grounded(),
        s.with_gains(br, ctl, k).order() == s.order(),
        s.with_gains(br, ctl, k).b == s.b,
        ({
            let d = exact::dot(s.rows[r], y, s.order());
            exact::dot(s.with_gains(br, ctl, k).rows[r], y, s.order()) == if r == br {
                d.minus(sloped(ctl, y, k))
            } else {
                d
            }
        }),
    decreases k,
{
    let d = exact::dot(s.rows[r], y, s.order());
    if k <= 0 {
        field::minus_nil(d);
    } else {
        let c = ctl[k - 1];
        let o = T::nil().minus(c.2);
        lemma_with_gains(s, br, ctl, k - 1, r, y);
        let w = s.with_gains(br, ctl, k - 1);
        lemma_with(w, br, c.0 as int, o, r, y);
        lemma_with(w.with(br, c.0 as int, o), br, c.1 as int, c.2, r, y);
        if r == br {
            let e = d.minus(sloped(ctl, y, k - 1));
            let (a, b) = (c.2.times(y[c.0 as int]), c.2.times(y[c.1 as int]));
            field::opposite_times(c.2, y[c.0 as int]);
            field::plus_opposite(e, a);
            field::distributes_minus(c.2, y[c.0 as int], y[c.1 as int]);
            field::minus_difference(e, a, b);
            field::minus_sum(d, sloped(ctl, y, k - 1), a.minus(b));
        }
    }
}

/// A voltage contribution asks in the row of its branch that the voltage from
/// `p` to `n`, less what the controls give, be `v`; it takes the branch current
/// out of node `p` and puts it into node `n`.
pub proof fn branch_defines_voltage<T: Num>(
    s: Equations<T>,
    p: int,
    n: int,
    br: int,
    v: T,
    ctl: Seq<(usize, usize, T)>,
    y: Seq<T>,
    r: int,
)
    requires
        num::is_field::<T>(),
        s.grounded(),
        0 <= p < s.order(),
        0 <= n < s.order(),
        0 < br < s.order(),
        p != br,
        n != br,
        forall|k: int|
            0 <= k < ctl.len() ==> (#[trigger] ctl[k]).0 < s.order() && ctl[k].1 < s.order(),
        y[0] == T::nil(),
        0 < r < s.order(),
    ensures
        s.with_voltage(p, n, br, v, ctl).grounded(),
        s.with_voltage(p, n, br, v, ctl).order() == s.order(),
        surplus(s.with_voltage(p, n, br, v, ctl), r, y) == if r == br {
            surplus(s, r, y).plus(
                y[p].minus(y[n]).minus(sloped(ctl, y, ctl.len() as int)).minus(v),
            )
        } else {
            moved(surplus(s, r, y), y[br], r, p, n)
        },
{
    let u = T::unit();
    let o = T::nil().minus(u);
    let d = exact::dot(s.rows[r], y, s.order());
    let b = s.b[r];
    let s1 = s.with(p, br, u);
    let s2 = s1.with(n, br, o);
    let s3 = s2.with(br, p, u);
    let s4 = s3.with(br, n, o);
    lemma_with(s, p, br, u, r, y);
    lemma_with(s1, n, br, o, r, y);
    lemma_with(s2, br, p, u, r, y);
    lemma_with(s3, br, n, o, r, y);
    let len = ctl.len() as int;
    lemma_with_gains(s4, br, ctl, len, r, y);
    field::times_unit(y[br]);
    field::times_unit(y[p]);
    field::times_unit(y[n]);
    field::opposite_times(u, y[br]);
    field::opposite_times(u, y[n]);
    if r == p && p == n {
        lemma_moved_nowhere(d.minus(b), y[br], r, p);
        field::plus_opposite(d.plus(y[br]), y[br]);
        lemma_moved_nowhere(d, y[br], r, p);
    } else if r == p {
        field::sum_minus(d, y[br], b);
    } else if r == n {
        field::plus_opposite(d, y[br]);
        field::minus_swap(d, y[br], b);
    } else if r == br {
        let g = sloped(ctl, y, len);
        let e = y[p].minus(y[n]);
        field::plus_opposite(d.plus(y[p]), y[n]);
        field::plus_minus(d, y[p], y[n]);
        // ((d + e) - g) - (b + v) == (d - b) + ((e - g) - v)
        field::plus_minus(d, e, g);
        field::minus_sum(d.plus(e.minus(g)), b, v);
        field::sum_minus(d, e.minus(g), b);
        field::plus_minus(d.minus(b), e.minus(g), v);
    }
}

} // verus!
