//! Sparse linear systems.
//!
//! Rows are kept sorted by column. Eliminated columns leave the active rows,
//! so the entry of column `k` in a row at index `k` or later is always its
//! first one.
use vstd::prelude::*;
use vstd::slice::slice_subrange;

use crate::equations;
use crate::equations::Equations;
use crate::num::Num;

verus! {

/// A sparse system of linear equations under construction.
pub struct Sys<T> {
    pub rows: Vec<Vec<(usize, T)>>,
    pub b: Vec<T>,
}

/// The columns of a row strictly increase.
pub open spec fn ascending<T>(row: Seq<(usize, T)>) -> bool {
    forall|i: int, j: int| 0 <= i < j < row.len() ==> (#[trigger] row[i]).0 < (#[trigger] row[j]).0
}

/// Some entry of the row belongs to column `j`.
pub open spec fn holds<T>(row: Seq<(usize, T)>, j: int) -> bool {
    exists|i: int| 0 <= i < row.len() && (#[trigger] row[i]).0 == j
}

/// The coefficients of a row by column.
pub open spec fn row_map<T>(row: Seq<(usize, T)>) -> Map<int, T> {
    Map::new(
        |j: int| holds(row, j),
        |j: int| row[choose|i: int| 0 <= i < row.len() && (#[trigger] row[i]).0 == j].1,
    )
}

impl<T: Num> View for Sys<T> {
    type V = Equations<T>;

    open spec fn view(&self) -> Equations<T> {
        Equations {
            rows: Seq::new(self.rows@.len(), |i: int| row_map(self.rows@[i]@)),
            b: self.b@,
        }
    }
}

pub proof fn lemma_row_entry<T>(row: Seq<(usize, T)>, i: int)
    requires
        ascending(row),
        0 <= i < row.len(),
    ensures
        row_map(row).contains_key(row[i].0 as int),
        row_map(row)[row[i].0 as int] == row[i].1,
{
    assert(holds(row, row[i].0 as int));
    let c = choose|k: int| 0 <= k < row.len() && (#[trigger] row[k]).0 == row[i].0 as int;
    assert(row[c].0 == row[i].0);
    if c < i {
        assert(row[c].0 < row[i].0);
    } else if i < c {
        assert(row[i].0 < row[c].0);
    }
}

/// The place of column `j` in a row, or the place where it belongs.
fn find<T: Num>(row: &Vec<(usize, T)>, j: usize) -> (r: Result<usize, usize>)
    requires
        ascending(row@),
    ensures
        match r {
            Ok(k) => k < row@.len() && row@[k as int].0 == j,
            Err(k) => {
                &&& k <= row@.len()
                &&& !holds(row@, j as int)
                &&& forall|i: int| 0 <= i < k ==> (#[trigger] row@[i]).0 < j
                &&& forall|i: int| k <= i < row@.len() ==> (#[trigger] row@[i]).0 > j
            },
        },
{
    let mut lo: usize = 0;
    let mut hi: usize = row.len();
    while lo < hi
        invariant
            lo <= hi <= row@.len(),
            ascending(row@),
            forall|i: int| 0 <= i < lo ==> (#[trigger] row@[i]).0 < j,
            forall|i: int| hi <= i < row@.len() ==> (#[trigger] row@[i]).0 > j,
        decreases hi - lo,
    {
        let mid: usize = lo + (hi - lo) / 2;
        let c: usize = row[mid].0;
        if c == j {
            return Ok(mid);
        } else if c < j {
            lo = mid + 1;
        } else {
            hi = mid;
        }
    }
    Err(lo)
}

impl<T: Num> Sys<T> {
    /// One row per right hand side, each with increasing columns, and nothing
    /// stored for ground.
    pub open spec fn wf(&self) -> bool {
        &&& self.rows@.len() == self.b@.len()
        &&& forall|i: int| 0 <= i < self.rows@.len() ==> ascending(#[trigger] self.rows@[i]@)
        &&& self@.grounded()
    }

    pub fn new(m: usize) -> (r: Sys<T>)
        ensures
            r.wf(),
            r@ == Equations::<T>::blank(m as nat),
    {
        let mut rows: Vec<Vec<(usize, T)>> = Vec::new();
        let mut b: Vec<T> = Vec::new();
        let mut i: usize = 0;
        while i < m
            invariant
                i <= m,
                rows@.len() == i,
                b@.len() == i,
                forall|k: int| 0 <= k < i ==> (#[trigger] rows@[k])@.len() == 0,
                forall|k: int| 0 <= k < i ==> #[trigger] b@[k] == T::nil(),
            decreases m - i,
        {
            rows.push(Vec::new());
            b.push(T::zero());
            i = i + 1;
        }
        let r = Sys { rows, b };
        proof {
            assert forall|k: int| 0 <= k < m implies #[trigger] r@.rows[k] =~= Map::<
                int,
                T,
            >::empty() by {
                assert(r.rows@[k]@.len() == 0);
            }
            assert(r@.rows =~= Equations::<T>::blank(m as nat).rows);
            assert(r@.b =~= Equations::<T>::blank(m as nat).b);
        }
        r
    }

    /// Adds `v` to the coefficient of row `i` and column `j`; ground is
    /// dropped.
    pub fn add(&mut self, i: usize, j: usize, v: T)
        requires
            old(self).wf(),
            old(self)@.fits(i as int, j as int),
        ensures
            final(self).wf(),
            final(self)@ == old(self)@.with(i as int, j as int, v),
    {
        if i == 0 || j == 0 {
            return;
        }
        let ghost before = self@;
        let ghost row = self.rows@[i as int]@;
        match find(&self.rows[i], j) {
            Ok(k) => {
                let sum: T = self.rows[i][k].1.add(v);
                self.rows[i][k] = (j, sum);
                proof {
                    let now = self.rows@[i as int]@;
                    assert(now =~= row.update(k as int, (j, sum)));
                    lemma_row_entry(row, k as int);
                    assert(ascending(now));
                    lemma_update_map(row, k as int, sum);
                    assert(row_map(now) =~= row_map(row).insert(j as int, sum));
                }
            },
            Err(k) => {
                self.rows[i].insert(k, (j, v));
                proof {
                    let now = self.rows@[i as int]@;
                    assert(now =~= row.insert(k as int, (j, v)));
                    lemma_insert_map(row, k as int, j, v);
                }
            },
        }
        proof {
            let want = before.with(i as int, j as int, self@.rows[i as int][j as int]);
            assert(self@.rows =~= before.with(i as int, j as int, v).rows);
            assert forall|a: int, c: int| 0 <= a < self@.rows.len() && #[trigger] self@.rows[a].contains_key(
                c,
            ) implies a > 0 && c > 0 by {
                if a != i as int || c != j as int {
                    assert(before.rows[a].contains_key(c));
                }
            }
        }
    }

    /// Adds `v` to the right hand side of row `i`.
    pub fn rhs(&mut self, i: usize, v: T)
        requires
            old(self).wf(),
            i == 0 || i < old(self)@.order(),
        ensures
            final(self).wf(),
            final(self)@ == old(self)@.with_rhs(i as int, v),
    {
        if i > 0 {
            let ghost before = self@;
            let sum: T = self.b[i].add(v);
            self.b[i] = sum;
            proof {
                assert(self@.rows =~= before.rows);
            }
        }
    }

    /// The conductance quad: rows `p` and `n` against columns `cp` and `cn`.
    pub fn quad(&mut self, p: usize, n: usize, cp: usize, cn: usize, g: T)
        requires
            old(self).wf(),
            old(self)@.fits(p as int, cp as int),
            old(self)@.fits(p as int, cn as int),
            old(self)@.fits(n as int, cp as int),
            old(self)@.fits(n as int, cn as int),
        ensures
            final(self).wf(),
            final(self)@ == old(self)@.with_quad(p as int, n as int, cp as int, cn as int, g),
    {
        self.add(p, cp, g);
        self.add(p, cn, T::zero().sub(g));
        self.add(n, cp, T::zero().sub(g));
        self.add(n, cn, g);
    }

    /// A voltage-defined branch: its current column and its voltage row.
    pub fn branch(&mut self, p: usize, n: usize, br: usize)
        requires
            old(self).wf(),
            old(self)@.fits(p as int, br as int),
            old(self)@.fits(n as int, br as int),
            old(self)@.fits(br as int, p as int),
            old(self)@.fits(br as int, n as int),
        ensures
            final(self).wf(),
            final(self)@ == old(self)@.with_branch(p as int, n as int, br as int),
    {
        self.add(p, br, T::one());
        self.add(n, br, T::zero().sub(T::one()));
        self.add(br, p, T::one());
        self.add(br, n, T::zero().sub(T::one()));
    }

    /// The contribution of a current `i` that flows from `p` to `n`,
    /// linearized at `x`; `ctl` lists the control pairs with the derivative of
    /// the current by their voltage.
    pub fn contribute(&mut self, p: usize, n: usize, i: T, ctl: &[(usize, usize, T)], x: &[T])
        requires
            old(self).wf(),
            p == 0 || p < old(self)@.order(),
            n == 0 || n < old(self)@.order(),
            forall|k: int|
                0 <= k < ctl@.len() ==> (#[trigger] ctl@[k]).0 < x@.len() && ctl@[k].1 < x@.len(),
        ensures
            final(self).wf(),
            final(self)@ == old(self)@.with_current(p as int, n as int, i, ctl@, x@),
    {
        let ghost start = self@;
        let mut ieq: T = i;
        let mut k: usize = 0;
        while k < ctl.len()
            invariant
                k <= ctl@.len(),
                self.wf(),
                self@.order() == start.order(),
                p == 0 || p < start.order(),
                n == 0 || n < start.order(),
                forall|k: int|
                    0 <= k < ctl@.len() ==> (#[trigger] ctl@[k]).0 < x@.len() && ctl@[k].1
                        < x@.len(),
                self@ == start.with_controls(p as int, n as int, ctl@, k as int),
                ieq == equations::offset_current(i, ctl@, x@, k as int),
            decreases ctl@.len() - k,
        {
            let (a, b, g) = ctl[k];
            self.quad(p, n, a, b, g);
            ieq = ieq.sub(g.mul(x[a].sub(x[b])));
            k = k + 1;
        }
        self.rhs(p, T::zero().sub(ieq));
        self.rhs(n, ieq);
    }

    /// The dual voltage contribution: the row of branch `br` asks that
    /// `v(p) - v(n)` less the controlled part be `v`.
    pub fn vcontrib(&mut self, p: usize, n: usize, br: usize, v: T, ctl: &[(usize, usize, T)])
        requires
            old(self).wf(),
            br == 0 || br < old(self)@.order(),
            old(self)@.fits(p as int, br as int),
            old(self)@.fits(n as int, br as int),
        ensures
            final(self).wf(),
            final(self)@ == old(self)@.with_voltage(p as int, n as int, br as int, v, ctl@),
    {
        self.branch(p, n, br);
        let ghost start = self@;
        let mut k: usize = 0;
        while k < ctl.len()
            invariant
                k <= ctl@.len(),
                self.wf(),
                self@.order() == start.order(),
                br == 0 || br < start.order(),
                self@ == start.with_gains(br as int, ctl@, k as int),
            decreases ctl@.len() - k,
        {
            let (a, b, g) = ctl[k];
            self.add(br, a, T::zero().sub(g));
            self.add(br, b, g);
            k = k + 1;
        }
        self.rhs(br, v);
    }
}

/// Row `a` minus `f` times the pivot row `p`, both sorted; fill-in falls out of
/// the merge.
pub fn merge<T: Num>(a: &[(usize, T)], p: &[(usize, T)], f: T) -> (o: Vec<(usize, T)>)
    requires
        ascending(a@),
        ascending(p@),
    ensures
        ascending(o@),
        row_map(o@) == equations::reduced(row_map(a@), row_map(p@), f),
{
    let mut o: Vec<(usize, T)> = Vec::new();
    let mut i: usize = 0;
    let mut j: usize = 0;
    proof {
        assert(row_map(o@) =~= equations::reduced(row_map(a@.take(0)), row_map(p@.take(0)), f));
    }
    while i < a.len() || j < p.len()
        invariant
            i <= a@.len(),
            j <= p@.len(),
            ascending(a@),
            ascending(p@),
            merged(a@, p@, f, i as int, j as int, o@),
        decreases a@.len() - i + p@.len() - j,
    {
        let ghost was = o@;
        if j >= p.len() || (i < a.len() && a[i].0 < p[j].0) {
            o.push(a[i]);
            proof {
                lemma_merge_step(a@, p@, f, i as int, j as int, true, false, was);
            }
            i = i + 1;
        } else if i >= a.len() || p[j].0 < a[i].0 {
            o.push((p[j].0, T::zero().sub(f.mul(p[j].1))));
            proof {
                lemma_merge_step(a@, p@, f, i as int, j as int, false, true, was);
            }
            j = j + 1;
        } else {
            o.push((a[i].0, a[i].1.sub(f.mul(p[j].1))));
            proof {
                lemma_merge_step(a@, p@, f, i as int, j as int, true, true, was);
            }
            i = i + 1;
            j = j + 1;
        }
    }
    proof {
        assert(a@.take(i as int) =~= a@);
        assert(p@.take(j as int) =~= p@);
    }
    o
}

proof fn lemma_update_map<T>(row: Seq<(usize, T)>, k: int, v: T)
    requires
        ascending(row),
        0 <= k < row.len(),
    ensures
        ascending(row.update(k, (row[k].0, v))),
        row_map(row.update(k, (row[k].0, v))) == row_map(row).insert(row[k].0 as int, v),
{
    let j = row[k].0;
    let now = row.update(k, (j, v));
    assert(ascending(now));
    assert forall|c: int| row_map(now).contains_key(c) == row_map(row).insert(
        j as int,
        v,
    ).contains_key(c) by {
        if holds(now, c) {
            let w = choose|w: int| 0 <= w < now.len() && (#[trigger] now[w]).0 == c;
            assert(row[w].0 == c);
        }
        if holds(row, c) {
            let w = choose|w: int| 0 <= w < row.len() && (#[trigger] row[w]).0 == c;
            assert(now[w].0 == c);
        }
        if c == j as int {
            assert(now[k].0 == c);
        }
    }
    assert forall|c: int| row_map(now).contains_key(c) implies row_map(now)[c] == row_map(
        row,
    ).insert(j as int, v)[c] by {
        let w = choose|w: int| 0 <= w < now.len() && (#[trigger] now[w]).0 == c;
        lemma_row_entry(now, w);
        lemma_row_entry(row, w);
    }
    assert(row_map(now) =~= row_map(row).insert(j as int, v));
}

proof fn lemma_insert_map<T>(row: Seq<(usize, T)>, k: int, j: usize, v: T)
    requires
        ascending(row),
        0 <= k <= row.len(),
        forall|i: int| 0 <= i < k ==> (#[trigger] row[i]).0 < j,
        forall|i: int| k <= i < row.len() ==> (#[trigger] row[i]).0 > j,
    ensures
        ascending(row.insert(k, (j, v))),
        row_map(row.insert(k, (j, v))) == row_map(row).insert(j as int, v),
        !row_map(row).contains_key(j as int),
{
    let now = row.insert(k, (j, v));
    assert(ascending(now));
    assert forall|c: int| row_map(now).contains_key(c) == row_map(row).insert(
        j as int,
        v,
    ).contains_key(c) by {
        if holds(now, c) {
            let w = choose|w: int| 0 <= w < now.len() && (#[trigger] now[w]).0 == c;
            if w < k {
                assert(row[w].0 == c);
            } else if w > k {
                assert(row[w - 1].0 == c);
            }
        }
        if holds(row, c) {
            let w = choose|w: int| 0 <= w < row.len() && (#[trigger] row[w]).0 == c;
            if w < k {
                assert(now[w].0 == c);
            } else {
                assert(now[w + 1].0 == c);
            }
        }
        if c == j as int {
            assert(now[k].0 == c);
        }
    }
    assert forall|c: int| row_map(now).contains_key(c) implies row_map(now)[c] == row_map(
        row,
    ).insert(j as int, v)[c] by {
        let w = choose|w: int| 0 <= w < now.len() && (#[trigger] now[w]).0 == c;
        lemma_row_entry(now, w);
        if w < k {
            lemma_row_entry(row, w);
        } else if w > k {
            lemma_row_entry(row, w - 1);
        }
    }
    assert(row_map(now) =~= row_map(row).insert(j as int, v));
}

/// The values of the unknowns, or the first column that has no pivot.
pub fn solve<T: Num>(s: Sys<T>) -> (r: Result<Vec<T>, usize>)
    requires
        s.wf(),
        s@.closed(),
    ensures
        match r {
            Ok(x) => equations::solution(s@) == Ok::<Seq<T>, usize>(x@),
            Err(k) => equations::solution(s@) == Err::<Seq<T>, usize>(k),
        },
{
    let ghost given = s@;
    let m: usize = s.b.len();
    let mut sys = s;
    let mut k: usize = 1;
    proof {
        assert(equations::staged(sys@, 1));
    }
    while k < m
        invariant
            1 <= k,
            k <= m,
            m == given.order(),
            given == s@,
            sys.wf(),
            sys@.order() == m,
            equations::eliminated(given, k as int) == Ok::<Equations<T>, usize>(sys@),
            equations::staged(sys@, k as int),
        decreases m - k,
    {
        match find_pivot(&sys, k) {
            None => {
                proof {
                    lemma_stuck(given, k as int, m as int);
                    assert(equations::solution(given) == Err::<Seq<T>, usize>(k));
                }
                return Err(k);
            },
            Some(p) => {
                let ghost e = sys@;
                proof {
                    equations::lemma_step_staged(e, k as int, p as int);
                }
                sys.exchange(k, p);
                sys.clear(k);
                k = k + 1;
            },
        }
    }
    Ok(sys.substitute())
}

/// The output of a merge that has used up the first `i` entries of `a` and the
/// first `j` of `p`.
spec fn merged<T: Num>(
    a: Seq<(usize, T)>,
    p: Seq<(usize, T)>,
    f: T,
    i: int,
    j: int,
    o: Seq<(usize, T)>,
) -> bool {
    &&& ascending(o)
    &&& row_map(o) == equations::reduced(row_map(a.take(i)), row_map(p.take(j)), f)
    &&& forall|k: int, l: int|
        0 <= k < o.len() && i <= l < a.len() ==> (#[trigger] o[k]).0 < (#[trigger] a[l]).0
    &&& forall|k: int, l: int|
        0 <= k < o.len() && j <= l < p.len() ==> (#[trigger] o[k]).0 < (#[trigger] p[l]).0
}

proof fn lemma_take_map<T>(row: Seq<(usize, T)>, i: int)
    requires
        ascending(row),
        0 <= i < row.len(),
    ensures
        row_map(row.take(i + 1)) == row_map(row.take(i)).insert(row[i].0 as int, row[i].1),
        !row_map(row.take(i)).contains_key(row[i].0 as int),
{
    assert(row.take(i + 1) =~= row.take(i).insert(i, (row[i].0, row[i].1)));
    lemma_insert_map(row.take(i), i, row[i].0, row[i].1);
}

proof fn lemma_push_map<T>(row: Seq<(usize, T)>, j: usize, v: T)
    requires
        ascending(row),
        forall|i: int| 0 <= i < row.len() ==> (#[trigger] row[i]).0 < j,
    ensures
        ascending(row.push((j, v))),
        row_map(row.push((j, v))) == row_map(row).insert(j as int, v),
        !row_map(row).contains_key(j as int),
{
    assert(row.push((j, v)) =~= row.insert(row.len() as int, (j, v)));
    lemma_insert_map(row, row.len() as int, j, v);
}

/// The merge takes its next column from `a`, from `p` or from both.
proof fn lemma_merge_step<T: Num>(
    a: Seq<(usize, T)>,
    p: Seq<(usize, T)>,
    f: T,
    i: int,
    j: int,
    from_a: bool,
    from_p: bool,
    was: Seq<(usize, T)>,
)
    requires
        ascending(a),
        ascending(p),
        0 <= i <= a.len(),
        0 <= j <= p.len(),
        from_a || from_p,
        from_a ==> i < a.len(),
        from_p ==> j < p.len(),
        from_a && from_p ==> a[i].0 == p[j].0,
        from_a && !from_p && j < p.len() ==> a[i].0 < p[j].0,
        from_p && !from_a && i < a.len() ==> p[j].0 < a[i].0,
        merged(a, p, f, i, j, was),
    ensures
        ({
            let o = if !from_p {
                was.push(a[i])
            } else if from_a {
                was.push((a[i].0, a[i].1.minus(f.times(p[j].1))))
            } else {
                was.push((p[j].0, T::nil().minus(f.times(p[j].1))))
            };
            merged(
                a,
                p,
                f,
                if from_a { i + 1 } else { i },
                if from_p { j + 1 } else { j },
                o,
            )
        }),
{
    let c = if from_a {
        a[i].0
    } else {
        p[j].0
    };
    let v = if !from_p {
        a[i].1
    } else if from_a {
        a[i].1.minus(f.times(p[j].1))
    } else {
        T::nil().minus(f.times(p[j].1))
    };
    let i2 = if from_a {
        i + 1
    } else {
        i
    };
    let j2 = if from_p {
        j + 1
    } else {
        j
    };
    let o = was.push((c, v));
    lemma_push_map(was, c, v);
    let ma = row_map(a.take(i));
    let mp = row_map(p.take(j));
    assert(!row_map(was).contains_key(c as int));
    assert(!ma.contains_key(c as int) && !mp.contains_key(c as int));
    if from_a {
        lemma_take_map(a, i);
    }
    if from_p {
        lemma_take_map(p, j);
    }
    assert(row_map(o) =~= equations::reduced(row_map(a.take(i2)), row_map(p.take(j2)), f));
    assert forall|k: int, l: int| 0 <= k < o.len() && i2 <= l < a.len() implies (#[trigger] o[k]).0 < (
    #[trigger] a[l]).0 by {
        if k == was.len() {
            if i < l {
                assert(a[i].0 < a[l].0);
            }
        } else {
            assert(was[k].0 < a[l].0);
        }
    }
    assert forall|k: int, l: int| 0 <= k < o.len() && j2 <= l < p.len() implies (#[trigger] o[k]).0 < (
    #[trigger] p[l]).0 by {
        if k == was.len() {
            if j < l {
                assert(p[j].0 < p[l].0);
            }
        } else {
            assert(was[k].0 < p[l].0);
        }
    }
}

/// Elimination that has stopped at column `k` stays stopped.
proof fn lemma_stuck<T: Num>(s: Equations<T>, k: int, m: int)
    requires
        1 <= k < m,
        equations::eliminated(s, k) is Ok,
        equations::pivot(equations::eliminated(s, k)->Ok_0, k) is None,
    ensures
        equations::eliminated(s, m) == Err::<Equations<T>, usize>(k as usize),
    decreases m,
{
    if m > k + 1 {
        lemma_stuck(s, k, m - 1);
    }
}

/// The row to eliminate column `k` with.
fn find_pivot<T: Num>(s: &Sys<T>, k: usize) -> (r: Option<usize>)
    requires
        s.wf(),
        equations::staged(s@, k as int),
        0 < k < s@.order(),
    ensures
        match r {
            Some(p) => equations::pivot(s@, k as int) == Some(p as int),
            None => equations::pivot(s@, k as int) is None,
        },
{
    let m: usize = s.b.len();
    let mut p: usize = 0;
    let mut best: T = T::zero();
    let mut i: usize = k;
    while i < m
        invariant
            k <= i <= m,
            m == s@.order(),
            0 < k,
            s.wf(),
            equations::staged(s@, k as int),
            (p as int, best) == equations::weightiest(s@, k as int, i as int),
        decreases m - i,
    {
        proof {
            lemma_first(s.rows@[i as int]@, k as int, s@.rows[i as int]);
        }
        if s.rows[i].len() > 0 {
            let (c, v) = s.rows[i][0];
            if c == k && v.exceeds(best) {
                best = v;
                p = i;
            }
        }
        i = i + 1;
    }
    if p == 0 || best.vanishes() {
        None
    } else {
        Some(p)
    }
}

/// In a row without columns before `k`, column `k` can only come first.
proof fn lemma_first<T>(row: Seq<(usize, T)>, k: int, map: Map<int, T>)
    requires
        ascending(row),
        map == row_map(row),
        forall|j: int| #[trigger] map.contains_key(j) ==> k <= j,
    ensures
        map.contains_key(k) <==> row.len() > 0 && row[0].0 == k,
        map.contains_key(k) ==> map[k] == row[0].1,
        row.len() > 0 ==> row[0].0 >= k,
{
    if row.len() > 0 {
        lemma_row_entry(row, 0);
    }
    if map.contains_key(k) {
        let w = choose|w: int| 0 <= w < row.len() && (#[trigger] row[w]).0 == k;
        assert(row[w].0 == k);
        if w > 0 {
            assert(row[0].0 < row[w].0);
        }
    }
}

/// The row behind its first entry.
proof fn lemma_rest<T>(row: Seq<(usize, T)>)
    requires
        ascending(row),
        row.len() > 0,
    ensures
        ascending(row.subrange(1, row.len() as int)),
        row_map(row.subrange(1, row.len() as int)) == row_map(row).remove(row[0].0 as int),
{
    let rest = row.subrange(1, row.len() as int);
    assert(ascending(rest));
    assert(row =~= rest.insert(0, (row[0].0, row[0].1)));
    assert forall|i: int| 0 <= i < rest.len() implies (#[trigger] rest[i]).0 > row[0].0 by {
        assert(row[0].0 < row[i + 1].0);
    }
    lemma_insert_map(rest, 0, row[0].0, row[0].1);
    assert(row_map(rest) =~= row_map(row).remove(row[0].0 as int));
}

impl<T: Num> Sys<T> {
    /// Exchanges two rows.
    fn exchange(&mut self, k: usize, p: usize)
        requires
            old(self).wf(),
            0 < k < old(self)@.order(),
            0 < p < old(self)@.order(),
        ensures
            final(self).wf(),
            final(self)@ == equations::exchanged(old(self)@, k as int, p as int),
    {
        let ghost before = self@;
        let ghost rows = self.rows@;
        if k == p {
            proof {
                let after = equations::exchanged(before, k as int, p as int);
                assert(after.rows =~= before.rows);
                assert(after.b =~= before.b);
            }
            return;
        }
        let mut spare: Vec<(usize, T)> = Vec::new();
        core::mem::swap(&mut self.rows[k], &mut spare);
        core::mem::swap(&mut self.rows[p], &mut spare);
        core::mem::swap(&mut self.rows[k], &mut spare);
        let t: T = self.b[k];
        self.b[k] = self.b[p];
        self.b[p] = t;
        proof {
            let after = equations::exchanged(before, k as int, p as int);
            assert(self.rows@ =~= rows.update(k as int, rows[p as int]).update(
                p as int,
                rows[k as int],
            ));
            assert(self@.rows =~= after.rows);
            assert(self@.b =~= after.b);
            assert forall|i: int, j: int| 0 <= i < self@.rows.len() && #[trigger] self@.rows[i].contains_key(
                j,
            ) implies i > 0 && j > 0 by {
                if i == k as int {
                    assert(before.rows[p as int].contains_key(j));
                } else if i == p as int {
                    assert(before.rows[k as int].contains_key(j));
                } else {
                    assert(before.rows[i].contains_key(j));
                }
            }
        }
    }

    /// Takes column `k` out of the rows below row `k`.
    fn clear(&mut self, k: usize)
        requires
            old(self).wf(),
            equations::staged(old(self)@, k as int),
            0 < k < old(self)@.order(),
            old(self)@.rows[k as int].contains_key(k as int),
        ensures
            final(self).wf(),
            final(self)@ == equations::cleared(old(self)@, k as int),
    {
        let ghost before = self@;
        let ghost rows = self.rows@;
        let m: usize = self.b.len();
        let mut prow: Vec<(usize, T)> = Vec::new();
        core::mem::swap(&mut self.rows[k], &mut prow);
        proof {
            lemma_first(prow@, k as int, before.rows[k as int]);
            lemma_rest(prow@);
        }
        let piv: T = prow[0].1;
        let top: T = self.b[k];
        let mut i: usize = k + 1;
        while i < m
            invariant
                0 < k < i <= m,
                m == before.order(),
                m == self.b@.len(),
                m == self.rows@.len(),
                m == rows.len(),
                before.rows.len() == m,
                before.rows == Seq::new(m as nat, |i: int| row_map(rows[i]@)),
                equations::staged(before, k as int),
                forall|i: int| 0 <= i < m ==> ascending((#[trigger] rows[i])@),
                prow@ == rows[k as int]@,
                prow@.len() > 0,
                prow@[0].0 == k,
                before.rows[k as int].contains_key(k as int),
                piv == before.rows[k as int][k as int],
                top == before.b[k as int],
                ascending(prow@.subrange(1, prow@.len() as int)),
                row_map(prow@.subrange(1, prow@.len() as int)) == before.rows[k as int].remove(
                    k as int,
                ),
                forall|r: int| 0 <= r < m && r != k && (r < k || r >= i) ==> #[trigger] self.rows@[r] == rows[r],
                forall|r: int| k < r < i ==> {
                    &&& ascending((#[trigger] self.rows@[r])@)
                    &&& row_map(self.rows@[r]@) == equations::cleared_row(before, k as int, r)
                },
                forall|r: int| 0 <= r < i ==> #[trigger] self.b@[r] == equations::cleared_rhs(
                    before,
                    k as int,
                    r,
                ),
                forall|r: int| i <= r < m ==> #[trigger] self.b@[r] == before.b[r],
            decreases m - i,
        {
            proof {
                assert(self.rows@[i as int] == rows[i as int]);
                assert(before.rows[i as int] == row_map(rows[i as int]@));
                assert(ascending(rows[i as int]@));
                lemma_first(rows[i as int]@, k as int, before.rows[i as int]);
            }
            if self.rows[i].len() > 0 && self.rows[i][0].0 == k {
                proof {
                    lemma_rest(rows[i as int]@);
                }
                let f: T = self.rows[i][0].1.div(piv);
                self.b[i] = self.b[i].sub(f.mul(top));
                let next = merge(
                    slice_subrange(self.rows[i].as_slice(), 1, self.rows[i].len()),
                    slice_subrange(prow.as_slice(), 1, prow.len()),
                    f,
                );
                self.rows[i] = next;
            }
            i = i + 1;
        }
        core::mem::swap(&mut self.rows[k], &mut prow);
        proof {
            let after = equations::cleared(before, k as int);
            assert(self.rows@[k as int] == rows[k as int]);
            assert forall|r: int| 0 <= r < m implies ascending(#[trigger] self.rows@[r]@) && row_map(
                self.rows@[r]@,
            ) == after.rows[r] by {
                if r <= k {
                    assert(self.rows@[r] == rows[r]);
                    assert(before.rows[r] == row_map(rows[r]@));
                }
            }
            assert(self@.rows =~= after.rows);
            assert(self@.b =~= after.b);
            assert forall|r: int, j: int| 0 <= r < self@.rows.len() && #[trigger] self@.rows[r].contains_key(
                j,
            ) implies r > 0 && j > 0 by {
                if r > k && before.rows[r].contains_key(k as int) {
                    assert(before.rows[r].contains_key(j) || before.rows[k as int].contains_key(j));
                } else {
                    assert(before.rows[r].contains_key(j));
                }
            }
        }
    }

    /// The values of the unknowns of a triangular system.
    fn substitute(self) -> (x: Vec<T>)
        requires
            self.wf(),
            self@.order() > 0,
            equations::staged(self@, self@.order()),
        ensures
            x@ == equations::substituted(self@, 1).update(0, T::nil()),
    {
        let ghost e = self@;
        let m: usize = self.b.len();
        let rows = self.rows;
        let mut x: Vec<T> = self.b;
        let mut i: usize = m;
        while i > 1
            invariant
                1 <= i <= m,
                m == e.order(),
                rows@.len() == m,
                x@.len() == m,
                e.rows == Seq::new(m as nat, |r: int| row_map(rows@[r]@)),
                forall|r: int| 0 <= r < m ==> ascending(#[trigger] rows@[r]@),
                equations::staged(e, m as int),
                x@ == equations::substituted(e, i as int),
            decreases i,
        {
            i = i - 1;
            let ghost row = rows@[i as int]@;
            proof {
                assert(e.rows[i as int] == row_map(row));
                assert(ascending(rows@[i as int]@));
                assert(e.rows[i as int].contains_key(i as int));
                lemma_first(row, i as int, e.rows[i as int]);
            }
            let mut sum: T = x[i];
            let mut t: usize = 1;
            while t < rows[i].len()
                invariant
                    1 <= i < m,
                    m == e.order(),
                    rows@.len() == m,
                    x@.len() == m,
                    row == rows@[i as int]@,
                    ascending(row),
                    1 <= t <= row.len(),
                    row[0].0 == i,
                    e.rows[i as int] == row_map(row),
                    equations::staged(e, m as int),
                    sum == equations::residue(e.rows[i as int], x@, i as int, row[t - 1].0 + 1),
                decreases row.len() - t,
            {
                let (j, v) = rows[i][t];
                proof {
                    lemma_row_entry(row, t as int);
                    assert(row[0].0 < row[t as int].0);
                    assert(e.rows[i as int].contains_key(j as int));
                    lemma_between(row, t as int);
                    equations::lemma_residue_gap(
                        e.rows[i as int],
                        x@,
                        i as int,
                        row[t - 1].0 + 1,
                        j as int,
                    );
                }
                sum = sum.sub(v.mul(x[j]));
                t = t + 1;
            }
            proof {
                lemma_row_entry(row, row.len() - 1);
                assert(e.rows[i as int].contains_key(row[row.len() - 1].0 as int));
                lemma_behind(row);
                equations::lemma_residue_gap(
                    e.rows[i as int],
                    x@,
                    i as int,
                    row[row.len() - 1].0 + 1,
                    m as int,
                );
            }
            x[i] = sum.div(rows[i][0].1);
        }
        x[0] = T::zero();
        x
    }
}

/// Between neighbouring entries a row holds no column.
proof fn lemma_between<T>(row: Seq<(usize, T)>, t: int)
    requires
        ascending(row),
        0 < t < row.len(),
    ensures
        row[t - 1].0 < row[t].0,
        forall|j: int| row[t - 1].0 + 1 <= j < row[t].0 ==> !#[trigger] row_map(row).contains_key(j),
{
    assert forall|j: int| row[t - 1].0 + 1 <= j < row[t].0 implies !#[trigger] row_map(
        row,
    ).contains_key(j) by {
        if holds(row, j) {
            let w = choose|w: int| 0 <= w < row.len() && (#[trigger] row[w]).0 == j;
            if w < t - 1 {
                assert(row[w].0 < row[t - 1].0);
            } else if w > t {
                assert(row[t].0 < row[w].0);
            }
        }
    }
}

/// Behind its last entry a row holds no column.
proof fn lemma_behind<T>(row: Seq<(usize, T)>)
    requires
        ascending(row),
        row.len() > 0,
    ensures
        forall|j: int| row[row.len() - 1].0 < j ==> !#[trigger] row_map(row).contains_key(j),
{
    assert forall|j: int| row[row.len() - 1].0 < j implies !#[trigger] row_map(row).contains_key(
        j,
    ) by {
        if holds(row, j) {
            let w = choose|w: int| 0 <= w < row.len() && (#[trigger] row[w]).0 == j;
            if w < row.len() - 1 {
                assert(row[w].0 < row[row.len() - 1].0);
            }
        }
    }
}

} // verus!
