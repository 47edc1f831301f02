//! The mathematical model of a linear system and of its solution by
//! elimination with partial pivoting.
//!
//! Unknown 0 is ground: row 0 and column 0 of a system stay empty, and the
//! elimination runs over the unknowns from 1 on.
use vstd::prelude::*;

use crate::num::Num;

verus! {

/// A system of equations: the stored coefficients of each row, by column, and
/// the right hand sides.
#[verifier::ext_equal]
pub struct Equations<T> {
    pub rows: Seq<Map<int, T>>,
    pub b: Seq<T>,
}

impl<T: Num> Equations<T> {
    pub open spec fn order(self) -> int {
        self.b.len() as int
    }

    /// No coefficient is stored in row 0 or in column 0.
    pub open spec fn grounded(self) -> bool {
        &&& self.rows.len() == self.b.len()
        &&& forall|i: int, j: int|
            0 <= i < self.rows.len() && #[trigger] self.rows[i].contains_key(j) ==> i > 0 && j > 0
    }

    /// Every stored coefficient belongs to an unknown of the system.
    pub open spec fn closed(self) -> bool {
        &&& self.order() > 0
        &&& forall|i: int, j: int|
            0 <= i < self.rows.len() && #[trigger] self.rows[i].contains_key(j) ==> j < self.order()
    }

    /// Row `i` exists wherever column `j` is not ground.
    pub open spec fn fits(self, i: int, j: int) -> bool {
        i == 0 || j == 0 || i < self.order()
    }

    /// The system without any coefficient.
    pub open spec fn blank(m: nat) -> Self {
        Equations {
            rows: Seq::new(m, |i: int| Map::<int, T>::empty()),
            b: Seq::new(m, |i: int| T::nil()),
        }
    }

    /// `v` added to the coefficient in row `i` and column `j`.
    pub open spec fn with(self, i: int, j: int, v: T) -> Self {
        if i == 0 || j == 0 {
            self
        } else {
            let row = self.rows[i];
            let sum = if row.contains_key(j) {
                row[j].plus(v)
            } else {
                v
            };
            Equations { rows: self.rows.update(i, row.insert(j, sum)), b: self.b }
        }
    }

    /// `v` added to the right hand side of row `i`.
    pub open spec fn with_rhs(self, i: int, v: T) -> Self {
        if i == 0 {
            self
        } else {
            Equations { rows: self.rows, b: self.b.update(i, self.b[i].plus(v)) }
        }
    }

    /// Rows `p` and `n` against columns `cp` and `cn`.
    pub open spec fn with_quad(self, p: int, n: int, cp: int, cn: int, g: T) -> Self {
        self.with(p, cp, g).with(p, cn, T::nil().minus(g)).with(n, cp, T::nil().minus(g)).with(
            n,
            cn,
            g,
        )
    }

    /// The current column and the voltage row of branch `br`.
    pub open spec fn with_branch(self, p: int, n: int, br: int) -> Self {
        self.with(p, br, T::unit()).with(n, br, T::nil().minus(T::unit())).with(
            br,
            p,
            T::unit(),
        ).with(br, n, T::nil().minus(T::unit()))
    }

    /// The conductances of the first `k` control pairs.
    pub open spec fn with_controls(self, p: int, n: int, ctl: Seq<(usize, usize, T)>, k: int) -> Self
        decreases k,
    {
        if k <= 0 {
            self
        } else {
            let c = ctl[k - 1];
            self.with_controls(p, n, ctl, k - 1).with_quad(p, n, c.0 as int, c.1 as int, c.2)
        }
    }

    /// A current `i` from `p` to `n`, linearized at `x` with the slopes `ctl`.
    pub open spec fn with_current(
        self,
        p: int,
        n: int,
        i: T,
        ctl: Seq<(usize, usize, T)>,
        x: Seq<T>,
    ) -> Self {
        let ieq = offset_current(i, ctl, x, ctl.len() as int);
        self.with_controls(p, n, ctl, ctl.len() as int).with_rhs(p, T::nil().minus(ieq)).with_rhs(
            n,
            ieq,
        )
    }

    /// The controlling terms of a branch row, for the first `k` control pairs.
    pub open spec fn with_gains(self, br: int, ctl: Seq<(usize, usize, T)>, k: int) -> Self
        decreases k,
    {
        if k <= 0 {
            self
        } else {
            let c = ctl[k - 1];
            self.with_gains(br, ctl, k - 1).with(br, c.0 as int, T::nil().minus(c.2)).with(
                br,
                c.1 as int,
                c.2,
            )
        }
    }

    /// The branch `br` from `p` to `n` whose voltage is `v` plus the controlled
    /// part.
    pub open spec fn with_voltage(
        self,
        p: int,
        n: int,
        br: int,
        v: T,
        ctl: Seq<(usize, usize, T)>,
    ) -> Self {
        self.with_branch(p, n, br).with_gains(br, ctl, ctl.len() as int).with_rhs(br, v)
    }
}

/// What is left of the current `i` when the first `k` slopes have been taken
/// out at the point `x`.
pub open spec fn offset_current<T: Num>(
    i: T,
    ctl: Seq<(usize, usize, T)>,
    x: Seq<T>,
    k: int,
) -> T
    decreases k,
{
    if k <= 0 {
        i
    } else {
        let c = ctl[k - 1];
        offset_current(i, ctl, x, k - 1).minus(
            c.2.times(x[c.0 as int].minus(x[c.1 as int])),
        )
    }
}

/// Row `a` minus `f` times row `p`.
pub open spec fn reduced<T: Num>(a: Map<int, T>, p: Map<int, T>, f: T) -> Map<int, T> {
    Map::new(
        |j: int| a.contains_key(j) || p.contains_key(j),
        |j: int|
            if !p.contains_key(j) {
                a[j]
            } else if a.contains_key(j) {
                a[j].minus(f.times(p[j]))
            } else {
                T::nil().minus(f.times(p[j]))
            },
    )
}

/// The row before `i`, from row `k` on, that holds the weightiest coefficient
/// of column `k`, and that coefficient; row 0 while there is none.
pub open spec fn weightiest<T: Num>(s: Equations<T>, k: int, i: int) -> (int, T)
    decreases i,
{
    if i <= k || i <= 0 {
        (0, T::nil())
    } else {
        let w = weightiest(s, k, i - 1);
        if s.rows[i - 1].contains_key(k) && s.rows[i - 1][k].outweighs(w.1) {
            (i - 1, s.rows[i - 1][k])
        } else {
            w
        }
    }
}

/// The row that column `k` is eliminated with, if one is fit for it.
pub open spec fn pivot<T: Num>(s: Equations<T>, k: int) -> Option<int> {
    let w = weightiest(s, k, s.order());
    if w.0 == 0 || w.1.negligible() {
        None
    } else {
        Some(w.0)
    }
}

/// Rows `k` and `p` exchanged.
pub open spec fn exchanged<T: Num>(s: Equations<T>, k: int, p: int) -> Equations<T> {
    Equations {
        rows: s.rows.update(k, s.rows[p]).update(p, s.rows[k]),
        b: s.b.update(k, s.b[p]).update(p, s.b[k]),
    }
}

/// Column `k` taken out of row `i` with the help of row `k`.
pub open spec fn cleared_row<T: Num>(s: Equations<T>, k: int, i: int) -> Map<int, T> {
    if i > k && s.rows[i].contains_key(k) {
        let f = s.rows[i][k].over(s.rows[k][k]);
        reduced(s.rows[i].remove(k), s.rows[k].remove(k), f)
    } else {
        s.rows[i]
    }
}

pub open spec fn cleared_rhs<T: Num>(s: Equations<T>, k: int, i: int) -> T {
    if i > k && s.rows[i].contains_key(k) {
        let f = s.rows[i][k].over(s.rows[k][k]);
        s.b[i].minus(f.times(s.b[k]))
    } else {
        s.b[i]
    }
}

/// Column `k` taken out of every row below row `k`.
pub open spec fn cleared<T: Num>(s: Equations<T>, k: int) -> Equations<T> {
    Equations {
        rows: Seq::new(s.rows.len(), |i: int| cleared_row(s, k, i)),
        b: Seq::new(s.b.len(), |i: int| cleared_rhs(s, k, i)),
    }
}

/// The system when the columns from 1 up to `k - 1` have been eliminated, or
/// the first of them that could not be.
pub open spec fn eliminated<T: Num>(s: Equations<T>, k: int) -> Result<Equations<T>, usize>
    decreases k,
{
    if k <= 1 {
        Ok(s)
    } else {
        match eliminated(s, k - 1) {
            Err(c) => Err(c),
            Ok(e) => match pivot(e, k - 1) {
                None => Err((k - 1) as usize),
                Some(p) => Ok(cleared(exchanged(e, k - 1, p), k - 1)),
            },
        }
    }
}

/// `x[i]` minus what the columns after `i` and before `hi` contribute to `row`.
pub open spec fn residue<T: Num>(row: Map<int, T>, x: Seq<T>, i: int, hi: int) -> T
    decreases hi - i,
{
    if hi <= i + 1 {
        x[i]
    } else {
        let r = residue(row, x, i, hi - 1);
        if row.contains_key(hi - 1) {
            r.minus(row[hi - 1].times(x[hi - 1]))
        } else {
            r
        }
    }
}

/// The right hand sides with the unknowns from `i` on replaced by their values.
pub open spec fn substituted<T: Num>(s: Equations<T>, i: int) -> Seq<T>
    decreases s.order() - i,
{
    if i >= s.order() {
        s.b
    } else {
        let x = substituted(s, i + 1);
        x.update(i, residue(s.rows[i], x, i, s.order()).over(s.rows[i][i]))
    }
}

/// The values of the unknowns, or the column without a pivot.
pub open spec fn solution<T: Num>(s: Equations<T>) -> Result<Seq<T>, usize> {
    match eliminated(s, s.order()) {
        Err(c) => Err(c),
        Ok(e) => Ok(substituted(e, 1).update(0, T::nil())),
    }
}

/// The rows before `k` are triangular and those from `k` on hold nothing
/// before column `k`.
pub open spec fn staged<T: Num>(s: Equations<T>, k: int) -> bool {
    &&& s.grounded()
    &&& s.closed()
    &&& forall|i: int| 0 < i < k && i < s.order() ==> #[trigger] s.rows[i].contains_key(i)
    &&& forall|i: int, j: int|
        0 <= i < s.rows.len() && #[trigger] s.rows[i].contains_key(j) ==> (if i < k {
            i <= j
        } else {
            k <= j
        })
}

pub proof fn lemma_weightiest<T: Num>(s: Equations<T>, k: int, i: int)
    requires
        k > 0,
        i <= s.order(),
    ensures
        ({
            let w = weightiest(s, k, i);
            w.0 == 0 || (k <= w.0 < i && s.rows[w.0].contains_key(k) && w.1 == s.rows[w.0][k])
        }),
    decreases i,
{
    if i > k {
        lemma_weightiest(s, k, i - 1);
    }
}

/// An elimination step keeps the stages of the system.
pub proof fn lemma_step_staged<T: Num>(s: Equations<T>, k: int, p: int)
    requires
        staged(s, k),
        0 < k < s.order(),
        pivot(s, k) == Some(p),
    ensures
        k <= p < s.order(),
        s.rows[p].contains_key(k),
        staged(exchanged(s, k, p), k),
        exchanged(s, k, p).rows[k].contains_key(k),
        staged(cleared(exchanged(s, k, p), k), k + 1),
{
    lemma_weightiest(s, k, s.order());
    let e = exchanged(s, k, p);
    let c = cleared(e, k);
    assert forall|i: int, j: int| 0 <= i < e.rows.len() && #[trigger] e.rows[i].contains_key(j) implies
        (if i < k { i <= j } else { k <= j }) && i > 0 && j > 0 && j < s.order() by {
        if i == k {
            assert(s.rows[p].contains_key(j));
        } else if i == p {
            assert(s.rows[k].contains_key(j));
        } else {
            assert(s.rows[i].contains_key(j));
        }
    }
    assert forall|i: int| 0 < i < k && i < s.order() implies #[trigger] e.rows[i].contains_key(i) by {
        assert(s.rows[i].contains_key(i));
    }
    assert forall|i: int, j: int| 0 <= i < c.rows.len() && #[trigger] c.rows[i].contains_key(j) implies
        (if i < k + 1 { i <= j } else { k + 1 <= j }) && i > 0 && j > 0 && j < s.order() by {
        if i > k && e.rows[i].contains_key(k) {
            assert(e.rows[i].contains_key(j) || e.rows[k].contains_key(j));
        } else {
            assert(e.rows[i].contains_key(j));
        }
    }
    assert forall|i: int| 0 < i < k + 1 && i < s.order() implies #[trigger] c.rows[i].contains_key(
        i,
    ) by {
        assert(e.rows[i].contains_key(i));
    }
}

/// Columns that hold nothing leave the residue as it is.
pub proof fn lemma_residue_gap<T: Num>(row: Map<int, T>, x: Seq<T>, i: int, lo: int, hi: int)
    requires
        i < lo <= hi,
        forall|j: int| lo <= j < hi ==> !#[trigger] row.contains_key(j),
    ensures
        residue(row, x, i, hi) == residue(row, x, i, lo),
    decreases hi - lo,
{
    if lo < hi {
        lemma_residue_gap(row, x, i, lo, hi - 1);
    }
}

/// A solution gives a value to each unknown, and a refusal names one of them.
pub proof fn lemma_solution_shape<T: Num>(s: Equations<T>)
    requires
        s.order() > 0,
        s.order() <= usize::MAX,
    ensures
        match solution(s) {
            Ok(x) => x.len() == s.order(),
            Err(k) => 1 <= k < s.order(),
        },
{
    lemma_eliminated_shape(s, s.order());
    if solution(s) is Ok {
        lemma_substituted_shape(eliminated(s, s.order())->Ok_0, 1);
    }
}

proof fn lemma_eliminated_shape<T: Num>(s: Equations<T>, k: int)
    requires
        0 < k <= s.order(),
        s.order() <= usize::MAX,
    ensures
        match eliminated(s, k) {
            Ok(e) => e.order() == s.order(),
            Err(c) => 1 <= c < k,
        },
    decreases k,
{
    if k > 1 {
        lemma_eliminated_shape(s, k - 1);
        if eliminated(s, k - 1) is Ok {
            let e = eliminated(s, k - 1)->Ok_0;
            lemma_weightiest(e, k - 1, e.order());
        }
    }
}

proof fn lemma_substituted_shape<T: Num>(s: Equations<T>, i: int)
    requires
        i >= 0,
    ensures
        substituted(s, i).len() == s.order(),
    decreases s.order() - i,
{
    if i < s.order() {
        lemma_substituted_shape(s, i + 1);
    }
}

/// A coefficient in a column of the system keeps the system closed.
pub proof fn lemma_with_closed<T: Num>(s: Equations<T>, i: int, j: int, v: T)
    requires
        s.closed(),
        s.rows.len() == s.b.len(),
        0 <= i < s.order(),
        0 <= j < s.order(),
    ensures
        s.with(i, j, v).closed(),
        s.with(i, j, v).rows.len() == s.b.len(),
        s.with(i, j, v).order() == s.order(),
{
    let w = s.with(i, j, v);
    assert forall|a: int, c: int| 0 <= a < w.rows.len() && #[trigger] w.rows[a].contains_key(c) implies c
        < s.order() by {
        if a != i || c != j {
            assert(s.rows[a].contains_key(c));
        }
    }
}

/// A conductance quad between unknowns of the system keeps it closed.
pub proof fn lemma_with_quad_closed<T: Num>(
    s: Equations<T>,
    p: int,
    n: int,
    cp: int,
    cn: int,
    g: T,
)
    requires
        s.closed(),
        s.rows.len() == s.b.len(),
        0 <= p < s.order(),
        0 <= n < s.order(),
        0 <= cp < s.order(),
        0 <= cn < s.order(),
    ensures
        s.with_quad(p, n, cp, cn, g).closed(),
        s.with_quad(p, n, cp, cn, g).rows.len() == s.b.len(),
        s.with_quad(p, n, cp, cn, g).order() == s.order(),
{
    let g1 = T::nil().minus(g);
    lemma_with_closed(s, p, cp, g);
    lemma_with_closed(s.with(p, cp, g), p, cn, g1);
    lemma_with_closed(s.with(p, cp, g).with(p, cn, g1), n, cp, g1);
    lemma_with_closed(s.with(p, cp, g).with(p, cn, g1).with(n, cp, g1), n, cn, g);
}

pub proof fn lemma_with_controls_closed<T: Num>(
    s: Equations<T>,
    p: int,
    n: int,
    ctl: Seq<(usize, usize, T)>,
    k: int,
)
    requires
        s.closed(),
        s.rows.len() == s.b.len(),
        0 <= p < s.order(),
        0 <= n < s.order(),
        0 <= k <= ctl.len(),
        forall|i: int| 0 <= i < ctl.len() ==> (#[trigger] ctl[i]).0 < s.order() && ctl[i].1 < s.order(),
    ensures
        s.with_controls(p, n, ctl, k).closed(),
        s.with_controls(p, n, ctl, k).rows.len() == s.b.len(),
        s.with_controls(p, n, ctl, k).order() == s.order(),
    decreases k,
{
    if k > 0 {
        lemma_with_controls_closed(s, p, n, ctl, k - 1);
        let c = ctl[k - 1];
        lemma_with_quad_closed(
            s.with_controls(p, n, ctl, k - 1),
            p,
            n,
            c.0 as int,
            c.1 as int,
            c.2,
        );
    }
}

pub proof fn lemma_with_current_closed<T: Num>(
    s: Equations<T>,
    p: int,
    n: int,
    i: T,
    ctl: Seq<(usize, usize, T)>,
    x: Seq<T>,
)
    requires
        s.closed(),
        s.rows.len() == s.b.len(),
        0 <= p < s.order(),
        0 <= n < s.order(),
        forall|k: int| 0 <= k < ctl.len() ==> (#[trigger] ctl[k]).0 < s.order() && ctl[k].1 < s.order(),
    ensures
        s.with_current(p, n, i, ctl, x).closed(),
        s.with_current(p, n, i, ctl, x).rows.len() == s.b.len(),
        s.with_current(p, n, i, ctl, x).order() == s.order(),
{
    lemma_with_controls_closed(s, p, n, ctl, ctl.len() as int);
    let w = s.with_current(p, n, i, ctl, x);
    let c = s.with_controls(p, n, ctl, ctl.len() as int);
    assert(w.rows == c.rows);
    assert forall|a: int, j: int| 0 <= a < w.rows.len() && #[trigger] w.rows[a].contains_key(j) implies j
        < s.order() by {
        assert(c.rows[a].contains_key(j));
    }
}

pub proof fn lemma_with_gains_closed<T: Num>(
    s: Equations<T>,
    br: int,
    ctl: Seq<(usize, usize, T)>,
    k: int,
)
    requires
        s.closed(),
        s.rows.len() == s.b.len(),
        0 <= br < s.order(),
        0 <= k <= ctl.len(),
        forall|i: int| 0 <= i < ctl.len() ==> (#[trigger] ctl[i]).0 < s.order() && ctl[i].1 < s.order(),
    ensures
        s.with_gains(br, ctl, k).closed(),
        s.with_gains(br, ctl, k).rows.len() == s.b.len(),
        s.with_gains(br, ctl, k).order() == s.order(),
    decreases k,
{
    if k > 0 {
        lemma_with_gains_closed(s, br, ctl, k - 1);
        let c = ctl[k - 1];
        let o = T::nil().minus(c.2);
        let s0 = s.with_gains(br, ctl, k - 1);
        lemma_with_closed(s0, br, c.0 as int, o);
        lemma_with_closed(s0.with(br, c.0 as int, o), br, c.1 as int, c.2);
    }
}

pub proof fn lemma_with_voltage_closed<T: Num>(
    s: Equations<T>,
    p: int,
    n: int,
    br: int,
    v: T,
    ctl: Seq<(usize, usize, T)>,
)
    requires
        s.closed(),
        s.rows.len() == s.b.len(),
        0 <= p < s.order(),
        0 <= n < s.order(),
        0 <= br < s.order(),
        forall|k: int| 0 <= k < ctl.len() ==> (#[trigger] ctl[k]).0 < s.order() && ctl[k].1 < s.order(),
    ensures
        s.with_voltage(p, n, br, v, ctl).closed(),
        s.with_voltage(p, n, br, v, ctl).rows.len() == s.b.len(),
        s.with_voltage(p, n, br, v, ctl).order() == s.order(),
{
    let u = T::unit();
    let o = T::nil().minus(u);
    let s1 = s.with(p, br, u);
    let s2 = s1.with(n, br, o);
    let s3 = s2.with(br, p, u);
    let s4 = s3.with(br, n, o);
    lemma_with_closed(s, p, br, u);
    lemma_with_closed(s1, n, br, o);
    lemma_with_closed(s2, br, p, u);
    lemma_with_closed(s3, br, n, o);
    lemma_with_gains_closed(s4, br, ctl, ctl.len() as int);
    let w = s.with_voltage(p, n, br, v, ctl);
    let c = s4.with_gains(br, ctl, ctl.len() as int);
    assert(w.rows == c.rows);
    assert forall|a: int, j: int| 0 <= a < w.rows.len() && #[trigger] w.rows[a].contains_key(j) implies j
        < s.order() by {
        assert(c.rows[a].contains_key(j));
    }
}

} // verus!
