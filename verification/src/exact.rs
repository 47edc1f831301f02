//! What elimination computes when the arithmetic is exact.
use vstd::prelude::*;

use crate::equations;
use crate::equations::Equations;
use crate::field;
use crate::num;
use crate::num::Num;

verus! {

/// The coefficient of column `j`, zero where none is stored.
pub open spec fn coef<T: Num>(row: Map<int, T>, j: int) -> T {
    if row.contains_key(j) {
        row[j]
    } else {
        T::nil()
    }
}

/// The value of a row at `x`, over the columns from 1 up to `hi - 1`.
pub open spec fn dot<T: Num>(row: Map<int, T>, x: Seq<T>, hi: int) -> T
    decreases hi,
{
    if hi <= 1 {
        T::nil()
    } else {
        dot(row, x, hi - 1).plus(coef(row, hi - 1).times(x[hi - 1]))
    }
}

/// `x` meets every equation of the system.
pub open spec fn solves<T: Num>(s: Equations<T>, x: Seq<T>) -> bool {
    forall|i: int|
        1 <= i < s.order() ==> dot(#[trigger] s.rows[i], x, s.order()) == s.b[i]
}

/// Some combination of the columns that is not trivial vanishes in every row.
pub open spec fn singular<T: Num>(s: Equations<T>) -> bool {
    exists|z: Seq<T>| #[trigger] annihilated(s, z) && nontrivial(z, s.order())
}

pub open spec fn annihilated<T: Num>(s: Equations<T>, z: Seq<T>) -> bool {
    forall|i: int|
        1 <= i < s.order() ==> dot(#[trigger] s.rows[i], z, s.order()) == T::nil()
}

pub open spec fn nontrivial<T: Num>(z: Seq<T>, m: int) -> bool {
    exists|j: int| 1 <= j < m && j < z.len() && #[trigger] z[j] != T::nil()
}

/// Magnitudes tell zero from everything else.
pub open spec fn weighs_exactly<T: Num>() -> bool {
    &&& forall|v: T| #[trigger] v.negligible() == (v == T::nil())
    &&& forall|v: T| v != T::nil() ==> #[trigger] v.outweighs(T::nil())
    &&& forall|v: T, w: T| #[trigger] v.outweighs(w) ==> v != T::nil()
}

/// Every row before `k` has a diagonal coefficient that is not zero.
spec fn regular<T: Num>(s: Equations<T>, k: int) -> bool {
    forall|i: int| 1 <= i < k && i < s.order() ==> (#[trigger] s.rows[i])[i] != T::nil()
}

proof fn lemma_dot_minus<T: Num>(
    r: Map<int, T>,
    a: Map<int, T>,
    p: Map<int, T>,
    f: T,
    x: Seq<T>,
    hi: int,
)
    requires
        num::is_field::<T>(),
        forall|j: int| 1 <= j < hi ==> #[trigger] coef(r, j) == coef(a, j).minus(f.times(coef(p, j))),
    ensures
        dot(r, x, hi) == dot(a, x, hi).minus(f.times(dot(p, x, hi))),
    decreases hi,
{
    if hi <= 1 {
        field::times_nil(f);
        field::minus_nil(T::nil());
    } else {
        let j = hi - 1;
        lemma_dot_minus(r, a, p, f, x, j);
        let (sa, sp) = (dot(a, x, j), dot(p, x, j));
        let (ca, cp) = (coef(a, j), coef(p, j));
        assert(coef(r, j) == ca.minus(f.times(cp)));
        field::minus_distributes(ca, f.times(cp), x[j]);
        field::times_assoc(f, cp, x[j]);
        field::minus_exchange(sa, f.times(sp), ca.times(x[j]), f.times(cp.times(x[j])));
        field::distributes(f, sp, cp.times(x[j]));
    }
}

proof fn lemma_cleared_coef<T: Num>(s: Equations<T>, k: int, i: int, j: int)
    requires
        num::is_field::<T>(),
        s.rows[k].contains_key(k),
        s.rows[k][k] != T::nil(),
        s.rows[i].contains_key(k),
        i > k,
    ensures
        ({
            let f = s.rows[i][k].over(s.rows[k][k]);
            coef(equations::cleared_row(s, k, i), j) == coef(s.rows[i], j).minus(
                f.times(coef(s.rows[k], j)),
            )
        }),
{
    let f = s.rows[i][k].over(s.rows[k][k]);
    if j == k {
        field::over_times(s.rows[i][k], s.rows[k][k]);
        field::minus_self(s.rows[i][k]);
    } else if !s.rows[k].contains_key(j) {
        field::times_nil(f);
        field::minus_nil(coef(s.rows[i], j));
    }
}

/// The value of every row after an elimination step, from the values before.
proof fn lemma_step_dot<T: Num>(s: Equations<T>, k: int, p: int, x: Seq<T>)
    requires
        num::is_field::<T>(),
        T::nil().negligible(),
        equations::staged(s, k),
        0 < k < s.order(),
        equations::pivot(s, k) == Some(p),
    ensures
        ({
            let e = equations::exchanged(s, k, p);
            let c = equations::cleared(e, k);
            let m = s.order();
            &&& k <= p < m
            &&& e.rows[k][k] != T::nil()
            &&& c.rows[k] == e.rows[k]
            &&& forall|i: int| 1 <= i < m && !(i > k && e.rows[i].contains_key(k)) ==> c.rows[i]
                == #[trigger] e.rows[i]
            &&& forall|i: int| k < i < m && e.rows[i].contains_key(k) ==> dot(c.rows[i], x, m) == dot(
                #[trigger] e.rows[i],
                x,
                m,
            ).minus(e.rows[i][k].over(e.rows[k][k]).times(dot(e.rows[k], x, m)))
        }),
{
    equations::lemma_weightiest(s, k, s.order());
    equations::lemma_step_staged(s, k, p);
    let e = equations::exchanged(s, k, p);
    let c = equations::cleared(e, k);
    let m = s.order();
    assert forall|i: int| k < i < m && e.rows[i].contains_key(k) implies dot(c.rows[i], x, m) == dot(
        #[trigger] e.rows[i],
        x,
        m,
    ).minus(e.rows[i][k].over(e.rows[k][k]).times(dot(e.rows[k], x, m))) by {
        let f = e.rows[i][k].over(e.rows[k][k]);
        assert forall|j: int| 1 <= j < m implies #[trigger] coef(c.rows[i], j) == coef(
            e.rows[i],
            j,
        ).minus(f.times(coef(e.rows[k], j))) by {
            lemma_cleared_coef(e, k, i, j);
        }
        lemma_dot_minus(c.rows[i], e.rows[i], e.rows[k], f, x, m);
    }
}

/// An elimination step changes neither the solutions of the system nor the
/// combinations that vanish.
proof fn lemma_step_solutions<T: Num>(s: Equations<T>, k: int, p: int, x: Seq<T>)
    requires
        num::is_field::<T>(),
        T::nil().negligible(),
        equations::staged(s, k),
        0 < k < s.order(),
        equations::pivot(s, k) == Some(p),
    ensures
        ({
            let c = equations::cleared(equations::exchanged(s, k, p), k);
            &&& solves(c, x) <==> solves(s, x)
            &&& annihilated(c, x) <==> annihilated(s, x)
            &&& regular(s, k) ==> regular(c, k + 1)
        }),
{
    lemma_step_dot(s, k, p, x);
    let e = equations::exchanged(s, k, p);
    let c = equations::cleared(e, k);
    let m = s.order();
    let d = dot(e.rows[k], x, m);
    if solves(s, x) {
        assert(dot(s.rows[k], x, m) == s.b[k] && dot(s.rows[p], x, m) == s.b[p]);
        assert forall|i: int| 1 <= i < m implies dot(#[trigger] e.rows[i], x, m) == e.b[i] by {
            assert(dot(s.rows[i], x, m) == s.b[i]);
        }
        assert forall|i: int| 1 <= i < m implies dot(#[trigger] c.rows[i], x, m) == c.b[i] by {
            assert(dot(e.rows[i], x, m) == e.b[i]);
            assert(dot(e.rows[k], x, m) == e.b[k]);
        }
    }
    if annihilated(s, x) {
        assert(dot(s.rows[k], x, m) == T::nil() && dot(s.rows[p], x, m) == T::nil());
        assert forall|i: int| 1 <= i < m implies dot(#[trigger] c.rows[i], x, m) == T::nil() by {
            assert(dot(s.rows[i], x, m) == T::nil());
            assert(dot(e.rows[i], x, m) == T::nil());
            if i > k && e.rows[i].contains_key(k) {
                let f = e.rows[i][k].over(e.rows[k][k]);
                field::times_nil(f);
                field::minus_nil(T::nil());
            }
        }
    }
    if solves(c, x) {
        assert(dot(c.rows[k], x, m) == c.b[k]);
        assert forall|i: int| 1 <= i < m implies dot(#[trigger] e.rows[i], x, m) == e.b[i] by {
            assert(dot(c.rows[i], x, m) == c.b[i]);
            if i > k && e.rows[i].contains_key(k) {
                let g = e.rows[i][k].over(e.rows[k][k]).times(d);
                field::minus_plus(dot(e.rows[i], x, m), g);
                field::minus_plus(e.b[i], g);
            }
        }
        assert forall|i: int| 1 <= i < m implies dot(#[trigger] s.rows[i], x, m) == s.b[i] by {
            assert(dot(e.rows[k], x, m) == e.b[k] && dot(e.rows[p], x, m) == e.b[p]);
            assert(dot(e.rows[i], x, m) == e.b[i]);
        }
    }
    if annihilated(c, x) {
        assert(dot(c.rows[k], x, m) == T::nil());
        assert forall|i: int| 1 <= i < m implies dot(#[trigger] e.rows[i], x, m) == T::nil() by {
            assert(dot(c.rows[i], x, m) == T::nil());
            if i > k && e.rows[i].contains_key(k) {
                let f = e.rows[i][k].over(e.rows[k][k]);
                field::times_nil(f);
                field::minus_nil(dot(e.rows[i], x, m));
            }
        }
        assert forall|i: int| 1 <= i < m implies dot(#[trigger] s.rows[i], x, m) == T::nil() by {
            assert(dot(e.rows[k], x, m) == T::nil() && dot(e.rows[p], x, m) == T::nil());
            assert(dot(e.rows[i], x, m) == T::nil());
        }
    }
    if regular(s, k) {
        assert forall|i: int| 1 <= i < k + 1 && i < m implies (#[trigger] c.rows[i])[i] != T::nil() by {
            if i < k {
                assert(s.rows[i][i] != T::nil());
                assert(c.rows[i] == e.rows[i]);
                assert(e.rows[i] == s.rows[i]);
            }
        }
    }
}

/// Elimination up to column `k` changes neither the solutions nor the
/// combinations that vanish.
proof fn lemma_eliminated_solutions<T: Num>(s: Equations<T>, k: int, x: Seq<T>)
    requires
        num::is_field::<T>(),
        T::nil().negligible(),
        s.grounded(),
        s.closed(),
        1 <= k <= s.order(),
        equations::eliminated(s, k) is Ok,
    ensures
        ({
            let e = equations::eliminated(s, k)->Ok_0;
            &&& e.order() == s.order()
            &&& equations::staged(e, k)
            &&& regular(e, k)
            &&& solves(e, x) <==> solves(s, x)
            &&& annihilated(e, x) <==> annihilated(s, x)
        }),
    decreases k,
{
    if k <= 1 {
        assert(equations::staged(s, 1));
    } else {
        lemma_eliminated_solutions(s, k - 1, x);
        let e = equations::eliminated(s, k - 1)->Ok_0;
        let p = equations::pivot(e, k - 1)->Some_0;
        equations::lemma_step_staged(e, k - 1, p);
        lemma_step_solutions(e, k - 1, p, x);
    }
}

/// A row whose columns before `i` are empty: its value and the residue of
/// back substitution add up to the same sum whatever `hi` is.
proof fn lemma_dot_residue<T: Num>(row: Map<int, T>, x: Seq<T>, y: Seq<T>, i: int, hi: int)
    requires
        num::is_field::<T>(),
        1 <= i < hi,
        row.contains_key(i),
        forall|j: int| #[trigger] row.contains_key(j) ==> i <= j,
        forall|j: int| i < j < hi ==> #[trigger] x[j] == y[j],
    ensures
        dot(row, x, hi).plus(equations::residue(row, y, i, hi)) == row[i].times(x[i]).plus(y[i]),
    decreases hi,
{
    if hi == i + 1 {
        lemma_dot_empty(row, x, i);
        field::plus_nil(row[i].times(x[i]));
    } else {
        let j = hi - 1;
        lemma_dot_residue(row, x, y, i, j);
        let d = dot(row, x, j);
        let r = equations::residue(row, y, i, j);
        let t = coef(row, j).times(x[j]);
        assert(x[j] == y[j]);
        if row.contains_key(j) {
            field::plus_assoc(d, t, r.minus(t));
            field::plus_comm(t, r.minus(t));
            field::minus_plus(r, t);
        } else {
            field::times_nil(x[j]);
            field::plus_nil(d);
        }
    }
}

/// Nothing is contributed by columns that hold nothing.
proof fn lemma_dot_empty<T: Num>(row: Map<int, T>, x: Seq<T>, hi: int)
    requires
        num::is_field::<T>(),
        forall|j: int| 1 <= j < hi ==> coef(row, j) == T::nil() || #[trigger] x[j] == T::nil(),
    ensures
        dot(row, x, hi) == T::nil(),
    decreases hi,
{
    if hi > 1 {
        lemma_dot_empty(row, x, hi - 1);
        assert(coef(row, hi - 1) == T::nil() || x[hi - 1] == T::nil());
        field::times_nil(coef(row, hi - 1));
        field::times_nil(x[hi - 1]);
        field::plus_nil(T::nil());
    }
}

/// Values that back substitution has found stay as they are.
proof fn lemma_substituted_keeps<T: Num>(s: Equations<T>, i: int, j: int)
    requires
        0 < i <= s.order(),
        0 <= j < s.order(),
    ensures
        equations::substituted(s, i).len() == s.order(),
        j < i ==> equations::substituted(s, i)[j] == s.b[j],
        i <= j ==> equations::substituted(s, i)[j] == equations::substituted(s, j)[j],
    decreases s.order() - i,
{
    if i < s.order() {
        lemma_substituted_keeps(s, i + 1, j);
    }
}

/// What the elimination answers in exact arithmetic solves the system that it
/// was given.
pub proof fn solution_is_sound<T: Num>(s: Equations<T>)
    requires
        num::is_field::<T>(),
        T::nil().negligible(),
        s.grounded(),
        s.closed(),
    ensures
        match equations::solution(s) {
            Ok(x) => x.len() == s.order() && x[0] == T::nil() && solves(s, x),
            Err(k) => true,
        },
{
    let m = s.order();
    if equations::eliminated(s, m) is Ok {
        let e = equations::eliminated(s, m)->Ok_0;
        let x = equations::solution(s)->Ok_0;
        lemma_eliminated_solutions(s, m, x);
        let y1 = equations::substituted(e, 1);
        lemma_substituted_keeps(e, 1, 0);
        assert forall|i: int| 1 <= i < m implies dot(#[trigger] e.rows[i], x, m) == e.b[i] by {
            let y = equations::substituted(e, i + 1);
            let r = equations::residue(e.rows[i], y, i, m);
            assert(e.rows[i].contains_key(i));
            assert forall|j: int| i < j < m implies #[trigger] x[j] == y[j] by {
                lemma_substituted_keeps(e, 1, j);
                lemma_substituted_keeps(e, i + 1, j);
            }
            lemma_substituted_keeps(e, 1, i);
            lemma_substituted_keeps(e, i + 1, i);
            lemma_dot_residue(e.rows[i], x, y, i, m);
            assert(e.rows[i][i] != T::nil());
            field::over_times(r, e.rows[i][i]);
            field::times_comm(x[i], e.rows[i][i]);
            field::plus_comm(r, e.b[i]);
            field::plus_cancel(dot(e.rows[i], x, m), e.b[i], r);
        }
    }
}

/// Where the elimination answers, no other values solve the system.
pub proof fn solution_is_unique<T: Num>(s: Equations<T>, y: Seq<T>, i: int)
    requires
        num::is_field::<T>(),
        T::nil().negligible(),
        s.grounded(),
        s.closed(),
        solves(s, y),
        1 <= i < s.order(),
    ensures
        match equations::solution(s) {
            Ok(x) => x[i] == y[i],
            Err(k) => true,
        },
    decreases s.order() - i,
{
    let m = s.order();
    if equations::eliminated(s, m) is Ok {
        let e = equations::eliminated(s, m)->Ok_0;
        let x = equations::solution(s)->Ok_0;
        lemma_eliminated_solutions(s, m, y);
        let w = equations::substituted(e, i + 1);
        assert forall|j: int| i < j < m implies #[trigger] y[j] == w[j] by {
            solution_is_unique(s, y, j);
            lemma_substituted_keeps(e, 1, j);
            lemma_substituted_keeps(e, i + 1, j);
        }
        lemma_substituted_keeps(e, 1, i);
        lemma_substituted_keeps(e, i + 1, i);
        assert(e.rows[i].contains_key(i));
        assert(e.rows[i][i] != T::nil());
        lemma_dot_residue(e.rows[i], y, w, i, m);
        let r = equations::residue(e.rows[i], w, i, m);
        assert(dot(e.rows[i], y, m) == e.b[i]);
        field::plus_comm(e.b[i], r);
        field::plus_cancel(r, e.rows[i][i].times(y[i]), e.b[i]);
        field::times_comm(e.rows[i][i], y[i]);
        field::over_unique(r, e.rows[i][i], y[i]);
    }
}

/// The combination of columns that vanishes when column `k` has no pivot.
spec fn null_vector<T: Num>(e: Equations<T>, k: int, i: int) -> Seq<T>
    decreases k - i,
{
    if i >= k {
        Seq::new(
            e.b.len(),
            |j: int|
                if j == k {
                    T::unit()
                } else {
                    T::nil()
                },
        )
    } else {
        let z = null_vector(e, k, i + 1);
        z.update(i, equations::residue(e.rows[i], z, i, e.order()).over(e.rows[i][i]))
    }
}

proof fn lemma_null_vector_keeps<T: Num>(e: Equations<T>, k: int, i: int, j: int)
    requires
        0 < i <= k < e.order(),
        0 <= j < e.order(),
    ensures
        null_vector(e, k, i).len() == e.order(),
        j < i ==> null_vector(e, k, i)[j] == T::nil(),
        j == k ==> null_vector(e, k, i)[j] == T::unit(),
        k < j ==> null_vector(e, k, i)[j] == T::nil(),
        i <= j < k ==> null_vector(e, k, i)[j] == null_vector(e, k, j)[j],
    decreases k - i,
{
    if i < k {
        lemma_null_vector_keeps(e, k, i + 1, j);
    }
}

/// In a column without a pivot every coefficient left is zero.
proof fn lemma_no_pivot<T: Num>(s: Equations<T>, k: int, m: int, i: int)
    requires
        weighs_exactly::<T>(),
        k <= i < m,
        0 < k,
        m <= s.order(),
        s.rows[i].contains_key(k),
        s.rows[i][k] != T::nil(),
    ensures
        weightiest_found(s, k, m),
    decreases m,
{
    let w = equations::weightiest(s, k, m - 1);
    if i < m - 1 {
        lemma_no_pivot(s, k, m - 1, i);
    } else {
        lemma_weightiest_states(s, k, m - 1);
        assert(s.rows[i][k].outweighs(T::nil()));
    }
}

spec fn weightiest_found<T: Num>(s: Equations<T>, k: int, m: int) -> bool {
    let w = equations::weightiest(s, k, m);
    w.0 != 0 && w.1 != T::nil()
}

proof fn lemma_weightiest_states<T: Num>(s: Equations<T>, k: int, m: int)
    requires
        weighs_exactly::<T>(),
        0 < k,
    ensures
        weightiest_found(s, k, m) || equations::weightiest(s, k, m) == (0int, T::nil()),
    decreases m,
{
    if m > k {
        lemma_weightiest_states(s, k, m - 1);
    }
}

/// Column `k` is a combination of the columns before it.
pub open spec fn dependent<T: Num>(s: Equations<T>, k: int) -> bool {
    exists|z: Seq<T>| #[trigger] annihilated(s, z) && ends_at(z, k, s.order())
}

/// The last entry of `z` that is not zero is a one at `k`.
pub open spec fn ends_at<T: Num>(z: Seq<T>, k: int, m: int) -> bool {
    &&& z.len() == m
    &&& z[k] == T::unit()
    &&& forall|j: int| k < j < m ==> #[trigger] z[j] == T::nil()
}

/// A row to which one column alone contributes.
proof fn lemma_dot_single<T: Num>(row: Map<int, T>, x: Seq<T>, i: int, hi: int)
    requires
        num::is_field::<T>(),
        1 <= i < hi,
        forall|j: int|
            1 <= j < hi && j != i ==> coef(row, j) == T::nil() || #[trigger] x[j] == T::nil(),
    ensures
        dot(row, x, hi) == coef(row, i).times(x[i]),
    decreases hi,
{
    let t = coef(row, hi - 1).times(x[hi - 1]);
    if i == hi - 1 {
        lemma_dot_empty(row, x, i);
        field::plus_comm(T::nil(), t);
        field::plus_nil(t);
    } else {
        lemma_dot_single(row, x, i, hi - 1);
        assert(coef(row, hi - 1) == T::nil() || x[hi - 1] == T::nil());
        field::times_nil(coef(row, hi - 1));
        field::times_nil(x[hi - 1]);
        field::plus_nil(dot(row, x, hi - 1));
    }
}

/// A combination that vanishes has no last entry among the columns that have
/// been eliminated.
proof fn lemma_no_last_entry<T: Num>(e: Equations<T>, k: int, z: Seq<T>, i: int)
    requires
        num::is_field::<T>(),
        equations::staged(e, k),
        regular(e, k),
        annihilated(e, z),
        1 <= i < k,
        i < e.order(),
        forall|j: int| i < j < e.order() ==> #[trigger] z[j] == T::nil(),
    ensures
        z[i] == T::nil(),
{
    let m = e.order();
    let d = e.rows[i][i];
    assert(e.rows[i].contains_key(i));
    assert(d != T::nil());
    assert forall|j: int| 1 <= j < m && j != i implies coef(e.rows[i], j) == T::nil()
        || #[trigger] z[j] == T::nil() by {
        if j < i && e.rows[i].contains_key(j) {
            assert(i <= j);
        }
    }
    lemma_dot_single(e.rows[i], z, i, m);
    field::times_comm(d, z[i]);
    field::times_nil(d);
    field::times_comm(d, T::nil());
    field::over_unique(T::nil(), d, z[i]);
    field::over_unique(T::nil(), d, T::nil());
}

/// The combination that vanishes where column `k` has no pivot.
proof fn lemma_refused_column<T: Num>(s: Equations<T>, k: int)
    requires
        num::is_field::<T>(),
        weighs_exactly::<T>(),
        s.grounded(),
        s.closed(),
        1 <= k < s.order(),
        equations::eliminated(s, k) is Ok,
        equations::pivot(equations::eliminated(s, k)->Ok_0, k) is None,
    ensures
        dependent(s, k),
{
    let e = equations::eliminated(s, k)->Ok_0;
    let m = s.order();
    let z = null_vector(e, k, 1);
    lemma_eliminated_solutions(s, k, z);
    lemma_null_vector_keeps(e, k, 1, k);
    field::unit_is_not_nil::<T>();
    assert(z[k] != T::nil());
    assert forall|i: int| 1 <= i < m implies dot(#[trigger] e.rows[i], z, m) == T::nil() by {
        if i < k {
            let y = null_vector(e, k, i + 1);
            let r = equations::residue(e.rows[i], y, i, m);
            assert(e.rows[i].contains_key(i));
            assert(e.rows[i][i] != T::nil());
            assert forall|j: int| i < j < m implies #[trigger] z[j] == y[j] by {
                lemma_null_vector_keeps(e, k, 1, j);
                lemma_null_vector_keeps(e, k, i + 1, j);
            }
            lemma_null_vector_keeps(e, k, 1, i);
            lemma_null_vector_keeps(e, k, i + 1, i);
            lemma_dot_residue(e.rows[i], z, y, i, m);
            field::over_times(r, e.rows[i][i]);
            field::times_comm(z[i], e.rows[i][i]);
            field::plus_nil(r);
            field::plus_cancel(dot(e.rows[i], z, m), T::nil(), r);
        } else {
            assert forall|j: int| 1 <= j < m implies coef(e.rows[i], j) == T::nil() || #[trigger] z[j]
                == T::nil() by {
                lemma_null_vector_keeps(e, k, 1, j);
                if j == k && e.rows[i].contains_key(k) && e.rows[i][k] != T::nil() {
                    lemma_no_pivot(e, k, m, i);
                } else if j < k && e.rows[i].contains_key(j) {
                    assert(k <= j);
                }
            }
            lemma_dot_empty(e.rows[i], z, m);
        }
    }
    assert(annihilated(e, z));
    assert forall|j: int| k < j < m implies #[trigger] z[j] == T::nil() by {
        lemma_null_vector_keeps(e, k, 1, j);
    }
    assert(annihilated(s, z) && ends_at(z, k, m));
}

/// The column at which the elimination stopped.
proof fn lemma_refusal_column<T: Num>(s: Equations<T>, m: int) -> (k: int)
    requires
        1 <= m,
        equations::eliminated(s, m) is Err,
    ensures
        1 <= k < m,
        equations::eliminated(s, k) is Ok,
        equations::pivot(equations::eliminated(s, k)->Ok_0, k) is None,
        equations::eliminated(s, m) == Err::<Equations<T>, usize>(k as usize),
    decreases m,
{
    if equations::eliminated(s, m - 1) is Err {
        lemma_refusal_column(s, m - 1)
    } else {
        m - 1
    }
}

/// All entries of a combination that vanishes are zero where the elimination
/// comes to its end.
proof fn lemma_only_zero<T: Num>(s: Equations<T>, z: Seq<T>, i: int)
    requires
        num::is_field::<T>(),
        T::nil().negligible(),
        s.grounded(),
        s.closed(),
        equations::eliminated(s, s.order()) is Ok,
        annihilated(s, z),
        1 <= i,
    ensures
        forall|j: int| i <= j < s.order() ==> #[trigger] z[j] == T::nil(),
    decreases s.order() - i,
{
    let m = s.order();
    if i < m {
        lemma_only_zero(s, z, i + 1);
        lemma_eliminated_solutions(s, m, z);
        lemma_no_last_entry(equations::eliminated(s, m)->Ok_0, m, z, i);
    }
}

/// In exact arithmetic the elimination gives up on a system if and only if it
/// is singular, and it names the first column that depends on those before it.
pub proof fn refusal_names_the_first_dependent_column<T: Num>(s: Equations<T>)
    requires
        num::is_field::<T>(),
        weighs_exactly::<T>(),
        s.grounded(),
        s.closed(),
        s.order() <= usize::MAX,
    ensures
        equations::solution(s) is Err <==> singular(s),
        match equations::solution(s) {
            Ok(_) => true,
            Err(k) => {
                &&& 1 <= k < s.order()
                &&& dependent(s, k as int)
                &&& forall|j: int| 1 <= j < k ==> !#[trigger] dependent(s, j)
            },
        },
{
    let m = s.order();
    match equations::eliminated(s, m) {
        Ok(_) => {
            if singular(s) {
                let z = choose|z: Seq<T>| #[trigger] annihilated(s, z) && nontrivial(z, m);
                lemma_only_zero(s, z, 1);
            }
        },
        Err(_) => {
            let k = lemma_refusal_column(s, m);
            field::unit_is_not_nil::<T>();
            lemma_refused_column(s, k);
            let z = choose|z: Seq<T>| #[trigger] annihilated(s, z) && ends_at(z, k, m);
            assert(nontrivial(z, m)) by {
                assert(z[k] != T::nil());
            }
            assert forall|j: int| 1 <= j < k implies !#[trigger] dependent(s, j) by {
                if dependent(s, j) {
                    let y = choose|y: Seq<T>| #[trigger] annihilated(s, y) && ends_at(y, j, m);
                    lemma_eliminated_solutions(s, k, y);
                    lemma_no_last_entry(equations::eliminated(s, k)->Ok_0, k, y, j);
                }
            }
        },
    }
}

/// Weights can be compared in a row: nothing outweighs itself, and what does
/// not outweigh a number does not outweigh a weightier one.
pub open spec fn weighs_consistently<T: Num>() -> bool {
    &&& forall|a: T| !#[trigger] a.outweighs(a)
    &&& forall|a: T, b: T, c: T|
        !(#[trigger] a.outweighs(b)) && #[trigger] c.outweighs(b) ==> !a.outweighs(c)
}

proof fn lemma_weightiest_is_not_outweighed<T: Num>(s: Equations<T>, k: int, m: int, i: int)
    requires
        weighs_consistently::<T>(),
        0 < k <= i < m,
        s.rows[i].contains_key(k),
    ensures
        !s.rows[i][k].outweighs(equations::weightiest(s, k, m).1),
    decreases m,
{
    if i < m - 1 {
        lemma_weightiest_is_not_outweighed(s, k, m - 1, i);
    }
}

/// The pivot of a column is one of the weightiest coefficients left in it.
pub proof fn pivots_are_weightiest<T: Num>(s: Equations<T>, k: int, p: int, i: int)
    requires
        weighs_consistently::<T>(),
        0 < k < s.order(),
        equations::pivot(s, k) == Some(p),
        k <= i < s.order(),
        s.rows[i].contains_key(k),
    ensures
        k <= p < s.order(),
        s.rows[p].contains_key(k),
        !s.rows[i][k].outweighs(s.rows[p][k]),
{
    equations::lemma_weightiest(s, k, s.order());
    lemma_weightiest_is_not_outweighed(s, k, s.order(), i);
}

} // verus!
