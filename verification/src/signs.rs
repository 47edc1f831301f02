//! How signs pass through the arithmetic.
//!
//! Turning the signs of all inputs of a circuit round turns the signs of the
//! results round. Rounding does not disturb this, for it treats both signs
//! alike; what it leaves open is the sign of a zero. So the laws of this kind
//! speak of numbers that are [`alike`] or [`opposed`] up to the sign of zero,
//! and ask for no more than [`signs_pass`], which rounded numbers meet.
use vstd::prelude::*;

use crate::models;
use crate::num;
use crate::num::Real;

verus! {

/// The same number up to the sign of zero, or no number both.
#[verifier::opaque]
pub open spec fn alike<R: Real>(a: R, b: R) -> bool {
    a == b || num::same(a, b) || (!a.at_most(a) && !b.at_most(b))
}

/// Numbers of opposite sign and the same size, up to the sign of zero.
#[verifier::opaque]
pub open spec fn opposed<R: Real>(a: R, b: R) -> bool {
    alike(R::nil().minus(a), b)
}

/// Being alike is passed on.
#[verifier::opaque]
pub open spec fn likeness_is_shared<R: Real>() -> bool {
    forall|a: R, b: R, c: R| #[trigger] alike(a, b) && #[trigger] alike(b, c) ==> alike(a, c)
}

/// A number is the opposite of its opposite, and the two differences of two
/// numbers are opposed.
#[verifier::opaque]
pub open spec fn opposites_pair<R: Real>() -> bool {
    &&& opposed(R::nil(), R::nil())
    &&& opposed(R::unit(), R::decimal(-1, 0))
    &&& forall|a: R| opposed(#[trigger] R::nil().minus(a), a)
    &&& forall|a: R| opposed(a, #[trigger] a.opposite())
    &&& forall|a: R, b: R| #[trigger] opposed(a.minus(b), b.minus(a))
}

/// `b` and `d` are the same, or alike and can be divided by.
pub open spec fn divide_alike<R: Real>(b: R, d: R) -> bool {
    b == d || (alike(b, d) && !b.negligible())
}

/// Sums, differences, products and quotients of numbers that are alike are
/// alike.
#[verifier::opaque]
pub open spec fn likeness_passes<R: Real>() -> bool {
    &&& forall|a: R, b: R, c: R, d: R|
        alike(a, c) && alike(b, d) ==> #[trigger] alike(a.plus(b), c.plus(d))
    &&& forall|a: R, b: R, c: R, d: R|
        alike(a, c) && alike(b, d) ==> #[trigger] alike(a.minus(b), c.minus(d))
    &&& forall|a: R, b: R, c: R, d: R|
        alike(a, c) && alike(b, d) ==> #[trigger] alike(a.times(b), c.times(d))
    &&& forall|a: R, b: R, c: R, d: R|
        alike(a, c) && divide_alike(b, d) ==> #[trigger] alike(a.over(b), c.over(d))
}

/// Sums and differences of opposed numbers are opposed; a product takes the
/// signs of both factors, and a quotient that of the dividend.
#[verifier::opaque]
pub open spec fn opposition_passes<R: Real>() -> bool {
    &&& forall|a: R, b: R, c: R, d: R|
        opposed(a, c) && opposed(b, d) ==> #[trigger] opposed(a.plus(b), c.plus(d))
    &&& forall|a: R, b: R, c: R, d: R|
        opposed(a, c) && opposed(b, d) ==> #[trigger] opposed(a.minus(b), c.minus(d))
    &&& forall|a: R, b: R, c: R, d: R|
        (alike(a, c) && opposed(b, d)) || (opposed(a, c) && alike(b, d)) ==> #[trigger] opposed(
            a.times(b),
            c.times(d),
        )
    &&& forall|a: R, b: R, c: R, d: R|
        opposed(a, c) && opposed(b, d) ==> #[trigger] alike(a.times(b), c.times(d))
    &&& forall|a: R, b: R, c: R, d: R|
        opposed(a, c) && divide_alike(b, d) ==> #[trigger] opposed(a.over(b), c.over(d))
}

/// The functions do not tell numbers apart that are alike, and a size not
/// those that are opposed.
#[verifier::opaque]
pub open spec fn functions_agree<R: Real>() -> bool {
    &&& forall|a: R, c: R| alike(a, c) ==> #[trigger] alike(a.opposite(), c.opposite())
    &&& forall|a: R, c: R|
        alike(a, c) || opposed(a, c) ==> #[trigger] alike(a.size(), c.size())
    &&& forall|a: R, c: R| alike(a, c) ==> #[trigger] alike(a.exponential(), c.exponential())
    &&& forall|a: R, c: R| alike(a, c) ==> #[trigger] alike(a.logarithm(), c.logarithm())
    &&& forall|a: R, b: R, c: R, d: R|
        alike(a, c) && alike(b, d) ==> #[trigger] alike(a.greater_of(b), c.greater_of(d))
    &&& forall|a: R, b: R, c: R, d: R|
        alike(a, c) && alike(b, d) ==> #[trigger] alike(a.lesser_of(b), c.lesser_of(d))
}

/// The comparisons do not tell numbers apart that are alike.
#[verifier::opaque]
pub open spec fn comparisons_agree<R: Real>() -> bool {
    &&& forall|a: R, b: R, c: R, d: R|
        alike(a, c) && alike(b, d) ==> #[trigger] a.below(b) == #[trigger] c.below(d)
    &&& forall|a: R, b: R, c: R, d: R|
        alike(a, c) && alike(b, d) ==> #[trigger] a.at_most(b) == #[trigger] c.at_most(d)
    &&& forall|a: R, b: R, c: R, d: R|
        alike(a, c) && alike(b, d) ==> #[trigger] a.outweighs(b) == #[trigger] c.outweighs(d)
    &&& forall|a: R, c: R|
        alike(a, c) ==> #[trigger] a.negligible() == #[trigger] c.negligible()
}

/// Signs pass through the arithmetic.
pub open spec fn signs_pass<R: Real>() -> bool {
    &&& likeness_is_shared::<R>()
    &&& opposites_pair::<R>()
    &&& likeness_passes::<R>()
    &&& opposition_passes::<R>()
    &&& functions_agree::<R>()
    &&& comparisons_agree::<R>()
}

/// Of two opposed numbers one is not negative, and both are only where they
/// are zero. The difference of finite numbers is a number, and it is zero only
/// where they are the same; the sign of a polarity does not change that.
pub open spec fn signs_are_opposed<R: Real>() -> bool {
    &&& forall|a: R, b: R| #[trigger]
        opposed(a, b) && a.at_most(a) ==> {
            &&& R::nil().at_most(a) || R::nil().at_most(b)
            &&& R::nil().at_most(a) && R::nil().at_most(b) ==> num::same(a, R::nil())
        }
    &&& forall|a: R, b: R, p: bool|
        a.finite() && b.finite() ==> {
            let u = #[trigger] models::polarity::<R>(p).times(a.minus(b));
            &&& u.at_most(u)
            &&& num::same(u, R::nil()) ==> num::same(a, b)
        }
}

/// Sequences of numbers that are alike.
pub open spec fn all_alike<R: Real>(x: Seq<R>, y: Seq<R>) -> bool {
    &&& x.len() == y.len()
    &&& forall|i: int| 0 <= i < x.len() ==> alike(#[trigger] x[i], #[trigger] y[i])
}

/// Sequences of numbers that are opposed: one is the other with the signs
/// turned round.
pub open spec fn all_opposed<R: Real>(x: Seq<R>, y: Seq<R>) -> bool {
    &&& x.len() == y.len()
    &&& forall|i: int| 0 <= i < x.len() ==> opposed(#[trigger] x[i], #[trigger] y[i])
}

/// A sequence with its signs turned round.
pub open spec fn turned_round<R: Real>(x: Seq<R>) -> Seq<R> {
    Seq::new(x.len(), |i: int| x[i].opposite())
}

pub(crate) proof fn lemma_alike_itself<R: Real>(a: R)
    ensures
        alike(a, a),
{
    reveal(alike);
}

pub(crate) proof fn lemma_alike_back<R: Real>(a: R, b: R)
    requires
        alike(a, b),
    ensures
        alike(b, a),
{
    reveal(alike);
}

pub(crate) proof fn lemma_alike_on<R: Real>(a: R, b: R, c: R)
    requires
        likeness_is_shared::<R>(),
        alike(a, b),
        alike(b, c),
    ensures
        alike(a, c),
{
    reveal(likeness_is_shared);
}

/// The differences of nothing and of numbers that are alike.
proof fn lemma_negatives_alike<R: Real>(a: R, b: R)
    requires
        signs_pass::<R>(),
        alike(a, b),
    ensures
        alike(R::nil().minus(a), R::nil().minus(b)),
{
    lemma_alike_itself(R::nil());
    reveal(likeness_passes);
}

proof fn lemma_opposite_of_negative<R: Real>(a: R)
    requires
        signs_pass::<R>(),
    ensures
        opposed(R::nil().minus(a), a),
{
    reveal(opposites_pair);
}

proof fn lemma_negative<R: Real>(a: R, b: R)
    ensures
        opposed(a, b) <==> alike(R::nil().minus(a), b),
{
    reveal(opposed);
}

/// The opposite of the opposite.
pub(crate) proof fn lemma_opposed_twice<R: Real>(a: R, b: R, c: R)
    requires
        signs_pass::<R>(),
        opposed(a, b),
        opposed(b, c),
    ensures
        alike(a, c),
{
    let m = R::nil().minus(a);
    let mm = R::nil().minus(m);
    lemma_negative(a, b);
    lemma_negative(b, c);
    lemma_negatives_alike(m, b);
    lemma_opposite_of_negative(a);
    lemma_negative(m, a);
    lemma_alike_back(mm, a);
    lemma_alike_on(a, mm, R::nil().minus(b));
    lemma_alike_on(a, R::nil().minus(b), c);
}

pub(crate) proof fn lemma_opposed_back<R: Real>(a: R, b: R)
    requires
        signs_pass::<R>(),
        opposed(a, b),
    ensures
        opposed(b, a),
{
    let m = R::nil().minus(a);
    let mm = R::nil().minus(m);
    lemma_negative(a, b);
    lemma_alike_back(m, b);
    lemma_negatives_alike(b, m);
    lemma_opposite_of_negative(a);
    lemma_negative(m, a);
    lemma_alike_on(R::nil().minus(b), mm, a);
    lemma_negative(b, a);
}

/// Nothing minus a number is its opposite.
pub(crate) proof fn lemma_from_nil<R: Real>(a: R, b: R)
    requires
        signs_pass::<R>(),
        alike(a, b),
    ensures
        opposed(a, R::nil().minus(b)),
        opposed(R::nil().minus(a), b),
{
    let m = R::nil().minus(a);
    lemma_negatives_alike(a, b);
    lemma_negative(a, R::nil().minus(b));
    lemma_opposite_of_negative(a);
    lemma_negative(m, a);
    lemma_alike_on(R::nil().minus(m), a, b);
    lemma_negative(m, b);
}

/// Nothing minus opposed numbers is opposed.
pub(crate) proof fn lemma_both_from_nil<R: Real>(a: R, b: R)
    requires
        signs_pass::<R>(),
        opposed(a, b),
    ensures
        opposed(R::nil().minus(a), R::nil().minus(b)),
{
    lemma_nil_opposed::<R>();
    reveal(opposition_passes);
}

pub(crate) proof fn lemma_nil_opposed<R: Real>()
    requires
        signs_pass::<R>(),
    ensures
        opposed(R::nil(), R::nil()),
{
    reveal(opposites_pair);
}

/// A sequence is opposed to itself with the signs turned round.
pub proof fn turning_round_opposes<R: Real>(x: Seq<R>)
    requires
        signs_pass::<R>(),
    ensures
        all_opposed(x, turned_round(x)),
{
    reveal(opposites_pair);
}

pub(crate) proof fn lemma_compared<R: Real>(a: R, b: R, c: R, d: R)
    requires
        signs_pass::<R>(),
        alike(a, c),
        alike(b, d),
    ensures
        a.below(b) == c.below(d),
        a.at_most(b) == c.at_most(d),
        a.outweighs(b) == c.outweighs(d),
        a.negligible() == c.negligible(),
{
    reveal(comparisons_agree);
}

/// A polarity and the other one.
pub(crate) proof fn lemma_polarity<R: Real>(p: bool)
    requires
        signs_pass::<R>(),
    ensures
        opposed(models::polarity::<R>(p), models::polarity::<R>(!p)),
{
    assert(opposed(R::unit(), R::decimal(-1, 0))) by {
        reveal(opposites_pair);
    }
    lemma_opposed_back(R::unit(), R::decimal(-1, 0));
}

/// A voltage in the frame of a complementary device is alike.
pub(crate) proof fn lemma_frame<R: Real>(p: bool, a: R, b: R, c: R, d: R)
    requires
        signs_pass::<R>(),
        opposed(a, c),
        opposed(b, d),
    ensures
        alike(
            models::polarity::<R>(p).times(a.minus(b)),
            models::polarity::<R>(!p).times(c.minus(d)),
        ),
{
    lemma_polarity::<R>(p);
    reveal(opposition_passes);
    assert(opposed(a.minus(b), c.minus(d)));
}

/// A current in the frame of a complementary device is opposed.
pub(crate) proof fn lemma_current_frame<R: Real>(p: bool, i: R, j: R)
    requires
        signs_pass::<R>(),
        alike(i, j),
    ensures
        opposed(models::polarity::<R>(p).times(i), models::polarity::<R>(!p).times(j)),
{
    lemma_polarity::<R>(p);
    reveal(opposition_passes);
}

/// A difference of opposed numbers, taken the other way round, is alike.
pub(crate) proof fn lemma_turned_difference<R: Real>(a: R, b: R, c: R, d: R)
    requires
        signs_pass::<R>(),
        opposed(a, c),
        opposed(b, d),
    ensures
        alike(a.minus(b), d.minus(c)),
{
    assert(opposed(a.minus(b), c.minus(d))) by {
        reveal(opposition_passes);
    }
    assert(opposed(c.minus(d), d.minus(c))) by {
        reveal(opposites_pair);
    }
    lemma_opposed_twice(a.minus(b), c.minus(d), d.minus(c));
}

} // verus!
