//! The arithmetic that the simulator is written in.
//!
//! Nothing here fixes a number format. [`Num`] is what the linear solver needs
//! and [`Real`] is what the device models, the analyses and the netlist reader
//! need on top of it. Each operation is tied to a spec function of the
//! implementing type and to nothing else, so the contracts of the library say
//! which operations are applied to what and in which order, whatever the
//! rounding. Laws that only hold of exact arithmetic take [`is_field`] as a
//! hypothesis, and laws that need an order take [`is_order`].
//!
//! A verified implementation says what its operations are by giving the spec
//! functions, as the complex numbers here and the integers modulo seven of the
//! module `seven` do.
//! Each spec function has a default, which is some function of its arguments
//! that nothing is known of, so that floating point numbers can implement the
//! traits by their executable methods alone: all that is asked of them is that
//! an operation gives the same result whenever it is applied to the same
//! values. The number in a default tells the operations apart.
use vstd::prelude::*;

verus! {

/// What the sparse solver asks of a number. Magnitudes occur only in
/// comparisons.
pub trait Num: Copy {
    closed spec fn nil() -> Self {
        arbitrary::<spec_fn(int) -> Self>()(1)
    }

    closed spec fn unit() -> Self {
        arbitrary::<spec_fn(int) -> Self>()(2)
    }

    closed spec fn plus(self, o: Self) -> Self {
        arbitrary::<spec_fn(int, Self, Self) -> Self>()(3, self, o)
    }

    closed spec fn minus(self, o: Self) -> Self {
        arbitrary::<spec_fn(int, Self, Self) -> Self>()(4, self, o)
    }

    closed spec fn times(self, o: Self) -> Self {
        arbitrary::<spec_fn(int, Self, Self) -> Self>()(5, self, o)
    }

    closed spec fn over(self, o: Self) -> Self {
        arbitrary::<spec_fn(int, Self, Self) -> Self>()(6, self, o)
    }

    /// The magnitude of `self` is strictly larger than that of `o`.
    closed spec fn outweighs(self, o: Self) -> bool {
        arbitrary::<spec_fn(int, Self, Self) -> bool>()(7, self, o)
    }

    /// The magnitude of `self` is too small to divide by.
    closed spec fn negligible(self) -> bool {
        arbitrary::<spec_fn(int, Self) -> bool>()(8, self)
    }

    fn zero() -> (r: Self)
        ensures
            r == Self::nil(),
    ;

    fn one() -> (r: Self)
        ensures
            r == Self::unit(),
    ;

    fn add(self, o: Self) -> (r: Self)
        ensures
            r == self.plus(o),
    ;

    fn sub(self, o: Self) -> (r: Self)
        ensures
            r == self.minus(o),
    ;

    fn mul(self, o: Self) -> (r: Self)
        ensures
            r == self.times(o),
    ;

    fn div(self, o: Self) -> (r: Self)
        ensures
            r == self.over(o),
    ;

    fn exceeds(self, o: Self) -> (r: bool)
        ensures
            r == self.outweighs(o),
    ;

    fn vanishes(self) -> (r: bool)
        ensures
            r == self.negligible(),
    ;
}

/// A number with an order, elementary functions and a text form.
pub trait Real: Num {
    /// The number `m * 10^e`.
    closed spec fn decimal(m: int, e: int) -> Self {
        arbitrary::<spec_fn(int, int, int) -> Self>()(9, m, e)
    }

    closed spec fn integer(i: int) -> Self {
        arbitrary::<spec_fn(int, int) -> Self>()(10, i)
    }

    /// The value that is no number.
    closed spec fn undefined() -> Self {
        arbitrary::<spec_fn(int) -> Self>()(11)
    }

    closed spec fn largest() -> Self {
        arbitrary::<spec_fn(int) -> Self>()(12)
    }

    closed spec fn finite(self) -> bool {
        arbitrary::<spec_fn(int, Self) -> bool>()(13, self)
    }

    closed spec fn below(self, o: Self) -> bool {
        arbitrary::<spec_fn(int, Self, Self) -> bool>()(14, self, o)
    }

    closed spec fn at_most(self, o: Self) -> bool {
        arbitrary::<spec_fn(int, Self, Self) -> bool>()(15, self, o)
    }

    closed spec fn greater_of(self, o: Self) -> Self {
        arbitrary::<spec_fn(int, Self, Self) -> Self>()(16, self, o)
    }

    closed spec fn lesser_of(self, o: Self) -> Self {
        arbitrary::<spec_fn(int, Self, Self) -> Self>()(17, self, o)
    }

    closed spec fn opposite(self) -> Self {
        arbitrary::<spec_fn(int, Self) -> Self>()(18, self)
    }

    closed spec fn size(self) -> Self {
        arbitrary::<spec_fn(int, Self) -> Self>()(19, self)
    }

    /// The remainder of the division by `o`.
    closed spec fn modulo(self, o: Self) -> Self {
        arbitrary::<spec_fn(int, Self, Self) -> Self>()(20, self, o)
    }

    closed spec fn exponential(self) -> Self {
        arbitrary::<spec_fn(int, Self) -> Self>()(21, self)
    }

    closed spec fn logarithm(self) -> Self {
        arbitrary::<spec_fn(int, Self) -> Self>()(22, self)
    }

    closed spec fn sine(self) -> Self {
        arbitrary::<spec_fn(int, Self) -> Self>()(23, self)
    }

    closed spec fn power(self, e: Self) -> Self {
        arbitrary::<spec_fn(int, Self, Self) -> Self>()(24, self, e)
    }

    closed spec fn int_power(self, e: int) -> Self {
        arbitrary::<spec_fn(int, Self, int) -> Self>()(25, self, e)
    }

    closed spec fn cube_root(self) -> Self {
        arbitrary::<spec_fn(int, Self) -> Self>()(26, self)
    }

    closed spec fn hypotenuse(self, o: Self) -> Self {
        arbitrary::<spec_fn(int, Self, Self) -> Self>()(27, self, o)
    }

    /// The angle of the point with ordinate `self` and abscissa `x`.
    closed spec fn angle(self, x: Self) -> Self {
        arbitrary::<spec_fn(int, Self, Self) -> Self>()(28, self, x)
    }

    /// The nearest integer that an `i64` holds.
    closed spec fn rounded(self) -> i64 {
        arbitrary::<spec_fn(int, Self) -> i64>()(29, self)
    }

    /// The whole part, as far as a `usize` holds it.
    closed spec fn whole(self) -> usize {
        arbitrary::<spec_fn(int, Self) -> usize>()(30, self)
    }

    /// The number that a text denotes, if it denotes one.
    closed spec fn read(t: Seq<char>) -> Option<Self> {
        arbitrary::<spec_fn(int, Seq<char>) -> Option<Self>>()(31, t)
    }

    /// Scientific notation with `digits` digits behind the point.
    closed spec fn shown(self, digits: int) -> Seq<char> {
        arbitrary::<spec_fn(int, Self, int) -> Seq<char>>()(32, self, digits)
    }

    fn lit(m: i64, e: i32) -> (r: Self)
        ensures
            r == Self::decimal(m as int, e as int),
    ;

    fn of_int(i: i128) -> (r: Self)
        ensures
            r == Self::integer(i as int),
    ;

    fn nan() -> (r: Self)
        ensures
            r == Self::undefined(),
    ;

    fn max_value() -> (r: Self)
        ensures
            r == Self::largest(),
    ;

    fn is_finite(self) -> (r: bool)
        ensures
            r == self.finite(),
    ;

    fn lt(self, o: Self) -> (r: bool)
        ensures
            r == self.below(o),
    ;

    fn le(self, o: Self) -> (r: bool)
        ensures
            r == self.at_most(o),
    ;

    fn max(self, o: Self) -> (r: Self)
        ensures
            r == self.greater_of(o),
    ;

    fn min(self, o: Self) -> (r: Self)
        ensures
            r == self.lesser_of(o),
    ;

    fn neg(self) -> (r: Self)
        ensures
            r == self.opposite(),
    ;

    fn abs(self) -> (r: Self)
        ensures
            r == self.size(),
    ;

    fn rem(self, o: Self) -> (r: Self)
        ensures
            r == self.modulo(o),
    ;

    fn exp(self) -> (r: Self)
        ensures
            r == self.exponential(),
    ;

    fn ln(self) -> (r: Self)
        ensures
            r == self.logarithm(),
    ;

    fn sin(self) -> (r: Self)
        ensures
            r == self.sine(),
    ;

    fn powf(self, e: Self) -> (r: Self)
        ensures
            r == self.power(e),
    ;

    fn powi(self, e: i32) -> (r: Self)
        ensures
            r == self.int_power(e as int),
    ;

    fn cbrt(self) -> (r: Self)
        ensures
            r == self.cube_root(),
    ;

    fn hypot(self, o: Self) -> (r: Self)
        ensures
            r == self.hypotenuse(o),
    ;

    fn atan2(self, x: Self) -> (r: Self)
        ensures
            r == self.angle(x),
    ;

    fn round_i64(self) -> (r: i64)
        ensures
            r == self.rounded(),
    ;

    fn to_usize(self) -> (r: usize)
        ensures
            r == self.whole(),
    ;

    fn parse(t: &str) -> (r: Option<Self>)
        ensures
            r == Self::read(t@),
    ;

    fn show(self, digits: usize) -> (r: String)
        ensures
            r@ == self.shown(digits as int),
    ;
}

/// Equality of two numbers as the order sees it.
pub open spec fn same<R: Real>(a: R, b: R) -> bool {
    a.at_most(b) && b.at_most(a)
}

pub fn is_same<R: Real>(a: R, b: R) -> (r: bool)
    ensures
        r == same(a, b),
{
    a.le(b) && b.le(a)
}

/// `v` moved into the range from `lo` to `hi`.
pub open spec fn clamped<R: Real>(v: R, lo: R, hi: R) -> R {
    if v.below(lo) {
        lo
    } else if hi.below(v) {
        hi
    } else {
        v
    }
}

pub fn clamp<R: Real>(v: R, lo: R, hi: R) -> (r: R)
    ensures
        r == clamped(v, lo, hi),
{
    if v.lt(lo) {
        lo
    } else if hi.lt(v) {
        hi
    } else {
        v
    }
}

/// The ratio of a circle's circumference to its diameter.
pub open spec fn circle<R: Real>() -> R {
    R::decimal(3141592653589793, -15)
}

pub fn pi<R: Real>() -> (r: R)
    ensures
        r == circle::<R>(),
{
    R::lit(3141592653589793, -15)
}

/// A complex number.
#[derive(Clone, Copy)]
pub struct Cx<R> {
    pub re: R,
    pub im: R,
}

impl<R: Real> Cx<R> {
    pub fn new(re: R, im: R) -> (r: Self)
        ensures
            r == (Cx { re, im }),
    {
        Cx { re, im }
    }

    pub open spec fn length(self) -> R {
        self.re.hypotenuse(self.im)
    }

    pub fn mag(self) -> (r: R)
        ensures
            r == self.length(),
    {
        self.re.hypot(self.im)
    }
}

impl<R: Real> Num for Cx<R> {
    open spec fn nil() -> Self {
        Cx { re: R::nil(), im: R::nil() }
    }

    open spec fn unit() -> Self {
        Cx { re: R::unit(), im: R::nil() }
    }

    open spec fn plus(self, o: Self) -> Self {
        Cx { re: self.re.plus(o.re), im: self.im.plus(o.im) }
    }

    open spec fn minus(self, o: Self) -> Self {
        Cx { re: self.re.minus(o.re), im: self.im.minus(o.im) }
    }

    open spec fn times(self, o: Self) -> Self {
        Cx {
            re: self.re.times(o.re).minus(self.im.times(o.im)),
            im: self.re.times(o.im).plus(self.im.times(o.re)),
        }
    }

    open spec fn over(self, o: Self) -> Self {
        let d = o.re.times(o.re).plus(o.im.times(o.im));
        Cx {
            re: self.re.times(o.re).plus(self.im.times(o.im)).over(d),
            im: self.im.times(o.re).minus(self.re.times(o.im)).over(d),
        }
    }

    open spec fn outweighs(self, o: Self) -> bool {
        o.length().below(self.length())
    }

    open spec fn negligible(self) -> bool {
        self.length().below(R::decimal(1, -300))
    }

    fn zero() -> (r: Self) {
        Cx { re: R::zero(), im: R::zero() }
    }

    fn one() -> (r: Self) {
        Cx { re: R::one(), im: R::zero() }
    }

    fn add(self, o: Self) -> (r: Self) {
        Cx { re: self.re.add(o.re), im: self.im.add(o.im) }
    }

    fn sub(self, o: Self) -> (r: Self) {
        Cx { re: self.re.sub(o.re), im: self.im.sub(o.im) }
    }

    fn mul(self, o: Self) -> (r: Self) {
        Cx {
            re: self.re.mul(o.re).sub(self.im.mul(o.im)),
            im: self.re.mul(o.im).add(self.im.mul(o.re)),
        }
    }

    fn div(self, o: Self) -> (r: Self) {
        let d = o.re.mul(o.re).add(o.im.mul(o.im));
        Cx {
            re: self.re.mul(o.re).add(self.im.mul(o.im)).div(d),
            im: self.im.mul(o.re).sub(self.re.mul(o.im)).div(d),
        }
    }

    fn exceeds(self, o: Self) -> (r: bool) {
        o.mag().lt(self.mag())
    }

    fn vanishes(self) -> (r: bool) {
        self.mag().lt(R::lit(1, -300))
    }
}

/// The operations of `T` obey the axioms of a field.
#[verifier::opaque]
pub open spec fn is_field<T: Num>() -> bool {
    &&& forall|a: T, b: T| #[trigger] a.plus(b) == b.plus(a)
    &&& forall|a: T, b: T, c: T| #[trigger] a.plus(b).plus(c) == a.plus(b.plus(c))
    &&& forall|a: T| #[trigger] a.plus(T::nil()) == a
    &&& forall|a: T, b: T| #[trigger] a.minus(b).plus(b) == a
    &&& forall|a: T, b: T| #[trigger] a.times(b) == b.times(a)
    &&& forall|a: T, b: T, c: T| #[trigger] a.times(b).times(c) == a.times(b.times(c))
    &&& forall|a: T| #[trigger] a.times(T::unit()) == a
    &&& forall|a: T, b: T, c: T| #[trigger]
        a.times(b.plus(c)) == a.times(b).plus(a.times(c))
    &&& forall|a: T, b: T| b != T::nil() ==> #[trigger] a.over(b).times(b) == a
    &&& T::nil() != T::unit()
}

/// The comparisons of `R` order the values that are comparable to themselves.
#[verifier::opaque]
pub open spec fn is_order<R: Real>() -> bool {
    &&& forall|a: R, b: R| #[trigger] a.below(b) <==> a.at_most(b) && !b.at_most(a)
    &&& forall|a: R, b: R, c: R| #[trigger]
        a.at_most(b) && #[trigger] b.at_most(c) ==> a.at_most(c)
    &&& forall|a: R, b: R| #[trigger] a.at_most(b) ==> a.at_most(a) && b.at_most(b)
    &&& forall|a: R, b: R|
        #![trigger a.at_most(b)]
        a.at_most(a) && b.at_most(b) ==> a.at_most(b) || b.at_most(a)
}

} // verus!
