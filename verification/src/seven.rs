//! The integers modulo seven: a small exact arithmetic.
//!
//! Linear systems over [`Seven`] are solved without rounding, and all that the
//! laws ask of exact arithmetic holds here: two is not zero, a half is four,
//! minus one is no square. The order is that of the numbers from minus three
//! to three. The functions of analysis mean nothing in a finite field and give
//! their argument back.
use vstd::arithmetic::div_mod;
use vstd::prelude::*;

use crate::assembly;
use crate::complex_laws;
use crate::exact;
use crate::models;
use crate::num;
use crate::num::{Num, Real};
use crate::predictor;
use crate::signs;
use crate::sweep_laws;
use crate::text::equal;
use crate::time_laws;
use crate::transient;

verus! {

#[derive(Clone, Copy)]
pub enum Seven {
    Zero,
    One,
    Two,
    Three,
    Four,
    Five,
    Six,
}

impl Seven {
    /// The number from 0 to 6.
    pub open spec fn value(self) -> int {
        match self {
            Seven::Zero => 0,
            Seven::One => 1,
            Seven::Two => 2,
            Seven::Three => 3,
            Seven::Four => 4,
            Seven::Five => 5,
            Seven::Six => 6,
        }
    }

    /// The number from -3 to 3.
    pub open spec fn signed(self) -> int {
        if self.value() <= 3 {
            self.value()
        } else {
            self.value() - 7
        }
    }

    /// The distance from zero.
    pub open spec fn distance(self) -> int {
        if self.signed() < 0 {
            -self.signed()
        } else {
            self.signed()
        }
    }

    /// The class of an integer.
    pub open spec fn class(i: int) -> Self {
        let r = i % 7;
        if r == 0 {
            Seven::Zero
        } else if r == 1 {
            Seven::One
        } else if r == 2 {
            Seven::Two
        } else if r == 3 {
            Seven::Three
        } else if r == 4 {
            Seven::Four
        } else if r == 5 {
            Seven::Five
        } else {
            Seven::Six
        }
    }

    /// The number whose product with `self` is one; zero for zero.
    pub open spec fn reciprocal(self) -> Self {
        match self {
            Seven::Zero => Seven::Zero,
            Seven::One => Seven::One,
            Seven::Two => Seven::Four,
            Seven::Three => Seven::Five,
            Seven::Four => Seven::Two,
            Seven::Five => Seven::Three,
            Seven::Six => Seven::Six,
        }
    }

    pub fn to_int(self) -> (r: i128)
        ensures
            r == self.value(),
    {
        match self {
            Seven::Zero => 0,
            Seven::One => 1,
            Seven::Two => 2,
            Seven::Three => 3,
            Seven::Four => 4,
            Seven::Five => 5,
            Seven::Six => 6,
        }
    }

    fn to_signed(self) -> (r: i128)
        ensures
            r == self.signed(),
    {
        let v: i128 = self.to_int();
        if v <= 3 {
            v
        } else {
            v - 7
        }
    }

    fn to_distance(self) -> (r: i128)
        ensures
            r == self.distance(),
    {
        let v: i128 = self.to_signed();
        if v < 0 {
            -v
        } else {
            v
        }
    }

    fn inverse(self) -> (r: Self)
        ensures
            r == self.reciprocal(),
    {
        match self {
            Seven::Zero => Seven::Zero,
            Seven::One => Seven::One,
            Seven::Two => Seven::Four,
            Seven::Three => Seven::Five,
            Seven::Four => Seven::Two,
            Seven::Five => Seven::Three,
            Seven::Six => Seven::Six,
        }
    }
}

/// The class of a number.
pub fn class_of(i: i128) -> (r: Seven)
    ensures
        r == Seven::class(i as int),
{
    let t: i128 = i % 7;
    let r: i128 = if t < 0 {
        t + 7
    } else {
        t
    };
    if r == 0 {
        Seven::Zero
    } else if r == 1 {
        Seven::One
    } else if r == 2 {
        Seven::Two
    } else if r == 3 {
        Seven::Three
    } else if r == 4 {
        Seven::Four
    } else if r == 5 {
        Seven::Five
    } else {
        Seven::Six
    }
}

impl Num for Seven {
    open spec fn nil() -> Self {
        Seven::Zero
    }

    open spec fn unit() -> Self {
        Seven::One
    }

    open spec fn plus(self, o: Self) -> Self {
        Seven::class(self.value() + o.value())
    }

    open spec fn minus(self, o: Self) -> Self {
        Seven::class(self.value() - o.value())
    }

    open spec fn times(self, o: Self) -> Self {
        Seven::class(self.value() * o.value())
    }

    open spec fn over(self, o: Self) -> Self {
        self.times(o.reciprocal())
    }

    open spec fn outweighs(self, o: Self) -> bool {
        self.distance() > o.distance()
    }

    open spec fn negligible(self) -> bool {
        self == Seven::Zero
    }

    fn zero() -> (r: Self) {
        Seven::Zero
    }

    fn one() -> (r: Self) {
        Seven::One
    }

    fn add(self, o: Self) -> (r: Self) {
        class_of(self.to_int() + o.to_int())
    }

    fn sub(self, o: Self) -> (r: Self) {
        class_of(self.to_int() - o.to_int())
    }

    fn mul(self, o: Self) -> (r: Self) {
        let a: i128 = self.to_int();
        let b: i128 = o.to_int();
        proof {
            assert(0 <= a * b <= 36) by (nonlinear_arith)
                requires
                    0 <= a <= 6,
                    0 <= b <= 6,
            ;
        }
        class_of(a * b)
    }

    fn div(self, o: Self) -> (r: Self) {
        self.mul(o.inverse())
    }

    fn exceeds(self, o: Self) -> (r: bool) {
        self.to_distance() > o.to_distance()
    }

    fn vanishes(self) -> (r: bool) {
        self.to_int() == 0
    }
}

/// The class of a power of ten, which is three modulo seven.
pub open spec fn ten_to(e: int) -> int {
    let r = e % 6;
    if r == 0 {
        1
    } else if r == 1 {
        3
    } else if r == 2 {
        2
    } else if r == 3 {
        6
    } else if r == 4 {
        4
    } else {
        5
    }
}

fn power_of_ten(e: i32) -> (r: i128)
    ensures
        r == ten_to(e as int),
        1 <= r <= 6,
{
    let t: i32 = e % 6;
    let r: i32 = if t < 0 {
        t + 6
    } else {
        t
    };
    if r == 0 {
        1
    } else if r == 1 {
        3
    } else if r == 2 {
        2
    } else if r == 3 {
        6
    } else if r == 4 {
        4
    } else {
        5
    }
}

impl Real for Seven {
    open spec fn decimal(m: int, e: int) -> Self {
        Seven::class(m * ten_to(e))
    }

    open spec fn integer(i: int) -> Self {
        Seven::class(i)
    }

    open spec fn undefined() -> Self {
        Seven::Zero
    }

    open spec fn largest() -> Self {
        Seven::Three
    }

    open spec fn finite(self) -> bool {
        true
    }

    open spec fn below(self, o: Self) -> bool {
        self.signed() < o.signed()
    }

    open spec fn at_most(self, o: Self) -> bool {
        self.signed() <= o.signed()
    }

    open spec fn greater_of(self, o: Self) -> Self {
        if self.signed() < o.signed() {
            o
        } else {
            self
        }
    }

    open spec fn lesser_of(self, o: Self) -> Self {
        if self.signed() < o.signed() {
            self
        } else {
            o
        }
    }

    open spec fn opposite(self) -> Self {
        Seven::class(-self.value())
    }

    open spec fn size(self) -> Self {
        Seven::class(self.distance())
    }

    open spec fn modulo(self, o: Self) -> Self {
        self
    }

    open spec fn exponential(self) -> Self {
        self
    }

    open spec fn logarithm(self) -> Self {
        self
    }

    open spec fn sine(self) -> Self {
        self
    }

    open spec fn power(self, e: Self) -> Self {
        self
    }

    open spec fn int_power(self, e: int) -> Self {
        self
    }

    open spec fn cube_root(self) -> Self {
        self
    }

    open spec fn hypotenuse(self, o: Self) -> Self {
        self
    }

    open spec fn angle(self, x: Self) -> Self {
        self
    }

    open spec fn rounded(self) -> i64 {
        self.signed() as i64
    }

    open spec fn whole(self) -> usize {
        self.value() as usize
    }

    open spec fn read(t: Seq<char>) -> Option<Self> {
        if t == "0"@ {
            Some(Seven::Zero)
        } else if t == "1"@ {
            Some(Seven::One)
        } else if t == "2"@ {
            Some(Seven::Two)
        } else if t == "3"@ {
            Some(Seven::Three)
        } else if t == "4"@ {
            Some(Seven::Four)
        } else if t == "5"@ {
            Some(Seven::Five)
        } else if t == "6"@ {
            Some(Seven::Six)
        } else {
            None
        }
    }

    open spec fn shown(self, digits: int) -> Seq<char> {
        match self {
            Seven::Zero => "0"@,
            Seven::One => "1"@,
            Seven::Two => "2"@,
            Seven::Three => "3"@,
            Seven::Four => "4"@,
            Seven::Five => "5"@,
            Seven::Six => "6"@,
        }
    }

    fn lit(m: i64, e: i32) -> (r: Self) {
        let p: i128 = power_of_ten(e);
        let n: i128 = m as i128;
        proof {
            assert(-6 * 0x8000_0000_0000_0000 <= n * p <= 6 * 0x8000_0000_0000_0000)
                by (nonlinear_arith)
                requires
                    1 <= p <= 6,
                    -0x8000_0000_0000_0000 <= n <= 0x8000_0000_0000_0000,
            ;
        }
        class_of(n * p)
    }

    fn of_int(i: i128) -> (r: Self) {
        class_of(i)
    }

    fn nan() -> (r: Self) {
        Seven::Zero
    }

    fn max_value() -> (r: Self) {
        Seven::Three
    }

    fn is_finite(self) -> (r: bool) {
        true
    }

    fn lt(self, o: Self) -> (r: bool) {
        self.to_signed() < o.to_signed()
    }

    fn le(self, o: Self) -> (r: bool) {
        self.to_signed() <= o.to_signed()
    }

    fn max(self, o: Self) -> (r: Self) {
        if self.to_signed() < o.to_signed() {
            o
        } else {
            self
        }
    }

    fn min(self, o: Self) -> (r: Self) {
        if self.to_signed() < o.to_signed() {
            self
        } else {
            o
        }
    }

    fn neg(self) -> (r: Self) {
        class_of(-self.to_int())
    }

    fn abs(self) -> (r: Self) {
        class_of(self.to_distance())
    }

    fn rem(self, o: Self) -> (r: Self) {
        self
    }

    fn exp(self) -> (r: Self) {
        self
    }

    fn ln(self) -> (r: Self) {
        self
    }

    fn sin(self) -> (r: Self) {
        self
    }

    fn powf(self, e: Self) -> (r: Self) {
        self
    }

    fn powi(self, e: i32) -> (r: Self) {
        self
    }

    fn cbrt(self) -> (r: Self) {
        self
    }

    fn hypot(self, o: Self) -> (r: Self) {
        self
    }

    fn atan2(self, x: Self) -> (r: Self) {
        self
    }

    fn round_i64(self) -> (r: i64) {
        self.to_signed() as i64
    }

    fn to_usize(self) -> (r: usize) {
        self.to_int() as usize
    }

    fn parse(t: &str) -> (r: Option<Self>) {
        if equal(t, "0") {
            Some(Seven::Zero)
        } else if equal(t, "1") {
            Some(Seven::One)
        } else if equal(t, "2") {
            Some(Seven::Two)
        } else if equal(t, "3") {
            Some(Seven::Three)
        } else if equal(t, "4") {
            Some(Seven::Four)
        } else if equal(t, "5") {
            Some(Seven::Five)
        } else if equal(t, "6") {
            Some(Seven::Six)
        } else {
            None
        }
    }

    fn show(self, digits: usize) -> (r: String) {
        match self {
            Seven::Zero => "0".to_owned(),
            Seven::One => "1".to_owned(),
            Seven::Two => "2".to_owned(),
            Seven::Three => "3".to_owned(),
            Seven::Four => "4".to_owned(),
            Seven::Five => "5".to_owned(),
            Seven::Six => "6".to_owned(),
        }
    }
}

proof fn lemma_class(i: int)
    ensures
        Seven::class(i).value() == i % 7,
{
}

proof fn lemma_value(a: Seven)
    ensures
        0 <= a.value() < 7,
        Seven::class(a.value()) == a,
{
}

/// Sums and products of classes are the classes of sums and products.
proof fn lemma_class_of_sum(x: int, y: int)
    ensures
        Seven::class(Seven::class(x).value() + y) == Seven::class(x + y),
        Seven::class(y + Seven::class(x).value()) == Seven::class(x + y),
{
    lemma_class(x);
    assert((x % 7 + y) % 7 == (x + y) % 7);
}

proof fn lemma_class_of_product(x: int, y: int)
    ensures
        Seven::class(Seven::class(x).value() * y) == Seven::class(x * y),
        Seven::class(y * Seven::class(x).value()) == Seven::class(x * y),
{
    lemma_class(x);
    div_mod::lemma_mul_mod_noop_left(x, y, 7);
    assert(y * (x % 7) == (x % 7) * y) by (nonlinear_arith);
}

proof fn lemma_plus_comm(a: Seven, b: Seven)
    ensures
        a.plus(b) == b.plus(a),
{
}

proof fn lemma_plus_assoc(a: Seven, b: Seven, c: Seven)
    ensures
        a.plus(b).plus(c) == a.plus(b.plus(c)),
{
    lemma_class_of_sum(a.value() + b.value(), c.value());
    lemma_class_of_sum(b.value() + c.value(), a.value());
}

proof fn lemma_plus_nil(a: Seven)
    ensures
        a.plus(Seven::Zero) == a,
{
    lemma_value(a);
}

proof fn lemma_minus_plus(a: Seven, b: Seven)
    ensures
        a.minus(b).plus(b) == a,
{
    lemma_class_of_sum(a.value() - b.value(), b.value());
    lemma_value(a);
}

proof fn lemma_times_comm(a: Seven, b: Seven)
    ensures
        a.times(b) == b.times(a),
{
    let (x, y) = (a.value(), b.value());
    assert(x * y == y * x) by (nonlinear_arith);
}

proof fn lemma_times_assoc(a: Seven, b: Seven, c: Seven)
    ensures
        a.times(b).times(c) == a.times(b.times(c)),
{
    let (x, y, z) = (a.value(), b.value(), c.value());
    lemma_class_of_product(x * y, z);
    lemma_class_of_product(y * z, x);
    assert((x * y) * z == (y * z) * x) by (nonlinear_arith);
}

proof fn lemma_times_unit(a: Seven)
    ensures
        a.times(Seven::One) == a,
{
    lemma_value(a);
}

proof fn lemma_distributes(a: Seven, b: Seven, c: Seven)
    ensures
        a.times(b.plus(c)) == a.times(b).plus(a.times(c)),
{
    let (x, y, z) = (a.value(), b.value(), c.value());
    lemma_class_of_product(y + z, x);
    lemma_class_of_sum(x * y, Seven::class(x * z).value());
    lemma_class_of_sum(x * z, x * y);
    assert((y + z) * x == x * y + x * z) by (nonlinear_arith);
}

proof fn lemma_reciprocal(b: Seven)
    requires
        b != Seven::Zero,
    ensures
        b.reciprocal().times(b) == Seven::One,
{
    match b {
        Seven::Zero => {},
        Seven::One => {},
        Seven::Two => {},
        Seven::Three => {},
        Seven::Four => {},
        Seven::Five => {},
        Seven::Six => {},
    }
}

proof fn lemma_over_times(a: Seven, b: Seven)
    requires
        b != Seven::Zero,
    ensures
        a.over(b).times(b) == a,
{
    lemma_times_assoc(a, b.reciprocal(), b);
    lemma_reciprocal(b);
    lemma_times_unit(a);
}

/// The square of a number, by its value.
spec fn square(v: int) -> int {
    if v == 0 {
        0
    } else if v == 1 || v == 6 {
        1
    } else if v == 2 || v == 5 {
        4
    } else {
        2
    }
}

proof fn lemma_square(a: Seven)
    ensures
        a.times(a).value() == square(a.value()),
{
    let v = a.value();
    assert(v == 0 ==> v * v == 0) by (nonlinear_arith);
    assert(v == 1 ==> v * v == 1) by (nonlinear_arith);
    assert(v == 2 ==> v * v == 4) by (nonlinear_arith);
    assert(v == 3 ==> v * v == 9) by (nonlinear_arith);
    assert(v == 4 ==> v * v == 16) by (nonlinear_arith);
    assert(v == 5 ==> v * v == 25) by (nonlinear_arith);
    assert(v == 6 ==> v * v == 36) by (nonlinear_arith);
}

proof fn lemma_field()
    ensures
        num::is_field::<Seven>(),
{
    assert forall|a: Seven, b: Seven| #[trigger] a.plus(b) == b.plus(a) by {
        lemma_plus_comm(a, b);
    }
    assert forall|a: Seven, b: Seven, c: Seven| #[trigger]
        a.plus(b).plus(c) == a.plus(b.plus(c)) by {
        lemma_plus_assoc(a, b, c);
    }
    assert forall|a: Seven| #[trigger] a.plus(Seven::nil()) == a by {
        lemma_plus_nil(a);
    }
    assert forall|a: Seven, b: Seven| #[trigger] a.minus(b).plus(b) == a by {
        lemma_minus_plus(a, b);
    }
    assert forall|a: Seven, b: Seven| #[trigger] a.times(b) == b.times(a) by {
        lemma_times_comm(a, b);
    }
    assert forall|a: Seven, b: Seven, c: Seven| #[trigger]
        a.times(b).times(c) == a.times(b.times(c)) by {
        lemma_times_assoc(a, b, c);
    }
    assert forall|a: Seven| #[trigger] a.times(Seven::unit()) == a by {
        lemma_times_unit(a);
    }
    assert forall|a: Seven, b: Seven, c: Seven| #[trigger]
        a.times(b.plus(c)) == a.times(b).plus(a.times(c)) by {
        lemma_distributes(a, b, c);
    }
    assert forall|a: Seven, b: Seven| b != Seven::nil() implies #[trigger] a.over(b).times(b)
        == a by {
        lemma_over_times(a, b);
    }
    reveal(num::is_field);
}

proof fn lemma_order()
    ensures
        num::is_order::<Seven>(),
{
    reveal(num::is_order);
}

/// Numbers are alike here only if they are equal.
proof fn lemma_alike(a: Seven, b: Seven)
    ensures
        signs::alike(a, b) <==> a == b,
{
    reveal(signs::alike);
    if a.signed() == b.signed() {
        assert(a == b);
    }
}

proof fn lemma_opposed(a: Seven, b: Seven)
    ensures
        signs::opposed(a, b) <==> b == Seven::class(-a.value()),
{
    reveal(signs::opposed);
    lemma_alike(Seven::nil().minus(a), b);
}

proof fn lemma_class_of_negative(x: int)
    ensures
        Seven::class(-Seven::class(x).value()) == Seven::class(-x),
{
    lemma_class(x);
    div_mod::lemma_sub_mod_noop(0, x, 7);
}

proof fn lemma_negatives_add(x: int, y: int)
    ensures
        Seven::class(Seven::class(-x).value() + Seven::class(-y).value()) == Seven::class(
            -Seven::class(x + y).value(),
        ),
{
    lemma_class_of_sum(-x, Seven::class(-y).value());
    lemma_class_of_sum(-y, -x);
    lemma_class_of_negative(x + y);
    assert(-y + -x == -(x + y));
}

proof fn lemma_negatives_subtract(x: int, y: int)
    ensures
        Seven::class(Seven::class(-x).value() - Seven::class(-y).value()) == Seven::class(
            -Seven::class(x - y).value(),
        ),
{
    let m = Seven::class(-y).value();
    lemma_class_of_sum(-x, -m);
    lemma_class_of_negative(-y);
    assert(Seven::class(-m) == Seven::class(y));
    lemma_class_of_sum(-m, -x);
    lemma_class_of_sum(y, -x);
    lemma_class_of_negative(x - y);
    assert(-x + -m == -m + -x && y + -x == -(x - y));
}

/// Signs in sums and differences.
proof fn lemma_signs_add(a: Seven, b: Seven)
    ensures
        Seven::class(-a.value()).plus(Seven::class(-b.value())) == Seven::class(
            -a.plus(b).value(),
        ),
        Seven::class(-a.value()).minus(Seven::class(-b.value())) == Seven::class(
            -a.minus(b).value(),
        ),
        b.minus(a) == Seven::class(-a.minus(b).value()),
{
    let (x, y) = (a.value(), b.value());
    lemma_negatives_add(x, y);
    lemma_negatives_subtract(x, y);
    lemma_class_of_negative(x - y);
    assert(y - x == -(x - y));
}

/// Signs in products.
proof fn lemma_signs_multiply(a: Seven, b: Seven)
    ensures
        Seven::class(-a.value()).times(b) == Seven::class(-a.times(b).value()),
        a.times(Seven::class(-b.value())) == Seven::class(-a.times(b).value()),
        Seven::class(-a.value()).times(Seven::class(-b.value())) == a.times(b),
{
    let (x, y) = (a.value(), b.value());
    lemma_class_of_product(-x, y);
    lemma_class_of_product(-y, x);
    lemma_class_of_product(-x, Seven::class(-y).value());
    lemma_class_of_product(-y, -x);
    lemma_class_of_negative(x * y);
    assert(-x * y == -(x * y)) by (nonlinear_arith);
    assert(-y * x == -(x * y)) by (nonlinear_arith);
    assert(-y * -x == x * y) by (nonlinear_arith);
}

proof fn lemma_opposites_pair()
    ensures
        signs::opposites_pair::<Seven>(),
{
    reveal(signs::opposites_pair);
    lemma_opposed(Seven::nil(), Seven::nil());
    lemma_opposed(Seven::unit(), Seven::decimal(-1, 0));
    assert forall|a: Seven| signs::opposed(#[trigger] Seven::nil().minus(a), a) by {
        lemma_opposed(Seven::nil().minus(a), a);
    }
    assert forall|a: Seven| signs::opposed(a, #[trigger] a.opposite()) by {
        lemma_opposed(a, a.opposite());
    }
    assert forall|a: Seven, b: Seven| #[trigger] signs::opposed(a.minus(b), b.minus(a)) by {
        lemma_opposed(a.minus(b), b.minus(a));
        lemma_signs_add(a, b);
    }
}

proof fn lemma_likeness()
    ensures
        signs::likeness_is_shared::<Seven>(),
        signs::likeness_passes::<Seven>(),
        signs::comparisons_agree::<Seven>(),
{
    assert forall|a: Seven, b: Seven| #[trigger] signs::alike(a, b) <==> a == b by {
        lemma_alike(a, b);
    }
    reveal(signs::likeness_is_shared);
    reveal(signs::likeness_passes);
    reveal(signs::comparisons_agree);
}

proof fn lemma_functions_agree()
    ensures
        signs::functions_agree::<Seven>(),
{
    reveal(signs::functions_agree);
    assert forall|a: Seven, b: Seven| #[trigger] signs::alike(a, b) <==> a == b by {
        lemma_alike(a, b);
    }
    assert forall|a: Seven, c: Seven|
        signs::alike(a, c) || signs::opposed(a, c) implies #[trigger] signs::alike(
        a.size(),
        c.size(),
    ) by {
        lemma_opposed(a, c);
    }
}

proof fn lemma_opposition()
    ensures
        signs::opposition_passes::<Seven>(),
{
    reveal(signs::opposition_passes);
    assert forall|a: Seven, b: Seven, c: Seven, d: Seven|
        signs::opposed(a, c) && signs::opposed(b, d) implies #[trigger] signs::opposed(
        a.plus(b),
        c.plus(d),
    ) by {
        lemma_opposed(a, c);
        lemma_opposed(b, d);
        lemma_opposed(a.plus(b), c.plus(d));
        lemma_signs_add(a, b);
    }
    assert forall|a: Seven, b: Seven, c: Seven, d: Seven|
        signs::opposed(a, c) && signs::opposed(b, d) implies #[trigger] signs::opposed(
        a.minus(b),
        c.minus(d),
    ) by {
        lemma_opposed(a, c);
        lemma_opposed(b, d);
        lemma_opposed(a.minus(b), c.minus(d));
        lemma_signs_add(a, b);
    }
    assert forall|a: Seven, b: Seven, c: Seven, d: Seven|
        (signs::alike(a, c) && signs::opposed(b, d)) || (signs::opposed(a, c) && signs::alike(
            b,
            d,
        )) implies #[trigger] signs::opposed(a.times(b), c.times(d)) by {
        lemma_opposed(a, c);
        lemma_opposed(b, d);
        lemma_alike(a, c);
        lemma_alike(b, d);
        lemma_opposed(a.times(b), c.times(d));
        lemma_signs_multiply(a, b);
    }
    assert forall|a: Seven, b: Seven, c: Seven, d: Seven|
        signs::opposed(a, c) && signs::opposed(b, d) implies #[trigger] signs::alike(
        a.times(b),
        c.times(d),
    ) by {
        lemma_opposed(a, c);
        lemma_opposed(b, d);
        lemma_alike(a.times(b), c.times(d));
        lemma_signs_multiply(a, b);
    }
    assert forall|a: Seven, b: Seven, c: Seven, d: Seven|
        signs::opposed(a, c) && signs::divide_alike(b, d) implies #[trigger] signs::opposed(
        a.over(b),
        c.over(d),
    ) by {
        lemma_opposed(a, c);
        lemma_alike(b, d);
        lemma_opposed(a.over(b), c.over(d));
        lemma_signs_multiply(a, b.reciprocal());
    }
}

proof fn lemma_signs_are_opposed()
    ensures
        signs::signs_are_opposed::<Seven>(),
{
    assert forall|a: Seven, b: Seven| #[trigger]
        signs::opposed(a, b) && a.at_most(a) implies ({
        &&& Seven::nil().at_most(a) || Seven::nil().at_most(b)
        &&& Seven::nil().at_most(a) && Seven::nil().at_most(b) ==> num::same(a, Seven::nil())
    }) by {
        lemma_opposed(a, b);
    }
    assert forall|a: Seven, b: Seven, p: bool| a.finite() && b.finite() implies ({
        let u = #[trigger] models::polarity::<Seven>(p).times(a.minus(b));
        &&& u.at_most(u)
        &&& num::same(u, Seven::nil()) ==> num::same(a, b)
    }) by {
        let d = a.minus(b);
        let u = models::polarity::<Seven>(p).times(d);
        lemma_times_unit(d);
        lemma_times_comm(Seven::One, d);
        assert(Seven::decimal(-1, 0) == Seven::Six);
        assert(Seven::class(-Seven::One.value()) == Seven::Six);
        lemma_signs_multiply(Seven::One, d);
        assert(u == d || u == Seven::class(-d.value()));
        if num::same(u, Seven::nil()) {
            assert(u == Seven::Zero);
            assert(d == Seven::Zero);
            assert(a == b);
        }
    }
}

/// Times of a clock that runs from zero to one add up.
proof fn lemma_times_add_up()
    ensures
        time_laws::times_add_up(Seven::One),
{
    let (zero, one, two, three) = (Seven::Zero, Seven::One, Seven::Two, Seven::Three);
    assert(time_laws::shortest(one) == one);
    assert(zero.plus(one) == one && one.plus(one) == two && two.plus(one) == three);
    assert(zero.minus(one) == Seven::Six && one.minus(one) == zero && one.minus(zero) == one);
    assert forall|b: Seven, u: Seven|
        time_laws::on_clock(b, one) && time_laws::on_clock(u, one) implies (#[trigger] b.minus(
        one,
    ).at_most(u) <==> b.at_most(u.plus(one))) by {
        assert((b == zero || b == one) && (u == zero || u == one));
    }
    assert forall|t: Seven, h: Seven|
        time_laws::on_clock(t, one) && Seven::nil().below(h) && h.at_most(
            one.minus(t),
        ) implies t.below(#[trigger] t.plus(h)) && t.plus(h).at_most(one) by {
        assert(t == zero || t == one);
        assert(t == zero && h == one);
    }
    assert forall|t: Seven, u: Seven|
        time_laws::on_clock(t, one) && t.below(u) && u.at_most(one) implies ({
        &&& Seven::nil().below(#[trigger] u.minus(t))
        &&& u.minus(t).at_most(one.minus(t))
        &&& t.plus(u.minus(t)) == u
    }) by {
        assert(t == zero && u == one);
    }
    assert forall|t: Seven, u: Seven, h: Seven|
        time_laws::on_clock(t, one) && time_laws::on_clock(u, one) && t.at_most(u)
            && time_laws::is_step(h, one) implies (#[trigger] t.plus(h)).plus(one).at_most(
        (#[trigger] u.plus(h)).plus(one),
    ) by {
        assert((t == zero || t == one) && (u == zero || u == one) && h == one);
    }
    assert forall|t: Seven| time_laws::on_clock(t, one) implies (#[trigger] t.minus(one)).at_most(
        t,
    ) by {
        assert(t == zero || t == one);
    }
    assert forall|t: Seven| time_laws::on_clock(t, one) implies t.at_most(
        #[trigger] t.plus(one),
    ) by {
        assert(t == zero || t == one);
    }
    assert forall|t: Seven| time_laws::on_clock(t, one) implies (#[trigger] one.minus(t)).at_most(
        one,
    ) by {
        assert(t == zero || t == one);
    }
}

proof fn lemma_quotients()
    ensures
        Seven::One.over(Seven::One) == Seven::One,
        Seven::Two.over(Seven::Two) == Seven::One,
        Seven::Three.over(Seven::Two) == Seven::Five,
        Seven::Three.over(Seven::Three) == Seven::One,
{
    let (one, two, three) = (Seven::One.value(), Seven::Two.value(), Seven::Three.value());
    let (four, five) = (Seven::Four.value(), Seven::Five.value());
    assert(one * one == 1) by (nonlinear_arith)
        requires
            one == 1,
    ;
    assert(two * four == 8 && three * four == 12 && three * five == 15) by (nonlinear_arith)
        requires
            two == 2,
            three == 3,
            four == 4,
            five == 5,
    ;
}

/// Steps of a clock that runs from zero to one scale.
proof fn lemma_steps_scale()
    ensures
        time_laws::steps_scale(Seven::Two, Seven::One),
{
    assert forall|h: Seven| time_laws::is_step(h, Seven::One) implies h == Seven::One by {}
    assert(Seven::decimal(100, 0) == Seven::Two);
    assert(Seven::decimal(8, 0) == Seven::One);
    assert(Seven::decimal(2, 0) == Seven::Two);
    assert(Seven::decimal(3, -1) == Seven::One);
    assert(Seven::decimal(125, -3) == Seven::One);
    assert(Seven::decimal(9, -1) == Seven::Three);
    assert(Seven::decimal(1, -8) == Seven::Four);
    let (one, two) = (Seven::One, Seven::Two);
    lemma_quotients();
    lemma_times_unit(two);
    assert forall|k: Seven| #[trigger] one.times(k) == k by {
        lemma_times_unit(k);
        lemma_times_comm(one, k);
    }
    assert forall|h: Seven, r: Seven| time_laws::is_step(h, one) implies Seven::nil().below(
        h.times(num::clamped(#[trigger] transient::step_scale(r), one, two)),
    ) && #[trigger] time_laws::is_step(h, one) by {
        let k = num::clamped(transient::step_scale(r), one, two);
        assert(k == one || k == two);
    }
    assert forall|h: Seven, r: Seven|
        time_laws::is_step(h, one) && Seven::unit().below(r) implies ({
        let k = num::clamped(#[trigger] transient::step_scale(r), one, Seven::Three);
        &&& Seven::nil().below(h.times(k))
        &&& h.times(k).at_most(h)
        &&& #[trigger] time_laws::is_step(h, one)
    }) by {
        assert(r == two || r == Seven::Three);
        assert(num::clamped(transient::step_scale(r), one, Seven::Three) == one);
    }
    assert(time_laws::steps_scale(two, one));
}

/// A clock that runs from zero to one keeps time.
proof fn lemma_time()
    ensures
        time_laws::keeps_time(Seven::Two, Seven::One),
{
    reveal(time_laws::keeps_time);
    lemma_order();
    lemma_times_add_up();
    lemma_steps_scale();
}

/// The integers modulo seven are an exact arithmetic in every sense that the
/// laws ask for: a field, with an order, with weights that tell zero from the
/// rest and can be compared, with squares that do not cancel, with integers
/// that count, with exact signs and an exact half.
pub proof fn seven_is_exact()
    ensures
        num::is_field::<Seven>(),
        num::is_order::<Seven>(),
        exact::weighs_exactly::<Seven>(),
        exact::weighs_consistently::<Seven>(),
        complex_laws::squares_add_up::<Seven>(),
        sweep_laws::counts::<Seven>(),
        Seven::decimal(5, -1).plus(Seven::decimal(5, -1)) == Seven::unit(),
        predictor::spaced(Seven::One, Seven::One, Seven::One),
        assembly::rule_factor::<Seven>(false).over(Seven::One) != Seven::nil(),
        Seven::nil().at_most(Seven::nil()),
        signs::signs_pass::<Seven>(),
        signs::signs_are_opposed::<Seven>(),
        time_laws::keeps_time(Seven::Two, Seven::One),
{
    lemma_field();
    lemma_order();
    lemma_opposites_pair();
    lemma_likeness();
    lemma_functions_agree();
    lemma_opposition();
    lemma_signs_are_opposed();
    lemma_time();
    assert forall|a: Seven, b: Seven| #[trigger]
        a.times(a).plus(b.times(b)) == Seven::nil() implies a == Seven::nil() && b
        == Seven::nil() by {
        lemma_square(a);
        lemma_square(b);
    }
    assert forall|i: int| #[trigger] Seven::integer(i).plus(Seven::unit()) == Seven::integer(
        i + 1,
    ) by {
        lemma_class_of_sum(i, 1);
    }
    assert(Seven::decimal(2, 0) == Seven::Two);
    assert(Seven::decimal(5, -1) == Seven::Four);
    assert(Seven::decimal(-1, 0) == Seven::Six);
}

} // verus!
