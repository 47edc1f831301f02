//! Consequences of the field axioms.
use vstd::prelude::*;

use crate::num;
use crate::num::Num;

verus! {

pub proof fn plus_comm<T: Num>(a: T, b: T)
    requires
        num::is_field::<T>(),
    ensures
        a.plus(b) == b.plus(a),
{
    reveal(num::is_field);
}

pub proof fn plus_assoc<T: Num>(a: T, b: T, c: T)
    requires
        num::is_field::<T>(),
    ensures
        a.plus(b).plus(c) == a.plus(b.plus(c)),
{
    reveal(num::is_field);
}

pub proof fn plus_nil<T: Num>(a: T)
    requires
        num::is_field::<T>(),
    ensures
        a.plus(T::nil()) == a,
        T::nil().plus(a) == a,
{
    reveal(num::is_field);
    assert(T::nil().plus(a) == a.plus(T::nil()));
}

pub proof fn minus_plus<T: Num>(a: T, b: T)
    requires
        num::is_field::<T>(),
    ensures
        a.minus(b).plus(b) == a,
{
    reveal(num::is_field);
}

pub proof fn times_comm<T: Num>(a: T, b: T)
    requires
        num::is_field::<T>(),
    ensures
        a.times(b) == b.times(a),
{
    reveal(num::is_field);
}

pub proof fn times_assoc<T: Num>(a: T, b: T, c: T)
    requires
        num::is_field::<T>(),
    ensures
        a.times(b).times(c) == a.times(b.times(c)),
{
    reveal(num::is_field);
}

pub proof fn times_unit<T: Num>(a: T)
    requires
        num::is_field::<T>(),
    ensures
        a.times(T::unit()) == a,
        T::unit().times(a) == a,
{
    reveal(num::is_field);
    assert(T::unit().times(a) == a.times(T::unit()));
}

pub proof fn distributes<T: Num>(a: T, b: T, c: T)
    requires
        num::is_field::<T>(),
    ensures
        a.times(b.plus(c)) == a.times(b).plus(a.times(c)),
{
    reveal(num::is_field);
}

pub proof fn over_times<T: Num>(a: T, b: T)
    requires
        num::is_field::<T>(),
        b != T::nil(),
    ensures
        a.over(b).times(b) == a,
{
    reveal(num::is_field);
}

pub proof fn unit_is_not_nil<T: Num>()
    requires
        num::is_field::<T>(),
    ensures
        T::unit() != T::nil(),
{
    reveal(num::is_field);
}

/// `(a + b) + (c + d) == (a + c) + (b + d)`
pub proof fn plus_exchange<T: Num>(a: T, b: T, c: T, d: T)
    requires
        num::is_field::<T>(),
    ensures
        a.plus(b).plus(c.plus(d)) == a.plus(c).plus(b.plus(d)),
{
    plus_assoc(a, b, c.plus(d));
    plus_assoc(b, c, d);
    plus_comm(b, c);
    plus_assoc(c, b, d);
    plus_assoc(a, c, b.plus(d));
}

pub proof fn plus_cancel<T: Num>(a: T, b: T, c: T)
    requires
        num::is_field::<T>(),
        a.plus(c) == b.plus(c),
    ensures
        a == b,
{
    let n = T::nil().minus(c);
    minus_plus(T::nil(), c);
    plus_comm(n, c);
    plus_assoc(a, c, n);
    plus_assoc(b, c, n);
    plus_nil(a);
    plus_nil(b);
}

/// What added to `b` gives `a` is `a - b`.
pub proof fn minus_unique<T: Num>(a: T, b: T, c: T)
    requires
        num::is_field::<T>(),
        c.plus(b) == a,
    ensures
        c == a.minus(b),
{
    minus_plus(a, b);
    plus_cancel(c, a.minus(b), b);
}

pub proof fn minus_self<T: Num>(a: T)
    requires
        num::is_field::<T>(),
    ensures
        a.minus(a) == T::nil(),
{
    plus_nil(a);
    minus_unique(a, a, T::nil());
}

pub proof fn minus_nil<T: Num>(a: T)
    requires
        num::is_field::<T>(),
    ensures
        a.minus(T::nil()) == a,
{
    plus_nil(a);
    minus_unique(a, T::nil(), a);
}

pub proof fn times_nil<T: Num>(a: T)
    requires
        num::is_field::<T>(),
    ensures
        a.times(T::nil()) == T::nil(),
        T::nil().times(a) == T::nil(),
{
    let z = a.times(T::nil());
    plus_nil(T::nil());
    distributes(a, T::nil(), T::nil());
    plus_nil(z);
    plus_cancel(z, T::nil(), z);
    times_comm(a, T::nil());
}

/// `(a - b) + (c - d) == (a + c) - (b + d)`
pub proof fn minus_exchange<T: Num>(a: T, b: T, c: T, d: T)
    requires
        num::is_field::<T>(),
    ensures
        a.minus(b).plus(c.minus(d)) == a.plus(c).minus(b.plus(d)),
{
    plus_exchange(a.minus(b), c.minus(d), b, d);
    minus_plus(a, b);
    minus_plus(c, d);
    minus_unique(a.plus(c), b.plus(d), a.minus(b).plus(c.minus(d)));
}

/// `a * (b - c) == a * b - a * c`
pub proof fn distributes_minus<T: Num>(a: T, b: T, c: T)
    requires
        num::is_field::<T>(),
    ensures
        a.times(b.minus(c)) == a.times(b).minus(a.times(c)),
{
    distributes(a, b.minus(c), c);
    minus_plus(b, c);
    minus_unique(a.times(b), a.times(c), a.times(b.minus(c)));
}

/// `(b - c) * a == b * a - c * a`
pub proof fn minus_distributes<T: Num>(b: T, c: T, a: T)
    requires
        num::is_field::<T>(),
    ensures
        b.minus(c).times(a) == b.times(a).minus(c.times(a)),
{
    distributes_minus(a, b, c);
    times_comm(a, b.minus(c));
    times_comm(a, b);
    times_comm(a, c);
}

/// `(b + c) * a == b * a + c * a`
pub proof fn plus_distributes<T: Num>(b: T, c: T, a: T)
    requires
        num::is_field::<T>(),
    ensures
        b.plus(c).times(a) == b.times(a).plus(c.times(a)),
{
    distributes(a, b, c);
    times_comm(a, b.plus(c));
    times_comm(a, b);
    times_comm(a, c);
}

/// `(a + b) - c == a + (b - c)`
pub proof fn plus_minus<T: Num>(a: T, b: T, c: T)
    requires
        num::is_field::<T>(),
    ensures
        a.plus(b).minus(c) == a.plus(b.minus(c)),
{
    plus_assoc(a, b.minus(c), c);
    minus_plus(b, c);
    minus_unique(a.plus(b), c, a.plus(b.minus(c)));
}

/// `(a - b) - c == (a - c) - b`
pub proof fn minus_swap<T: Num>(a: T, b: T, c: T)
    requires
        num::is_field::<T>(),
    ensures
        a.minus(b).minus(c) == a.minus(c).minus(b),
{
    let d = a.minus(b).minus(c);
    minus_plus(a.minus(b), c);
    minus_plus(a, b);
    plus_assoc(d, c, b);
    plus_comm(c, b);
    plus_assoc(d, b, c);
    minus_unique(a, c, d.plus(b));
    minus_unique(a.minus(c), b, d);
}

/// `(0 - a) * b == 0 - a * b`
pub proof fn opposite_times<T: Num>(a: T, b: T)
    requires
        num::is_field::<T>(),
    ensures
        T::nil().minus(a).times(b) == T::nil().minus(a.times(b)),
{
    minus_distributes(T::nil(), a, b);
    times_nil(b);
}

/// `a + (0 - b) == a - b`
pub proof fn plus_opposite<T: Num>(a: T, b: T)
    requires
        num::is_field::<T>(),
    ensures
        a.plus(T::nil().minus(b)) == a.minus(b),
{
    plus_nil(a);
    plus_minus(a, T::nil(), b);
}

/// `a - (b + c) == (a - b) - c`
pub proof fn minus_sum<T: Num>(a: T, b: T, c: T)
    requires
        num::is_field::<T>(),
    ensures
        a.minus(b.plus(c)) == a.minus(b).minus(c),
{
    let d = a.minus(b).minus(c);
    minus_plus(a.minus(b), c);
    minus_plus(a, b);
    plus_comm(b, c);
    plus_assoc(d, c, b);
    minus_unique(a, b.plus(c), d);
}

/// `a - (b - c) == (a - b) + c`
pub proof fn minus_difference<T: Num>(a: T, b: T, c: T)
    requires
        num::is_field::<T>(),
    ensures
        a.minus(b.minus(c)) == a.minus(b).plus(c),
{
    let d = a.minus(b).plus(c);
    plus_assoc(a.minus(b), c, b.minus(c));
    plus_comm(c, b.minus(c));
    minus_plus(b, c);
    minus_plus(a, b);
    minus_unique(a, b.minus(c), d);
}

/// `(a + b) - c == (a - c) + b`
pub proof fn sum_minus<T: Num>(a: T, b: T, c: T)
    requires
        num::is_field::<T>(),
    ensures
        a.plus(b).minus(c) == a.minus(c).plus(b),
{
    plus_comm(a, b);
    plus_minus(b, a, c);
    plus_comm(b, a.minus(c));
}

/// `(a / b) * b == a` with the factors the other way round, and the quotient
/// is the only number with this property.
pub proof fn over_unique<T: Num>(a: T, b: T, c: T)
    requires
        num::is_field::<T>(),
        b != T::nil(),
        c.times(b) == a,
    ensures
        c == a.over(b),
{
    let q = a.over(b);
    let inv = T::unit().over(b);
    over_times(a, b);
    over_times(T::unit(), b);
    times_comm(inv, b);
    times_assoc(c, b, inv);
    times_assoc(q, b, inv);
    times_unit(c);
    times_unit(q);
}

} // verus!
