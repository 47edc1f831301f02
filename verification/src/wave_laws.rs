//! What the time courses of sources look like.
use vstd::prelude::*;

use crate::circuit::WaveModel;
use crate::field;
use crate::models;
use crate::num;
use crate::num::Real;

verus! {

/// The value of a sine source at the time `u` after its delay.
pub open spec fn sine_after<R: Real>(dc: R, vo: R, va: R, fr: R, td: R, theta: R, u: R) -> R {
    models::source_value(dc, Some(WaveModel::Sin { vo, va, fr, td, theta }), td.plus(u))
}

/// How far a sine source is from its offset at the time `u` after its delay.
pub open spec fn deviation<R: Real>(dc: R, vo: R, va: R, fr: R, td: R, theta: R, u: R) -> R {
    sine_after(dc, vo, va, fr, td, theta, u).minus(vo)
}

/// The sign of a number is taken off by subtraction from zero.
pub open spec fn opposites_are_exact<R: Real>() -> bool {
    forall|a: R| #[trigger] a.opposite() == R::nil().minus(a)
}

/// Exponentials of sums are products.
pub open spec fn exponentials_multiply<R: Real>() -> bool {
    forall|a: R, b: R| #[trigger]
        a.plus(b).exponential() == a.exponential().times(b.exponential())
}

/// The phase of a sine source.
spec fn phase<R: Real>(fr: R, u: R) -> R {
    R::decimal(2, 0).times(num::circle::<R>()).times(fr).times(u)
}

proof fn lemma_deviation<R: Real>(dc: R, vo: R, va: R, fr: R, td: R, theta: R, u: R)
    requires
        num::is_field::<R>(),
        u.greater_of(R::nil()) == u,
    ensures
        deviation(dc, vo, va, fr, td, theta, u) == va.times(
            u.opposite().times(theta).exponential(),
        ).times(phase(fr, u).sine()),
{
    field::plus_comm(td, u);
    field::plus_minus(u, td, td);
    field::minus_self(td);
    field::plus_nil(u);
    let s = va.times(u.opposite().times(theta).exponential()).times(phase(fr, u).sine());
    field::plus_comm(vo, s);
    field::plus_minus(s, vo, vo);
    field::minus_self(vo);
    field::plus_nil(s);
}

/// Half a period later an undamped sine source is as far on the other side of
/// its offset.
pub proof fn sines_swing_to_the_other_side<R: Real>(
    dc: R,
    vo: R,
    va: R,
    fr: R,
    td: R,
    u: R,
)
    requires
        num::is_field::<R>(),
        forall|a: R| #[trigger]
            a.plus(num::circle::<R>()).sine() == R::nil().minus(a.sine()),
        fr != R::nil(),
        R::decimal(2, 0) != R::nil(),
        u.greater_of(R::nil()) == u,
        ({
            let later = u.plus(R::unit().over(R::decimal(2, 0).times(fr)));
            later.greater_of(R::nil()) == later
        }),
    ensures
        ({
            let later = u.plus(R::unit().over(R::decimal(2, 0).times(fr)));
            deviation(dc, vo, va, fr, td, R::nil(), later) == R::nil().minus(
                deviation(dc, vo, va, fr, td, R::nil(), u),
            )
        }),
{
    let two = R::decimal(2, 0);
    let pi = num::circle::<R>();
    let d = two.times(fr);
    let half = R::unit().over(d);
    let later = u.plus(half);
    lemma_deviation(dc, vo, va, fr, td, R::nil(), u);
    lemma_deviation(dc, vo, va, fr, td, R::nil(), later);
    // the damping is the same
    field::times_nil(u.opposite());
    field::times_nil(later.opposite());
    // two fr is not zero
    if d == R::nil() {
        field::times_comm(two, fr);
        field::times_nil(fr);
        field::over_unique(R::nil(), fr, two);
        field::over_unique(R::nil(), fr, R::nil());
    }
    // 2 pi fr / (2 fr) == pi
    let k = two.times(pi).times(fr);
    field::distributes(k, u, half);
    field::times_comm(two, pi);
    field::times_assoc(pi, two, fr);
    field::times_assoc(pi, d, half);
    field::times_comm(d, half);
    field::over_times(R::unit(), d);
    field::times_unit(pi);
    assert(phase(fr, later) == phase(fr, u).plus(pi));
    let a = va.times(R::nil().exponential());
    let s = phase(fr, u).sine();
    field::distributes_minus(a, R::nil(), s);
    field::times_nil(a);
}

/// A sine source is odd in its frequency: turned the other way it is as far on
/// the other side of its offset.
pub proof fn sines_are_odd<R: Real>(dc: R, vo: R, va: R, fr: R, td: R, theta: R, u: R)
    requires
        num::is_field::<R>(),
        forall|a: R| #[trigger] R::nil().minus(a).sine() == R::nil().minus(a.sine()),
        u.greater_of(R::nil()) == u,
    ensures
        deviation(dc, vo, va, R::nil().minus(fr), td, theta, u) == R::nil().minus(
            deviation(dc, vo, va, fr, td, theta, u),
        ),
{
    let back = R::nil().minus(fr);
    lemma_deviation(dc, vo, va, fr, td, theta, u);
    lemma_deviation(dc, vo, va, back, td, theta, u);
    let w = R::decimal(2, 0).times(num::circle::<R>());
    field::distributes_minus(w, R::nil(), fr);
    field::times_nil(w);
    field::opposite_times(w.times(fr), u);
    assert(phase(back, u) == R::nil().minus(phase(fr, u)));
    let a = va.times(u.opposite().times(theta).exponential());
    let s = phase(fr, u).sine();
    field::distributes_minus(a, R::nil(), s);
    field::times_nil(a);
}

/// Up to its delay a sine source is at its offset.
pub proof fn sines_wait_at_their_offset<R: Real>(
    dc: R,
    vo: R,
    va: R,
    fr: R,
    td: R,
    theta: R,
    t: R,
)
    requires
        num::is_field::<R>(),
        R::nil().sine() == R::nil(),
        t.minus(td).greater_of(R::nil()) == R::nil(),
    ensures
        models::source_value(dc, Some(WaveModel::Sin { vo, va, fr, td, theta }), t) == vo,
{
    let n = R::nil();
    field::times_nil(R::decimal(2, 0).times(num::circle::<R>()).times(fr));
    let a = va.times(n.opposite().times(theta).exponential());
    field::times_nil(a);
    field::plus_nil(vo);
}

/// A quarter of a period after its delay an undamped sine source is its
/// amplitude over its offset.
pub proof fn sines_reach_their_amplitude<R: Real>(dc: R, vo: R, va: R, fr: R, td: R)
    requires
        num::is_field::<R>(),
        fr != R::nil(),
        R::decimal(2, 0) != R::nil(),
        num::circle::<R>().over(R::decimal(2, 0)).sine() == R::unit(),
        R::nil().exponential() == R::unit(),
        ({
            let quarter = R::unit().over(R::decimal(2, 0)).over(R::decimal(2, 0).times(fr));
            quarter.greater_of(R::nil()) == quarter
        }),
    ensures
        ({
            let quarter = R::unit().over(R::decimal(2, 0)).over(R::decimal(2, 0).times(fr));
            deviation(dc, vo, va, fr, td, R::nil(), quarter) == va
        }),
{
    let two = R::decimal(2, 0);
    let pi = num::circle::<R>();
    let d = two.times(fr);
    let h = R::unit().over(two);
    let q = h.over(d);
    lemma_deviation(dc, vo, va, fr, td, R::nil(), q);
    field::times_nil(q.opposite());
    if d == R::nil() {
        field::times_comm(two, fr);
        field::times_nil(fr);
        field::over_unique(R::nil(), fr, two);
        field::over_unique(R::nil(), fr, R::nil());
    }
    // 2 pi fr (h / (2 fr)) == pi h == pi / 2
    field::times_comm(two, pi);
    field::times_assoc(pi, two, fr);
    field::times_assoc(pi, d, q);
    field::times_comm(d, q);
    field::over_times(h, d);
    field::times_assoc(pi, h, two);
    field::over_times(R::unit(), two);
    field::times_unit(pi);
    field::over_unique(pi, two, pi.times(h));
    assert(phase(fr, q) == pi.over(two));
    field::times_unit(va);
}

/// A sine source in proportion to its amplitude: the deviation from the offset
/// scales with it.
pub proof fn sines_scale<R: Real>(dc: R, vo: R, va: R, k: R, fr: R, td: R, theta: R, u: R)
    requires
        num::is_field::<R>(),
        u.greater_of(R::nil()) == u,
    ensures
        deviation(dc, vo, k.times(va), fr, td, theta, u) == k.times(
            deviation(dc, vo, va, fr, td, theta, u),
        ),
{
    lemma_deviation(dc, vo, va, fr, td, theta, u);
    lemma_deviation(dc, vo, k.times(va), fr, td, theta, u);
    let e = u.opposite().times(theta).exponential();
    let s = phase(fr, u).sine();
    field::times_assoc(k, va, e);
    field::times_assoc(k, va.times(e), s);
}

/// A damped sine source dies away: a whole period later its deviation is that
/// of before times the exponential of minus the period over the time constant.
pub proof fn sines_die_away<R: Real>(dc: R, vo: R, va: R, fr: R, td: R, theta: R, u: R)
    requires
        num::is_field::<R>(),
        opposites_are_exact::<R>(),
        exponentials_multiply::<R>(),
        forall|a: R| #[trigger]
            a.plus(R::decimal(2, 0).times(num::circle::<R>())).sine() == a.sine(),
        fr != R::nil(),
        u.greater_of(R::nil()) == u,
        ({
            let later = u.plus(R::unit().over(fr));
            later.greater_of(R::nil()) == later
        }),
    ensures
        ({
            let period = R::unit().over(fr);
            deviation(dc, vo, va, fr, td, theta, u.plus(period)) == deviation(
                dc,
                vo,
                va,
                fr,
                td,
                theta,
                u,
            ).times(R::nil().minus(period.times(theta)).exponential())
        }),
{
    let period = R::unit().over(fr);
    let later = u.plus(period);
    lemma_deviation(dc, vo, va, fr, td, theta, u);
    lemma_deviation(dc, vo, va, fr, td, theta, later);
    // the phase moves by a full turn
    let turn = R::decimal(2, 0).times(num::circle::<R>());
    let k = turn.times(fr);
    field::distributes(k, u, period);
    field::times_assoc(turn, fr, period);
    field::times_comm(fr, period);
    field::over_times(R::unit(), fr);
    field::times_unit(turn);
    assert(phase(fr, later) == phase(fr, u).plus(turn));
    // the damping multiplies
    let (p, q) = (u.times(theta), period.times(theta));
    field::opposite_times(u, theta);
    field::opposite_times(later, theta);
    field::plus_distributes(u, period, theta);
    field::minus_sum(R::nil(), p, q);
    field::plus_opposite(R::nil().minus(p), q);
    let (e, f) = (R::nil().minus(p).exponential(), R::nil().minus(q).exponential());
    assert(R::nil().minus(p).plus(R::nil().minus(q)).exponential() == e.times(f));
    let s = phase(fr, u).sine();
    field::times_assoc(va, e, f);
    field::times_assoc(va.times(e), f, s);
    field::times_comm(f, s);
    field::times_assoc(va.times(e), s, f);
}

/// A periodic course repeats itself: a period later it has the same value.
pub proof fn courses_repeat<R: Real>(dc: R, pts: Seq<(R, R)>, per: R, t: R)
    requires
        num::is_field::<R>(),
        R::nil().below(per),
        pts[0].0.below(t),
        pts[0].0.below(t.plus(per)),
        forall|a: R| #[trigger] a.plus(per).modulo(per) == a.modulo(per),
    ensures
        ({
            let wave = Some(WaveModel::Pwl { pts, per });
            models::source_value(dc, wave, t.plus(per)) == models::source_value(dc, wave, t)
        }),
{
    field::sum_minus(t, per, pts[0].0);
    assert(t.minus(pts[0].0).plus(per).modulo(per) == t.minus(pts[0].0).modulo(per));
}

/// Within its period a periodic course is the one without a period.
pub proof fn courses_begin_with_their_corners<R: Real>(dc: R, pts: Seq<(R, R)>, per: R, t: R)
    requires
        num::is_field::<R>(),
        R::nil().at_most(R::nil()),
        !R::nil().below(R::nil()),
        t.minus(pts[0].0).modulo(per) == t.minus(pts[0].0),
    ensures
        models::source_value(dc, Some(WaveModel::Pwl { pts, per }), t) == models::source_value(
            dc,
            Some(WaveModel::Pwl { pts, per: R::nil() }),
            t,
        ),
{
    field::plus_comm(pts[0].0, t.minus(pts[0].0));
    field::minus_plus(t, pts[0].0);
}

/// A source without a time course has its value at all times; one with a time
/// course does not depend on that value.
pub proof fn constant_sources_are_constant<R: Real>(
    dc: R,
    other: R,
    wave: Option<WaveModel<R>>,
    t: R,
)
    ensures
        models::source_value(dc, None, t) == dc,
        wave is Some ==> models::source_value(dc, wave, t) == models::source_value(
            other,
            wave,
            t,
        ),
{
}

} // verus!
