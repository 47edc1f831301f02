//! The times that a transient analysis shows.
//!
//! Between zero and the end of an analysis the laws ask for sums and
//! differences of times that fit the order, as [`keeps_time`] says. Nothing is
//! asked of times beyond the end, so that a bounded arithmetic can keep time.
use vstd::prelude::*;

use crate::breaks;
use crate::circuit::CircuitModel;
use crate::num;
use crate::num::Real;
use crate::output;
use crate::transient;
use crate::transient::TranModel;
use crate::transient_laws;

verus! {

/// The smallest step of an analysis up to `tstop`.
pub open spec fn shortest<R: Real>(tstop: R) -> R {
    tstop.times(R::decimal(1, -12))
}

/// `t` lies between zero and the end.
pub open spec fn on_clock<R: Real>(t: R, tstop: R) -> bool {
    R::nil().at_most(t) && t.at_most(tstop)
}

/// `h` is a step that fits between zero and the end.
pub open spec fn is_step<R: Real>(h: R, tstop: R) -> bool {
    R::nil().below(h) && h.at_most(tstop)
}

/// What is asked of times and the smallest step.
pub open spec fn times_add_up<R: Real>(tstop: R) -> bool {
    let m = shortest(tstop);
    &&& forall|t: R| on_clock(t, tstop) ==> (#[trigger] t.minus(m)).at_most(t)
    &&& forall|t: R| on_clock(t, tstop) ==> t.at_most(#[trigger] t.plus(m))
    &&& forall|t: R| on_clock(t, tstop) ==> (#[trigger] tstop.minus(t)).at_most(tstop)
    &&& forall|b: R, u: R|
        on_clock(b, tstop) && on_clock(u, tstop) ==> (#[trigger] b.minus(m).at_most(u)
            <==> b.at_most(u.plus(m)))
    &&& forall|t: R, h: R|
        on_clock(t, tstop) && R::nil().below(h) && h.at_most(tstop.minus(t)) ==> t.below(
            #[trigger] t.plus(h),
        ) && t.plus(h).at_most(tstop)
    &&& forall|t: R, u: R|
        on_clock(t, tstop) && t.below(u) && u.at_most(tstop) ==> {
            &&& R::nil().below(#[trigger] u.minus(t))
            &&& u.minus(t).at_most(tstop.minus(t))
            &&& t.plus(u.minus(t)) == u
        }
    &&& forall|t: R, u: R, h: R|
        on_clock(t, tstop) && on_clock(u, tstop) && t.at_most(u) && is_step(h, tstop)
            ==> (#[trigger] t.plus(h)).plus(m).at_most((#[trigger] u.plus(h)).plus(m))
}

/// What is asked of the lengths of steps: scaling keeps them positive, and a
/// step that is repeated does not grow.
pub open spec fn steps_scale<R: Real>(tstep: R, tstop: R) -> bool {
    &&& R::nil().below(tstep.over(R::decimal(100, 0)))
    &&& tstep.over(R::decimal(100, 0)).at_most(tstep)
    &&& forall|h: R|
        #![trigger is_step(h, tstop)]
        is_step(h, tstop) ==> {
            &&& R::nil().below(R::decimal(2, 0).times(h))
            &&& R::nil().below(h.over(R::decimal(8, 0)))
            &&& h.over(R::decimal(8, 0)).at_most(h)
        }
    &&& forall|h: R, r: R|
        is_step(h, tstop) ==> R::nil().below(
            h.times(
                num::clamped(
                    #[trigger] transient::step_scale(r),
                    R::decimal(3, -1),
                    R::decimal(2, 0),
                ),
            ),
        ) && #[trigger] is_step(h, tstop)
    &&& forall|h: R, r: R|
        is_step(h, tstop) && R::unit().below(r) ==> {
            let k = num::clamped(
                #[trigger] transient::step_scale(r),
                R::decimal(125, -3),
                R::decimal(9, -1),
            );
            &&& R::nil().below(h.times(k))
            &&& h.times(k).at_most(h)
            &&& #[trigger] is_step(h, tstop)
        }
}

/// The smaller of two numbers is one of them and at most either.
pub open spec fn takes_the_lesser<R: Real>() -> bool {
    forall|a: R, b: R|
        #![trigger a.lesser_of(b)]
        a.at_most(a) && b.at_most(b) ==> {
            &&& a.lesser_of(b) == a || a.lesser_of(b) == b
            &&& a.lesser_of(b).at_most(a)
            &&& a.lesser_of(b).at_most(b)
        }
}

/// Arithmetic fits the order between zero and the end of an analysis.
#[verifier::opaque]
pub open spec fn keeps_time<R: Real>(tstep: R, tstop: R) -> bool {
    &&& num::is_order::<R>()
    &&& times_add_up(tstop)
    &&& steps_scale(tstep, tstop)
    &&& takes_the_lesser::<R>()
}

/// The times shown by up to `limit` attempts from a state, its own first.
pub open spec fn times<R: Real>(c: CircuitModel<R>, s: TranModel<R>, limit: nat) -> Seq<R>
    decreases limit,
{
    if !s.pending() || limit == 0 {
        seq![s.t]
    } else {
        match transient::stepped(c, s) {
            Err(_) => seq![s.t],
            Ok((n, None)) => times(c, n, (limit - 1) as nat),
            Ok((n, Some(_))) => seq![s.t] + times(c, n, (limit - 1) as nat),
        }
    }
}

/// The end of a step from `t` is at most `tstep` and the smallest step away.
pub open spec fn in_reach<R: Real>(t: R, u: R, tstep: R, tstop: R) -> bool {
    exists|h: R|
        #![trigger t.plus(h)]
        h.at_most(tstep) && u.at_most(t.plus(h).plus(shortest(tstop)))
}

/// The break time `b` is shown by the time `t`.
pub open spec fn shown_at<R: Real>(t: R, b: R, tstop: R) -> bool {
    t.at_most(b) && b.at_most(t.plus(shortest(tstop)))
}

/// The next break time is within a step and the smallest step.
spec fn near_break<R: Real>(s: TranModel<R>, h: R) -> bool {
    let m = shortest(s.tstop);
    &&& is_step(h, s.tstop)
    &&& h.at_most(s.tstep)
    &&& 0 <= s.bpi < s.bp.len()
    &&& !s.bp[s.bpi].at_most(s.t.plus(m))
    &&& s.bp[s.bpi].at_most(s.t.plus(h).plus(m))
}

/// What every state of an analysis keeps.
spec fn on_course<R: Real>(s: TranModel<R>) -> bool {
    &&& on_clock(s.t, s.tstop)
    &&& R::nil().below(s.h)
    &&& s.h.at_most(s.tstep) || exists|h: R| near_break(s, h)
    &&& 0 <= s.bpi <= s.bp.len()
    &&& breaks::inside(s.bp, s.tstop)
    &&& forall|i: int, j: int|
        0 <= i < j < s.bp.len() ==> (#[trigger] s.bp[i]).below(#[trigger] s.bp[j])
    &&& forall|k: int| s.bpi <= k < s.bp.len() ==> s.t.at_most(#[trigger] s.bp[k])
}

proof fn lemma_order<R: Real>(a: R, b: R, c: R)
    requires
        num::is_order::<R>(),
    ensures
        a.below(b) <==> a.at_most(b) && !b.at_most(a),
        a.at_most(b) && b.at_most(c) ==> a.at_most(c),
        a.at_most(b) && b.below(c) ==> a.below(c),
        a.below(b) && b.at_most(c) ==> a.below(c),
        a.at_most(b) ==> a.at_most(a) && b.at_most(b),
        a.at_most(a) && b.at_most(b) && !a.at_most(b) ==> b.below(a),
{
    reveal(num::is_order);
    assert(a.below(b) <==> a.at_most(b) && !b.at_most(a));
    assert(b.below(c) <==> b.at_most(c) && !c.at_most(b));
    assert(a.below(c) <==> a.at_most(c) && !c.at_most(a));
    assert(b.below(a) <==> b.at_most(a) && !a.at_most(b));
}

/// What is known of the step tried from a state on course.
spec fn good_trial<R: Real>(s: TranModel<R>) -> bool {
    let p = transient::trial(s);
    let m = shortest(s.tstop);
    &&& s.bpi <= p.bpi <= s.bp.len()
    &&& forall|k: int| s.bpi <= k < p.bpi ==> shown_at(s.t, #[trigger] s.bp[k], s.tstop)
    &&& is_step(p.hs, s.tstop)
    &&& s.t.below(s.t.plus(p.hs))
    &&& s.t.plus(p.hs).at_most(s.tstop)
    &&& in_reach(s.t, s.t.plus(p.hs), s.tstep, s.tstop)
    &&& p.on_bp ==> p.bpi < s.bp.len() && s.t.plus(p.hs) == s.bp[p.bpi]
    &&& p.on_bp ==> exists|h: R| near_break(TranModel { bpi: p.bpi, ..s }, h)
    &&& !p.on_bp && p.bpi < s.bp.len() ==> {
        &&& s.t.plus(p.hs).at_most(s.bp[p.bpi])
        &&& !s.bp[p.bpi].at_most(s.t.plus(p.hs).plus(m))
    }
    &&& !p.on_bp && !(exists|h: R| near_break(TranModel { bpi: p.bpi, ..s }, h))
        ==> p.hs.at_most(s.tstep)
}

/// The step before the next break time is taken into account.
proof fn lemma_cut_step<R: Real>(s: TranModel<R>) -> (h: R)
    requires
        keeps_time(s.tstep, s.tstop),
        on_course(s),
        s.pending(),
    ensures
        h == s.h.lesser_of(s.tstop.minus(s.t)),
        is_step(h, s.tstop),
        h.at_most(s.tstop.minus(s.t)),
        h.at_most(s.h),
        s.t.below(s.t.plus(h)),
        s.t.plus(h).at_most(s.tstop),
        s.t.below(s.tstop),
        on_clock(s.tstop, s.tstop),
{
    reveal(keeps_time);
    let m = shortest(s.tstop);
    let rest = s.tstop.minus(s.t);
    lemma_order(R::nil(), s.t, s.tstop);
    lemma_order(s.t, s.tstop, s.tstop);
    assert(on_clock(s.tstop, s.tstop));
    assert(s.tstop.minus(m).at_most(s.tstop));
    lemma_order(s.t, s.tstop.minus(m), s.tstop);
    assert(R::nil().below(rest));
    lemma_order(R::nil(), s.h, s.h);
    lemma_order(R::nil(), rest, rest);
    let h = s.h.lesser_of(rest);
    assert(rest.at_most(s.tstop));
    lemma_order(h, rest, s.tstop);
    h
}

proof fn lemma_trial<R: Real>(s: TranModel<R>)
    requires
        keeps_time(s.tstep, s.tstop),
        on_course(s),
        s.pending(),
    ensures
        good_trial(s),
{
    let p = transient::trial(s);
    let m = shortest(s.tstop);
    let h = lemma_cut_step(s);
    let u = s.t.plus(h);
    transient_laws::lemma_next_break(s.bp, s.bpi, s.t.plus(m));
    assert forall|k: int| s.bpi <= k < p.bpi implies shown_at(
        s.t,
        #[trigger] s.bp[k],
        s.tstop,
    ) by {}
    reveal(keeps_time);
    lemma_order(R::nil(), s.t, u);
    lemma_order(R::nil(), u, u);
    lemma_order(s.t, u, u);
    assert(on_clock(u, s.tstop));
    assert(u.at_most(u.plus(m)));
    let q = TranModel { bpi: p.bpi, ..s };
    if p.bpi < s.bp.len() {
        let b = s.bp[p.bpi];
        lemma_order(R::nil(), b, s.tstop);
        lemma_order(b, s.tstop, s.tstop);
        assert(on_clock(b, s.tstop));
        assert(s.t.at_most(s.t.plus(m)));
        lemma_order(s.t, s.t.plus(m), b);
        lemma_order(b, s.t.plus(m), b);
        lemma_order(s.t.plus(m), b, b);
        assert(s.t.below(b));
        if p.on_bp {
            assert(b.at_most(u.plus(m)));
            let hs = b.minus(s.t);
            assert(R::nil().below(hs) && s.t.plus(hs) == b);
            assert(s.tstop.minus(s.t).at_most(s.tstop));
            lemma_order(hs, s.tstop.minus(s.t), s.tstop);
            if s.h.at_most(s.tstep) {
                lemma_order(h, s.h, s.tstep);
                assert(near_break(q, h));
                assert(in_reach(s.t, b, s.tstep, s.tstop));
            } else {
                let g = choose|g: R| near_break(s, g);
                assert(near_break(q, g));
                assert(b.at_most(s.t.plus(g).plus(m)));
            }
        } else {
            assert(!b.minus(m).at_most(u));
            assert(!b.at_most(u.plus(m)));
            lemma_order(b, u, u.plus(m));
            lemma_order(u, b, b);
            lemma_order(b, u, u);
            if s.h.at_most(s.tstep) {
                lemma_order(h, s.h, s.tstep);
                assert(u.at_most(s.t.plus(h).plus(m)));
            } else {
                let g = choose|g: R| near_break(s, g);
                assert(near_break(q, g));
                lemma_order(u, b, s.t.plus(g).plus(m));
                assert(u.at_most(s.t.plus(g).plus(m)));
            }
        }
    } else {
        assert(s.h.at_most(s.tstep)) by {
            if !s.h.at_most(s.tstep) {
                let g = choose|g: R| near_break(s, g);
                assert(near_break(s, g));
            }
        }
        lemma_order(h, s.h, s.tstep);
        assert(u.at_most(s.t.plus(h).plus(m)));
    }
}

/// A refused attempt stays on course.
proof fn lemma_refused<R: Real>(s: TranModel<R>, n: TranModel<R>)
    requires
        keeps_time(s.tstep, s.tstop),
        on_course(s),
        good_trial(s),
        n == (TranModel { h: n.h, lim: n.lim, bpi: transient::trial(s).bpi, ..s }),
        R::nil().below(n.h),
        n.h.at_most(transient::trial(s).hs),
    ensures
        on_course(n),
{
    reveal(keeps_time);
    let p = transient::trial(s);
    let q = TranModel { bpi: p.bpi, ..s };
    if exists|h: R| near_break(q, h) {
        let h = choose|h: R| near_break(q, h);
        assert(near_break(n, h));
    } else {
        lemma_order(n.h, p.hs, s.tstep);
    }
}

/// An accepted step stays on course.
proof fn lemma_accepted<R: Real>(s: TranModel<R>, n: TranModel<R>)
    requires
        keeps_time(s.tstep, s.tstop),
        on_course(s),
        good_trial(s),
        n.tstep == s.tstep,
        n.tstop == s.tstop,
        n.bp == s.bp,
        n.bpi == transient::trial(s).bpi,
        n.t == s.t.plus(transient::trial(s).hs),
        R::nil().below(n.h),
        n.h.at_most(s.tstep) || !transient::trial(s).on_bp && n.h == transient::trial(s).hs,
    ensures
        on_course(n),
{
    reveal(keeps_time);
    let p = transient::trial(s);
    let m = shortest(s.tstop);
    lemma_order(R::nil(), s.t, n.t);
    lemma_order(R::nil(), n.t, n.t);
    assert forall|k: int| n.bpi <= k < n.bp.len() implies n.t.at_most(#[trigger] n.bp[k]) by {
        if k > p.bpi {
            lemma_order(n.t, s.bp[p.bpi], s.bp[k]);
        } else {
            lemma_order(R::nil(), s.bp[k], s.bp[k]);
        }
        assert(s.bp[p.bpi].below(s.tstop));
        lemma_order(s.bp[p.bpi], s.tstop, s.tstop);
        lemma_order(s.bp[p.bpi], s.bp[k], s.bp[k]);
    }
    let q = TranModel { bpi: p.bpi, ..s };
    if !n.h.at_most(s.tstep) {
        assert(exists|h: R| near_break(q, h));
        let h = choose|h: R| near_break(q, h);
        lemma_order(s.t, n.t, n.t);
        assert(s.t.plus(h).plus(m).at_most(n.t.plus(h).plus(m)));
        lemma_order(s.bp[p.bpi], s.t.plus(h).plus(m), n.t.plus(h).plus(m));
        assert(near_break(n, h));
    }
}

/// The lengths of the steps that follow an attempt.
proof fn lemma_lengths<R: Real>(c: CircuitModel<R>, s: TranModel<R>)
    requires
        keeps_time(s.tstep, s.tstop),
        is_step(transient::trial(s).hs, s.tstop),
    ensures
        ({
            let p = transient::trial(s);
            match transient::stepped(c, s) {
                Err(_) => true,
                Ok((n, None)) => n.h == p.hs.over(R::decimal(8, 0)) || exists|r: R|
                    R::unit().below(r) && n.h == p.hs.times(
                        num::clamped(
                            #[trigger] transient::step_scale(r),
                            R::decimal(125, -3),
                            R::decimal(9, -1),
                        ),
                    ),
                Ok((n, Some(_))) => if p.on_bp {
                    n.h == s.small_step()
                } else {
                    n.h == p.hs || exists|k: R|
                        R::nil().below(k) && n.h == #[trigger] k.lesser_of(s.tstep)
                },
            }
        }),
{
    reveal(keeps_time);
}

proof fn lemma_attempt<R: Real>(c: CircuitModel<R>, s: TranModel<R>)
    requires
        keeps_time(s.tstep, s.tstop),
        on_course(s),
        s.pending(),
    ensures
        match transient::stepped(c, s) {
            Ok((n, line)) => {
                &&& on_course(n)
                &&& n.bp == s.bp
                &&& n.tstep == s.tstep
                &&& n.tstop == s.tstop
                &&& s.bpi <= n.bpi
                &&& forall|k: int|
                    s.bpi <= k < n.bpi ==> shown_at(s.t, #[trigger] s.bp[k], s.tstop)
                &&& line is None ==> n.t == s.t
                &&& line is Some ==> s.t.below(n.t) && n.t.at_most(s.tstop) && in_reach(
                    s.t,
                    n.t,
                    s.tstep,
                    s.tstop,
                )
            },
            Err(_) => true,
        },
{
    lemma_trial(s);
    lemma_lengths(c, s);
    reveal(keeps_time);
    let hs = transient::trial(s).hs;
    assert(is_step(hs, s.tstop));
    match transient::stepped(c, s) {
        Err(_) => {},
        Ok((n, None)) => {
            if n.h != hs.over(R::decimal(8, 0)) {
                let r = choose|r: R|
                    R::unit().below(r) && n.h == hs.times(
                        num::clamped(
                            #[trigger] transient::step_scale(r),
                            R::decimal(125, -3),
                            R::decimal(9, -1),
                        ),
                    );
                assert(R::nil().below(n.h) && n.h.at_most(hs));
            }
            lemma_refused(s, n);
        },
        Ok((n, Some(_))) => {
            let small = s.tstep.over(R::decimal(100, 0));
            lemma_order(small, s.tstep, s.tstep);
            lemma_order(R::nil(), small, s.tstep);
            lemma_order(R::nil(), s.tstep, s.tstep);
            if !transient::trial(s).on_bp && n.h != hs {
                let k = choose|k: R| R::nil().below(k) && n.h == #[trigger] k.lesser_of(s.tstep);
                lemma_order(R::nil(), k, k);
            }
            lemma_accepted(s, n);
        },
    }
}

/// What the times of a run from a state on course keep.
spec fn good_times<R: Real>(c: CircuitModel<R>, s: TranModel<R>, limit: nat) -> bool {
    let ts = times(c, s, limit);
    &&& ts.len() > 0
    &&& ts[0] == s.t
    &&& forall|k: int|
        0 < k < ts.len() ==> ts[k - 1].below(#[trigger] ts[k]) && ts[k].at_most(s.tstop)
            && in_reach(ts[k - 1], ts[k], s.tstep, s.tstop)
    &&& transient::advanced(c, s, limit).end is Done ==> {
        &&& s.tstop.at_most(ts.last().plus(shortest(s.tstop)))
        &&& forall|i: int|
            s.bpi <= i < s.bp.len() ==> exists|k: int|
                0 <= k < ts.len() && shown_at(#[trigger] ts[k], #[trigger] s.bp[i], s.tstop)
    }
}

proof fn lemma_run<R: Real>(c: CircuitModel<R>, s: TranModel<R>, limit: nat)
    requires
        keeps_time(s.tstep, s.tstop),
        on_course(s),
    ensures
        good_times(c, s, limit),
    decreases limit,
{
    let ts = times(c, s, limit);
    let m = shortest(s.tstop);
    if !s.pending() {
        reveal(keeps_time);
        let end = s.tstop.minus(m);
        lemma_order(R::nil(), s.t, s.tstop);
        lemma_order(s.t, s.tstop, s.tstop);
        assert(on_clock(s.tstop, s.tstop));
        assert(end.at_most(s.tstop));
        lemma_order(end, s.tstop, s.tstop);
        lemma_order(end, s.t, s.t);
        lemma_order(s.t, end, end);
        assert(s.tstop.at_most(s.t.plus(m)));
        assert forall|i: int| s.bpi <= i < s.bp.len() implies exists|k: int|
            0 <= k < ts.len() && shown_at(#[trigger] ts[k], #[trigger] s.bp[i], s.tstop) by {
            lemma_order(s.bp[i], s.tstop, s.t.plus(m));
            assert(shown_at(ts[0], s.bp[i], s.tstop));
        }
    } else if limit > 0 {
        lemma_attempt(c, s);
        match transient::stepped(c, s) {
            Err(_) => {},
            Ok((n, line)) => {
                lemma_run(c, n, (limit - 1) as nat);
                let rest = times(c, n, (limit - 1) as nat);
                let off: int = if line is Some {
                    1
                } else {
                    0
                };
                assert forall|k: int| 0 <= k < rest.len() implies ts[k + off]
                    == #[trigger] rest[k] by {}
                assert(ts.last() == rest.last());
                assert forall|k: int| 0 < k < ts.len() implies ts[k - 1].below(
                    #[trigger] ts[k],
                ) && ts[k].at_most(s.tstop) && in_reach(
                    ts[k - 1],
                    ts[k],
                    s.tstep,
                    s.tstop,
                ) by {
                    assert(ts[k] == rest[k - off]);
                    if k - off > 0 {
                        assert(ts[k - 1] == rest[k - 1 - off]);
                    }
                }
                if transient::advanced(c, s, limit).end is Done {
                    assert forall|i: int| s.bpi <= i < s.bp.len() implies exists|k: int|
                        0 <= k < ts.len() && shown_at(
                            #[trigger] ts[k],
                            #[trigger] s.bp[i],
                            s.tstop,
                        ) by {
                        if i < n.bpi {
                            assert(shown_at(ts[0], s.bp[i], s.tstop));
                        } else {
                            let k = choose|k: int|
                                0 <= k < rest.len() && shown_at(
                                    #[trigger] rest[k],
                                    n.bp[i],
                                    s.tstop,
                                );
                            assert(shown_at(ts[k + off], s.bp[i], s.tstop));
                        }
                    }
                }
            },
        }
    }
}

proof fn lemma_start<R: Real>(
    c: CircuitModel<R>,
    tstep: R,
    tstop: R,
    uic: bool,
    limit: nat,
)
    requires
        keeps_time(tstep, tstop),
        R::nil().below(tstop),
        transient::tran_opening(c, tstep, tstop, uic, limit).1 is Some,
    ensures
        on_course(transient::tran_opening(c, tstep, tstop, uic, limit).1->0),
{
    reveal(keeps_time);
    let s = transient::tran_opening(c, tstep, tstop, uic, limit).1->0;
    lemma_order(R::nil(), tstop, tstop);
    breaks::break_times_rise(c, tstop, limit);
    breaks::break_times_are_the_corners(c, tstop, limit);
    assert forall|k: int| 0 <= k < s.bp.len() implies s.t.at_most(#[trigger] s.bp[k]) by {
        lemma_order(R::nil(), s.bp[k], tstop);
    }
}

/// The rows of a transient analysis show its times, one after the other.
pub proof fn rows_show_the_times<R: Real>(
    c: CircuitModel<R>,
    tstep: R,
    tstop: R,
    uic: bool,
    limit: nat,
    k: int,
)
    requires
        transient::tran_opening(c, tstep, tstop, uic, limit).1 is Some,
        0 <= k < times(
            c,
            transient::tran_opening(c, tstep, tstop, uic, limit).1->0,
            limit,
        ).len(),
    ensures
        ({
            let s = transient::tran_opening(c, tstep, tstop, uic, limit).1->0;
            let lines = transient::tran_report(c, tstep, tstop, uic, limit).lines;
            &&& times(c, s, limit)[0] == R::nil()
            &&& 2 + times(c, s, limit).len() <= lines.len()
            &&& exists|x: Seq<R>|
                lines[2 + k] == #[trigger] output::point_row(times(c, s, limit)[k], x, s.idx)
        }),
{
    let s = transient::tran_opening(c, tstep, tstop, uic, limit).1->0;
    let lines = transient::tran_report(c, tstep, tstop, uic, limit).lines;
    let rows = transient::advanced(c, s, limit).rows;
    lemma_row_count(c, s, limit);
    if k == 0 {
        assert(lines[2] == output::point_row(R::nil(), s.x, s.idx));
    } else {
        assert(lines[2 + k] == rows[k - 1]);
        let x = lemma_row(c, s, limit, k);
        assert(lines[2 + k] == output::point_row(times(c, s, limit)[k], x, s.idx));
    }
}

proof fn lemma_row_count<R: Real>(c: CircuitModel<R>, s: TranModel<R>, limit: nat)
    ensures
        times(c, s, limit).len() == transient::advanced(c, s, limit).rows.len() + 1,
        times(c, s, limit)[0] == s.t,
    decreases limit,
{
    if s.pending() && limit > 0 {
        match transient::stepped(c, s) {
            Err(_) => {},
            Ok((n, _)) => lemma_row_count(c, n, (limit - 1) as nat),
        }
    }
}

proof fn lemma_row<R: Real>(c: CircuitModel<R>, s: TranModel<R>, limit: nat, k: int) -> (x: Seq<R>)
    requires
        0 < k < times(c, s, limit).len(),
    ensures
        transient::advanced(c, s, limit).rows[k - 1] == output::point_row(
            times(c, s, limit)[k],
            x,
            s.idx,
        ),
    decreases limit,
{
    let (n, line) = transient::stepped(c, s)->Ok_0;
    let rest = (limit - 1) as nat;
    lemma_row_count(c, n, rest);
    if line is None {
        lemma_row(c, n, rest, k)
    } else if k == 1 {
        assert(times(c, s, limit)[1] == times(c, n, rest)[0]);
        n.x
    } else {
        assert(times(c, s, limit)[k] == times(c, n, rest)[k - 1]);
        assert(transient::advanced(c, s, limit).rows[k - 1] == transient::advanced(
            c,
            n,
            rest,
        ).rows[k - 2]);
        lemma_row(c, n, rest, k - 1)
    }
}

/// The times of a transient analysis start at zero and rise strictly up to the
/// end at most, each at most the time step asked for and the smallest step
/// after the one before. A finished analysis has come to within the smallest
/// step of its end.
pub proof fn times_rise_to_the_end<R: Real>(
    c: CircuitModel<R>,
    tstep: R,
    tstop: R,
    uic: bool,
    limit: nat,
)
    requires
        keeps_time(tstep, tstop),
        R::nil().below(tstop),
        transient::tran_opening(c, tstep, tstop, uic, limit).1 is Some,
    ensures
        ({
            let s = transient::tran_opening(c, tstep, tstop, uic, limit).1->0;
            let ts = times(c, s, limit);
            &&& ts.len() > 0
            &&& ts[0] == R::nil()
            &&& forall|k: int|
                0 < k < ts.len() ==> ts[k - 1].below(#[trigger] ts[k]) && ts[k].at_most(tstop)
                    && in_reach(ts[k - 1], ts[k], tstep, tstop)
            &&& transient::advanced(c, s, limit).end is Done ==> tstop.at_most(
                ts.last().plus(shortest(tstop)),
            )
        }),
{
    lemma_start(c, tstep, tstop, uic, limit);
    lemma_run(c, transient::tran_opening(c, tstep, tstop, uic, limit).1->0, limit);
}

/// A finished transient analysis shows every break time: for each there is a
/// row whose time is at most the smallest step before it and not after it.
pub proof fn break_times_are_shown<R: Real>(
    c: CircuitModel<R>,
    tstep: R,
    tstop: R,
    uic: bool,
    limit: nat,
    i: int,
)
    requires
        keeps_time(tstep, tstop),
        R::nil().below(tstop),
        transient::tran_opening(c, tstep, tstop, uic, limit).1 is Some,
        transient::advanced(
            c,
            transient::tran_opening(c, tstep, tstop, uic, limit).1->0,
            limit,
        ).end is Done,
        0 <= i < breaks::break_times(c, tstop, limit)->0.len(),
    ensures
        ({
            let s = transient::tran_opening(c, tstep, tstop, uic, limit).1->0;
            let ts = times(c, s, limit);
            exists|k: int|
                0 <= k < ts.len() && shown_at(
                    #[trigger] ts[k],
                    breaks::break_times(c, tstop, limit)->0[i],
                    tstop,
                )
        }),
{
    let s = transient::tran_opening(c, tstep, tstop, uic, limit).1->0;
    lemma_start(c, tstep, tstop, uic, limit);
    lemma_run(c, s, limit);
    let ts = times(c, s, limit);
    let k = choose|k: int| 0 <= k < ts.len() && shown_at(#[trigger] ts[k], s.bp[i], tstop);
    assert(shown_at(ts[k], breaks::break_times(c, tstop, limit)->0[i], tstop));
}

} // verus!
