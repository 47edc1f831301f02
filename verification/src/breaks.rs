//! The corners of the sources, which a transient analysis must land on.
use vstd::prelude::*;

use crate::circuit::{Circuit, CircuitModel, Dev, DevModel, Wave, WaveModel};
use crate::num;
use crate::num::{is_same, Real};
use crate::sorting;
use crate::sorting::sort;

verus! {

/// Those of the first `i` corners that lie between time 0 and `tstop` when
/// all are put off by `off`.
pub open spec fn corners_at<R: Real>(pts: Seq<(R, R)>, off: R, tstop: R, i: int) -> Seq<R>
    decreases i,
{
    if i <= 0 {
        Seq::empty()
    } else {
        let c = pts[i - 1].0.plus(off);
        let before = corners_at(pts, off, tstop, i - 1);
        if R::nil().below(c) && c.below(tstop) {
            before.push(c)
        } else {
            before
        }
    }
}

/// The corners of a time course before `tstop`, repetition after repetition;
/// nothing if that takes more than `limit` repetitions.
pub open spec fn corners_from<R: Real>(
    pts: Seq<(R, R)>,
    per: R,
    off: R,
    tstop: R,
    limit: nat,
) -> Option<Seq<R>>
    decreases limit,
{
    if !pts[0].0.plus(off).below(tstop) {
        Some(Seq::empty())
    } else if limit == 0 {
        None
    } else {
        let now = corners_at(pts, off, tstop, pts.len() as int);
        if per.at_most(R::nil()) {
            Some(now)
        } else {
            match corners_from(pts, per, off.plus(per), tstop, (limit - 1) as nat) {
                Some(rest) => Some(now + rest),
                None => None,
            }
        }
    }
}

/// The corners of a device before `tstop`.
pub open spec fn device_corners<R: Real>(d: DevModel<R>, tstop: R, limit: nat) -> Option<Seq<R>> {
    let wave = match d {
        DevModel::V { wave, .. } => wave,
        DevModel::I { wave, .. } => wave,
        _ => None,
    };
    match wave {
        Some(WaveModel::Pwl { pts, per }) => corners_from(pts, per, R::nil(), tstop, limit),
        _ => Some(Seq::empty()),
    }
}

/// The corners of the first `i` devices, source by source.
pub open spec fn all_corners<R: Real>(
    devs: Seq<DevModel<R>>,
    tstop: R,
    limit: nat,
    i: int,
) -> Option<Seq<R>>
    decreases i,
{
    if i <= 0 {
        Some(Seq::empty())
    } else {
        match (all_corners(devs, tstop, limit, i - 1), device_corners(devs[i - 1], tstop, limit)) {
            (Some(a), Some(b)) => Some(a + b),
            _ => None,
        }
    }
}

/// One of each run of equal elements.
pub open spec fn distinct<R: Real>(s: Seq<R>) -> Seq<R>
    decreases s.len(),
{
    if s.len() == 0 {
        Seq::empty()
    } else {
        let d = distinct(s.drop_last());
        if d.len() > 0 && num::same(s.last(), d.last()) {
            d
        } else {
            d.push(s.last())
        }
    }
}

/// The times that the steps must land on; nothing if some source repeats more
/// than `limit` times before `tstop`.
pub open spec fn break_times<R: Real>(c: CircuitModel<R>, tstop: R, limit: nat) -> Option<Seq<R>> {
    match all_corners(c.devs, tstop, limit, c.devs.len() as int) {
        Some(s) => Some(distinct(sorting::ordered(s))),
        None => None,
    }
}

fn add_corners<R: Real>(pts: &Vec<(R, R)>, off: R, tstop: R, bp: &mut Vec<R>)
    ensures
        final(bp)@ == old(bp)@ + corners_at(pts@, off, tstop, pts@.len() as int),
{
    let mut i: usize = 0;
    let ghost start = bp@;
    proof {
        assert(start + Seq::<R>::empty() =~= start);
    }
    while i < pts.len()
        invariant
            i <= pts@.len(),
            start == old(bp)@,
            bp@ == start + corners_at(pts@, off, tstop, i as int),
        decreases pts@.len() - i,
    {
        let c = pts[i].0.add(off);
        if R::zero().lt(c) && c.lt(tstop) {
            bp.push(c);
        }
        i = i + 1;
        proof {
            assert(bp@ =~= start + corners_at(pts@, off, tstop, i as int));
        }
    }
}

fn add_repeated<R: Real>(pts: &Vec<(R, R)>, per: R, tstop: R, limit: usize, bp: &mut Vec<R>) -> (r:
    bool)
    requires
        pts@.len() > 0,
    ensures
        match corners_from(pts@, per, R::nil(), tstop, limit as nat) {
            Some(s) => r && final(bp)@ == old(bp)@ + s,
            None => !r,
        },
{
    let ghost all = corners_from(pts@, per, R::nil(), tstop, limit as nat);
    let ghost start = bp@;
    let mut off = R::zero();
    let mut left: usize = limit;
    proof {
        if all is Some {
            assert(start + all->0 =~= bp@ + all->0);
        }
    }
    while pts[0].0.add(off).lt(tstop)
        invariant
            pts@.len() > 0,
            start == old(bp)@,
            all == corners_from(pts@, per, R::nil(), tstop, limit as nat),
            ({
                let now = corners_from(pts@, per, off, tstop, left as nat);
                match all {
                    Some(s) => now is Some && start + s == bp@ + now->0,
                    None => now is None,
                }
            }),
        decreases left,
    {
        if left == 0 {
            return false;
        }
        let ghost before = bp@;
        let ghost now = corners_at(pts@, off, tstop, pts@.len() as int);
        add_corners(pts, off, tstop, bp);
        if per.le(R::zero()) {
            return true;
        }
        off = off.add(per);
        left = left - 1;
        proof {
            let rest = corners_from(pts@, per, off, tstop, left as nat);
            if rest is Some {
                assert(before + (now + rest->0) =~= bp@ + rest->0);
            }
        }
    }
    proof {
        assert(bp@ + Seq::<R>::empty() =~= bp@);
    }
    true
}

fn dedup<R: Real>(s: &Vec<R>) -> (r: Vec<R>)
    ensures
        r@ == distinct(s@),
{
    let mut out: Vec<R> = Vec::new();
    let mut i: usize = 0;
    while i < s.len()
        invariant
            i <= s@.len(),
            out@ == distinct(s@.take(i as int)),
        decreases s@.len() - i,
    {
        proof {
            assert(s@.take(i + 1).drop_last() =~= s@.take(i as int));
        }
        if out.len() == 0 || !is_same(s[i], out[out.len() - 1]) {
            out.push(s[i]);
        }
        i = i + 1;
    }
    proof {
        assert(s@.take(s@.len() as int) =~= s@);
    }
    out
}

/// The times that the steps must land on.
pub fn breakpoints<R: Real>(ckt: &Circuit<R>, tstop: R, limit: usize) -> (r: Option<Vec<R>>)
    requires
        ckt@.wf(),
    ensures
        match r {
            Some(v) => break_times(ckt@, tstop, limit as nat) == Some(v@),
            None => break_times(ckt@, tstop, limit as nat) is None,
        },
{
    let ghost devs = ckt@.devs;
    let ghost n = devs.len() as int;
    let mut bp: Vec<R> = Vec::new();
    let mut i: usize = 0;
    while i < ckt.devs.len()
        invariant
            i <= ckt.devs@.len(),
            ckt@.wf(),
            devs == ckt@.devs,
            n == devs.len(),
            all_corners(devs, tstop, limit as nat, i as int) == Some(bp@),
        decreases ckt.devs@.len() - i,
    {
        proof {
            assert(devs[i as int] == ckt.devs@[i as int]@);
            assert(devs[i as int].placed(ckt@.nodes.len() as int));
        }
        let wave = match &ckt.devs[i] {
            Dev::V { p, n, dc, ac, wave, br } => wave,
            Dev::I { p, n, dc, ac, wave } => wave,
            _ => &None,
        };
        match wave {
            Some(Wave::Pwl { pts, per }) => {
                if !add_repeated(pts, *per, tstop, limit, &mut bp) {
                    proof {
                        lemma_unfinished(devs, tstop, limit as nat, i + 1, n);
                    }
                    return None;
                }
            },
            _ => {
                proof {
                    assert(bp@ + Seq::<R>::empty() =~= bp@);
                }
            },
        }
        i = i + 1;
    }
    Some(dedup(&sort(&bp)))
}

proof fn lemma_unfinished<R: Real>(devs: Seq<DevModel<R>>, tstop: R, limit: nat, i: int, n: int)
    requires
        i <= n,
        all_corners(devs, tstop, limit, i) is None,
    ensures
        all_corners(devs, tstop, limit, n) is None,
    decreases n - i,
{
    if i < n {
        lemma_unfinished(devs, tstop, limit, i + 1, n);
    }
}

/// Each element of a sequence lies between 0 and `tstop`.
pub open spec fn inside<R: Real>(s: Seq<R>, tstop: R) -> bool {
    forall|i: int|
        0 <= i < s.len() ==> R::nil().below(#[trigger] s[i]) && s[i].below(tstop)
}

proof fn lemma_corners_inside<R: Real>(pts: Seq<(R, R)>, off: R, tstop: R, i: int)
    ensures
        inside(corners_at(pts, off, tstop, i), tstop),
    decreases i,
{
    if i > 0 {
        lemma_corners_inside(pts, off, tstop, i - 1);
    }
}

proof fn lemma_repeated_inside<R: Real>(pts: Seq<(R, R)>, per: R, off: R, tstop: R, limit: nat)
    requires
        corners_from(pts, per, off, tstop, limit) is Some,
    ensures
        inside(corners_from(pts, per, off, tstop, limit)->0, tstop),
    decreases limit,
{
    if pts[0].0.plus(off).below(tstop) && limit > 0 {
        lemma_corners_inside(pts, off, tstop, pts.len() as int);
        if !per.at_most(R::nil()) {
            lemma_repeated_inside(pts, per, off.plus(per), tstop, (limit - 1) as nat);
        }
    }
}

proof fn lemma_all_inside<R: Real>(devs: Seq<DevModel<R>>, tstop: R, limit: nat, i: int)
    requires
        all_corners(devs, tstop, limit, i) is Some,
    ensures
        inside(all_corners(devs, tstop, limit, i)->0, tstop),
    decreases i,
{
    if i > 0 {
        lemma_all_inside(devs, tstop, limit, i - 1);
        match devs[i - 1] {
            DevModel::V { wave: Some(WaveModel::Pwl { pts, per }), .. } => {
                lemma_repeated_inside(pts, per, R::nil(), tstop, limit);
            },
            DevModel::I { wave: Some(WaveModel::Pwl { pts, per }), .. } => {
                lemma_repeated_inside(pts, per, R::nil(), tstop, limit);
            },
            _ => {},
        }
    }
}

proof fn lemma_push_elements<R>(s: Seq<R>, v: R, e: R)
    ensures
        s.push(v).contains(e) <==> s.contains(e) || e == v,
{
    let r = s.push(v);
    assert(r[s.len() as int] == v);
    if s.contains(e) {
        let k = choose|k: int| 0 <= k < s.len() && s[k] == e;
        assert(r[k] == e);
    }
    if r.contains(e) {
        let k = choose|k: int| 0 <= k < r.len() && r[k] == e;
        if k < s.len() {
            assert(s[k] == e);
        }
    }
}

proof fn lemma_distinct_elements<R: Real>(s: Seq<R>, e: R)
    ensures
        distinct(s).contains(e) ==> s.contains(e),
    decreases s.len(),
{
    if s.len() > 0 {
        let t = s.drop_last();
        lemma_distinct_elements(t, e);
        lemma_push_elements(distinct(t), s.last(), e);
        lemma_push_elements(t, s.last(), e);
        assert(t.push(s.last()) =~= s);
    }
}

proof fn lemma_distinct_complete<R: Real>(s: Seq<R>, e: R)
    requires
        s.contains(e),
        e.at_most(e),
    ensures
        exists|i: int| 0 <= i < distinct(s).len() && num::same(e, #[trigger] distinct(s)[i]),
    decreases s.len(),
{
    let t = s.drop_last();
    let d = distinct(t);
    let r = distinct(s);
    lemma_push_elements(t, s.last(), e);
    assert(t.push(s.last()) =~= s);
    if t.contains(e) {
        lemma_distinct_complete(t, e);
        let i = choose|i: int| 0 <= i < d.len() && num::same(e, #[trigger] d[i]);
        assert(r[i] == d[i]);
    } else if d.len() > 0 && num::same(e, d.last()) {
        assert(r[d.len() - 1] == d.last());
    } else {
        assert(r[d.len() as int] == e);
    }
}

/// Every break time lies after time 0 and before the end of the analysis, and
/// every corner of a source that does so is a break time.
pub proof fn break_times_are_the_corners<R: Real>(c: CircuitModel<R>, tstop: R, limit: nat)
    requires
        num::is_order::<R>(),
        break_times(c, tstop, limit) is Some,
    ensures
        inside(break_times(c, tstop, limit)->0, tstop),
        forall|e: R| #[trigger]
            all_corners(c.devs, tstop, limit, c.devs.len() as int)->0.contains(e) ==> exists|i: int|
                0 <= i < break_times(c, tstop, limit)->0.len() && num::same(
                    e,
                    #[trigger] break_times(c, tstop, limit)->0[i],
                ),
{
    reveal(num::is_order);
    let all = all_corners(c.devs, tstop, limit, c.devs.len() as int)->0;
    let s = sorting::ordered(all);
    let d = distinct(s);
    lemma_all_inside(c.devs, tstop, limit, c.devs.len() as int);
    assert forall|i: int| 0 <= i < d.len() implies R::nil().below(#[trigger] d[i])
        && d[i].below(tstop) by {
        assert(d.contains(d[i]));
        lemma_distinct_elements(s, d[i]);
        sorting::lemma_ordered_elements(all, d[i]);
        let k = choose|k: int| 0 <= k < all.len() && all[k] == d[i];
        assert(R::nil().below(all[k]));
    }
    assert forall|e: R| #[trigger] all.contains(e) implies exists|i: int|
        0 <= i < d.len() && num::same(e, #[trigger] d[i]) by {
        let k = choose|k: int| 0 <= k < all.len() && all[k] == e;
        assert(all[k].below(tstop));
        sorting::lemma_ordered_elements(all, e);
        lemma_distinct_complete(s, e);
    }
}

proof fn lemma_distinct_rises<R: Real>(s: Seq<R>)
    requires
        num::is_order::<R>(),
        sorting::nondecreasing(s),
    ensures
        forall|i: int, j: int|
            0 <= i < j < distinct(s).len() ==> (#[trigger] distinct(s)[i]).below(
                #[trigger] distinct(s)[j],
            ),
        distinct(s).len() > 0 ==> s.len() > 0 && num::same(distinct(s).last(), s.last()),
    decreases s.len(),
{
    if s.len() > 0 {
        let t = s.drop_last();
        assert forall|i: int, j: int| 0 <= i <= j < t.len() implies (#[trigger] t[i]).at_most(
            #[trigger] t[j],
        ) by {
            assert(s[i].at_most(s[j]));
        }
        lemma_distinct_rises(t);
        let d = distinct(t);
        let r = distinct(s);
        let v = s.last();
        assert(s[s.len() - 1].at_most(s[s.len() - 1]));
        assert forall|i: int, j: int| 0 <= i < j < r.len() implies (#[trigger] r[i]).below(
            #[trigger] r[j],
        ) by {
            if j < d.len() {
                assert(d[i].below(d[j]));
            } else {
                assert(s[s.len() - 2].at_most(s[s.len() - 1]));
                reveal(num::is_order);
                assert(t.last().at_most(v));
                assert(d.last().at_most(t.last()));
                assert(d.last().at_most(v));
                assert(!v.at_most(d.last()));
                if i < d.len() - 1 {
                    assert(d[i].below(d[d.len() - 1]));
                    assert(d[i].at_most(d.last()));
                    assert(d[i].at_most(v));
                    if v.at_most(d[i]) {
                        assert(v.at_most(d.last()));
                    }
                }
            }
        }
    }
}

/// The break times rise strictly.
pub proof fn break_times_rise<R: Real>(c: CircuitModel<R>, tstop: R, limit: nat)
    requires
        num::is_order::<R>(),
        break_times(c, tstop, limit) is Some,
    ensures
        forall|i: int, j: int|
            0 <= i < j < break_times(c, tstop, limit)->0.len() ==> (#[trigger] break_times(
                c,
                tstop,
                limit,
            )->0[i]).below(#[trigger] break_times(c, tstop, limit)->0[j]),
{
    let all = all_corners(c.devs, tstop, limit, c.devs.len() as int)->0;
    lemma_all_inside(c.devs, tstop, limit, c.devs.len() as int);
    assert forall|i: int| 0 <= i < all.len() implies (#[trigger] all[i]).at_most(all[i]) by {
        reveal(num::is_order);
        assert(all[i].below(tstop));
    }
    sorting::sorting_puts_in_order(all);
    lemma_distinct_rises(sorting::ordered(all));
}

/// By how much repetition `n` of a time course is put off.
pub open spec fn repetition<R: Real>(per: R, n: nat) -> R
    decreases n,
{
    if n == 0 {
        R::nil()
    } else {
        repetition(per, (n - 1) as nat).plus(per)
    }
}

/// The corners of a source and its period; no corners for any other device.
pub open spec fn course_of<R: Real>(d: DevModel<R>) -> (Seq<(R, R)>, R) {
    match d {
        DevModel::V { wave: Some(WaveModel::Pwl { pts, per }), .. } => (pts, per),
        DevModel::I { wave: Some(WaveModel::Pwl { pts, per }), .. } => (pts, per),
        _ => (Seq::empty(), R::nil()),
    }
}

/// `e` is corner `j` of a source in its repetition `n`. A course with a period
/// of zero or less is not repeated.
pub open spec fn is_corner<R: Real>(d: DevModel<R>, j: int, n: nat, e: R) -> bool {
    let (pts, per) = course_of(d);
    &&& 0 <= j < pts.len()
    &&& e == pts[j].0.plus(repetition(per, n))
    &&& per.at_most(R::nil()) ==> n == 0
}

proof fn lemma_corner_at<R: Real>(pts: Seq<(R, R)>, off: R, tstop: R, i: int, e: R) -> (j: int)
    requires
        i <= pts.len(),
        corners_at(pts, off, tstop, i).contains(e),
    ensures
        0 <= j < i,
        e == pts[j].0.plus(off),
    decreases i,
{
    let c = pts[i - 1].0.plus(off);
    let before = corners_at(pts, off, tstop, i - 1);
    lemma_push_elements(before, c, e);
    if before.contains(e) {
        lemma_corner_at(pts, off, tstop, i - 1, e)
    } else {
        i - 1
    }
}

proof fn lemma_corner_from<R: Real>(
    pts: Seq<(R, R)>,
    per: R,
    n: nat,
    tstop: R,
    limit: nat,
    e: R,
) -> (r: (int, nat))
    requires
        corners_from(pts, per, repetition(per, n), tstop, limit) is Some,
        corners_from(pts, per, repetition(per, n), tstop, limit)->0.contains(e),
    ensures
        0 <= r.0 < pts.len(),
        e == pts[r.0].0.plus(repetition(per, r.1)),
        per.at_most(R::nil()) ==> r.1 == n,
    decreases limit,
{
    let off = repetition(per, n);
    let now = corners_at(pts, off, tstop, pts.len() as int);
    if now.contains(e) {
        (lemma_corner_at(pts, off, tstop, pts.len() as int, e), n)
    } else {
        assert(repetition(per, (n + 1) as nat) == off.plus(per));
        let all = corners_from(pts, per, off, tstop, limit)->0;
        let rest = corners_from(pts, per, off.plus(per), tstop, (limit - 1) as nat)->0;
        let k = choose|k: int| 0 <= k < all.len() && all[k] == e;
        if per.at_most(R::nil()) {
            assert(now.contains(all[k]));
        } else if k < now.len() {
            assert(now[k] == e);
        } else {
            assert(rest[k - now.len()] == e);
        }
        lemma_corner_from(pts, per, n + 1, tstop, (limit - 1) as nat, e)
    }
}

proof fn lemma_corner_of_some<R: Real>(
    devs: Seq<DevModel<R>>,
    tstop: R,
    limit: nat,
    i: int,
    e: R,
) -> (r: (int, int, nat))
    requires
        0 <= i <= devs.len(),
        all_corners(devs, tstop, limit, i) is Some,
        all_corners(devs, tstop, limit, i)->0.contains(e),
    ensures
        0 <= r.0 < i,
        is_corner(devs[r.0], r.1, r.2, e),
    decreases i,
{
    let before = all_corners(devs, tstop, limit, i - 1)->0;
    let now = device_corners(devs[i - 1], tstop, limit)->0;
    let all = all_corners(devs, tstop, limit, i)->0;
    if before.contains(e) {
        lemma_corner_of_some(devs, tstop, limit, i - 1, e)
    } else {
        let k = choose|k: int| 0 <= k < all.len() && all[k] == e;
        if k < before.len() {
            assert(before[k] == e);
        } else {
            assert(now[k - before.len()] == e);
        }
        assert(now.contains(e));
        let (j, n) = match devs[i - 1] {
            DevModel::V { wave: Some(WaveModel::Pwl { pts, per }), .. } => {
                lemma_corner_from(pts, per, 0, tstop, limit, e)
            },
            DevModel::I { wave: Some(WaveModel::Pwl { pts, per }), .. } => {
                lemma_corner_from(pts, per, 0, tstop, limit, e)
            },
            _ => (0, 0),
        };
        (i - 1, j, n)
    }
}

/// Every break time is a corner of some source, in one of its repetitions.
pub proof fn break_times_come_from_sources<R: Real>(
    c: CircuitModel<R>,
    tstop: R,
    limit: nat,
    i: int,
)
    requires
        break_times(c, tstop, limit) is Some,
        0 <= i < break_times(c, tstop, limit)->0.len(),
    ensures
        exists|d: int, j: int, n: nat|
            0 <= d < c.devs.len() && #[trigger] is_corner(
                c.devs[d],
                j,
                n,
                break_times(c, tstop, limit)->0[i],
            ),
{
    let all = all_corners(c.devs, tstop, limit, c.devs.len() as int)->0;
    let e = break_times(c, tstop, limit)->0[i];
    assert(distinct(sorting::ordered(all)).contains(e));
    lemma_distinct_elements(sorting::ordered(all), e);
    sorting::lemma_ordered_elements(all, e);
    let r = lemma_corner_of_some(c.devs, tstop, limit, c.devs.len() as int, e);
    assert(is_corner(c.devs[r.0], r.1, r.2, e));
}

/// Sums keep the order: of finite times put off by the same delay, of a finite
/// time put off by a longer delay, and of delays themselves. Rounded sums do so
/// as well as exact ones.
#[verifier::opaque]
pub open spec fn sums_keep_order<R: Real>() -> bool {
    &&& R::nil().at_most(R::nil())
    &&& forall|a: R, b: R, c: R|
        a.finite() && b.finite() && a.at_most(b) && R::nil().at_most(c) ==> (#[trigger] a.plus(
            c,
        )).at_most(#[trigger] b.plus(c))
    &&& forall|a: R, c: R, d: R|
        a.finite() && R::nil().at_most(c) && c.at_most(d) ==> (#[trigger] a.plus(c)).at_most(
            #[trigger] a.plus(d),
        )
    &&& forall|c: R, p: R|
        R::nil().at_most(c) && R::nil().at_most(p) ==> c.at_most(#[trigger] c.plus(p))
}

/// The corner times of a course are finite and do not fall.
pub open spec fn corners_rise<R: Real>(pts: Seq<(R, R)>) -> bool {
    &&& forall|i: int| 0 <= i < pts.len() ==> (#[trigger] pts[i]).0.finite()
    &&& forall|i: int, j: int|
        0 <= i <= j < pts.len() ==> (#[trigger] pts[i]).0.at_most((#[trigger] pts[j]).0)
}

proof fn lemma_repetitions_rise<R: Real>(per: R, m: nat, n: nat)
    requires
        num::is_order::<R>(),
        sums_keep_order::<R>(),
        m <= n,
        n > 0 ==> R::nil().at_most(per),
    ensures
        R::nil().at_most(repetition(per, m)),
        repetition(per, m).at_most(repetition(per, n)),
    decreases n,
{
    reveal(sums_keep_order);
    reveal(num::is_order);
    if n > 0 {
        let before = repetition(per, (n - 1) as nat);
        lemma_repetitions_rise(per, 0, (n - 1) as nat);
        assert(before.at_most(before.plus(per)));
        if m < n {
            lemma_repetitions_rise(per, m, (n - 1) as nat);
        }
    }
}

proof fn lemma_corner_found<R: Real>(pts: Seq<(R, R)>, off: R, tstop: R, i: int, j: int)
    requires
        0 <= j < i <= pts.len(),
        R::nil().below(pts[j].0.plus(off)),
        pts[j].0.plus(off).below(tstop),
    ensures
        corners_at(pts, off, tstop, i).contains(pts[j].0.plus(off)),
    decreases i,
{
    let e = pts[j].0.plus(off);
    lemma_push_elements(corners_at(pts, off, tstop, i - 1), pts[i - 1].0.plus(off), e);
    if j < i - 1 {
        lemma_corner_found(pts, off, tstop, i - 1, j);
    }
}

/// Repetition `n` is reached from repetition `m`.
proof fn lemma_repetition_found<R: Real>(
    pts: Seq<(R, R)>,
    per: R,
    m: nat,
    n: nat,
    j: int,
    tstop: R,
    limit: nat,
)
    requires
        num::is_order::<R>(),
        sums_keep_order::<R>(),
        corners_rise(pts),
        0 <= j < pts.len(),
        m <= n,
        n > 0 ==> R::nil().below(per),
        R::nil().below(pts[j].0.plus(repetition(per, n))),
        pts[j].0.plus(repetition(per, n)).below(tstop),
        corners_from(pts, per, repetition(per, m), tstop, limit) is Some,
    ensures
        corners_from(pts, per, repetition(per, m), tstop, limit)->0.contains(
            pts[j].0.plus(repetition(per, n)),
        ),
    decreases limit,
{
    let (a, b) = (repetition(per, m), repetition(per, n));
    let e = pts[j].0.plus(b);
    assert(n > 0 ==> R::nil().at_most(per) && !per.at_most(R::nil())) by {
        reveal(num::is_order);
    }
    lemma_repetitions_rise(per, m, n);
    assert(pts[0].0.plus(a).below(tstop)) by {
        reveal(num::is_order);
        reveal(sums_keep_order);
        assert(pts[0].0.finite() && pts[j].0.finite());
        assert(pts[0].0.at_most(pts[j].0));
        assert(pts[0].0.plus(a).at_most(pts[j].0.plus(a)));
        assert(pts[j].0.plus(a).at_most(e));
        let f = pts[0].0.plus(a);
        assert(f.at_most(e));
        assert(e.below(tstop) <==> e.at_most(tstop) && !tstop.at_most(e));
        assert(f.at_most(tstop));
        assert(f.below(tstop) <==> f.at_most(tstop) && !tstop.at_most(f));
    }
    let now = corners_at(pts, a, tstop, pts.len() as int);
    let all = corners_from(pts, per, a, tstop, limit)->0;
    if m == n {
        lemma_corner_found(pts, a, tstop, pts.len() as int, j);
        let k = choose|k: int| 0 <= k < now.len() && now[k] == e;
        assert(all[k] == e);
    } else {
        assert(repetition(per, m + 1) == a.plus(per));
        lemma_repetition_found(pts, per, m + 1, n, j, tstop, (limit - 1) as nat);
        let rest = corners_from(pts, per, a.plus(per), tstop, (limit - 1) as nat)->0;
        let k = choose|k: int| 0 <= k < rest.len() && rest[k] == e;
        assert(all[now.len() + k] == e);
    }
}

proof fn lemma_device_found<R: Real>(
    devs: Seq<DevModel<R>>,
    tstop: R,
    limit: nat,
    i: int,
    d: int,
    e: R,
)
    requires
        0 <= d < i <= devs.len(),
        all_corners(devs, tstop, limit, i) is Some,
        device_corners(devs[d], tstop, limit)->0.contains(e),
    ensures
        all_corners(devs, tstop, limit, i)->0.contains(e),
    decreases i,
{
    let before = all_corners(devs, tstop, limit, i - 1)->0;
    let now = device_corners(devs[i - 1], tstop, limit)->0;
    let all = all_corners(devs, tstop, limit, i)->0;
    if d == i - 1 {
        let k = choose|k: int| 0 <= k < now.len() && now[k] == e;
        assert(all[before.len() + k] == e);
    } else {
        lemma_device_found(devs, tstop, limit, i - 1, d, e);
        let k = choose|k: int| 0 <= k < before.len() && before[k] == e;
        assert(all[k] == e);
    }
}

proof fn lemma_device_finished<R: Real>(
    devs: Seq<DevModel<R>>,
    tstop: R,
    limit: nat,
    i: int,
    d: int,
)
    requires
        0 <= d < i <= devs.len(),
        all_corners(devs, tstop, limit, i) is Some,
    ensures
        device_corners(devs[d], tstop, limit) is Some,
    decreases i,
{
    if d < i - 1 {
        lemma_device_finished(devs, tstop, limit, i - 1, d);
    }
}

/// Every corner of a source whose corner times do not fall, in each of its
/// repetitions, is a break time if it lies after time 0 and before the end.
pub proof fn corners_are_break_times<R: Real>(
    c: CircuitModel<R>,
    tstop: R,
    limit: nat,
    d: int,
    j: int,
    n: nat,
    e: R,
)
    requires
        num::is_order::<R>(),
        sums_keep_order::<R>(),
        break_times(c, tstop, limit) is Some,
        0 <= d < c.devs.len(),
        corners_rise(course_of(c.devs[d]).0),
        is_corner(c.devs[d], j, n, e),
        n > 0 ==> R::nil().below(course_of(c.devs[d]).1),
        R::nil().below(e),
        e.below(tstop),
    ensures
        exists|i: int|
            0 <= i < break_times(c, tstop, limit)->0.len() && num::same(
                e,
                #[trigger] break_times(c, tstop, limit)->0[i],
            ),
{
    let (pts, per) = course_of(c.devs[d]);
    let len = c.devs.len() as int;
    lemma_device_finished(c.devs, tstop, limit, len, d);
    lemma_repetition_found(pts, per, 0, n, j, tstop, limit);
    lemma_device_found(c.devs, tstop, limit, len, d, e);
    break_times_are_the_corners(c, tstop, limit);
}

} // verus!
