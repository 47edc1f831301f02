//! Operating points: Newton iteration with continuation.
use vstd::prelude::*;

use crate::assembly;
use crate::assembly::{assemble, Mode, ModeModel};
use crate::circuit;
use crate::circuit::{unk_name, Circuit, CircuitModel, Dev, DevModel};
use crate::equations;
use crate::fault::{SimError, SimFault};
use crate::models;
use crate::models::{ceval, gmin, vntol};
use crate::num::Real;
use crate::sparse::solve;

verus! {

/// The iterations that an operating point may take.
pub const ITL_OP: usize = 100;

/// The iterations that a time step may take.
pub const ITL_TRAN: usize = 10;

/// The difference between `a` and `b` that unknown `i` of a circuit with `nn`
/// nodes may be off by.
pub open spec fn tolerance<R: Real>(i: int, nn: int, a: R, b: R) -> R {
    let floor = if i < nn {
        models::voltage_grain::<R>()
    } else {
        R::decimal(1, -12)
    };
    floor.plus(R::decimal(1, -3).times(a.size().greater_of(b.size())))
}

pub fn tolv<R: Real>(i: usize, nn: usize, a: R, b: R) -> (r: R)
    ensures
        r == tolerance(i as int, nn as int, a, b),
{
    let floor = if i < nn {
        vntol::<R>()
    } else {
        R::lit(1, -12)
    };
    floor.add(R::lit(1, -3).mul(a.abs().max(b.abs())))
}

/// No unknown moved by more than its tolerance.
pub open spec fn settled<R: Real>(nn: int, xn: Seq<R>, x: Seq<R>) -> bool {
    forall|i: int|
        1 <= i < xn.len() ==> (#[trigger] xn[i]).minus(x[i]).size().at_most(
            tolerance(i, nn, xn[i], x[i]),
        )
}

fn is_settled<R: Real>(nn: usize, xn: &Vec<R>, x: &Vec<R>) -> (r: bool)
    requires
        xn@.len() == x@.len(),
    ensures
        r == settled(nn as int, xn@, x@),
{
    let mut i: usize = 1;
    while i < xn.len()
        invariant
            1 <= i,
            xn@.len() == x@.len(),
            forall|k: int|
                1 <= k < i && k < xn@.len() ==> (#[trigger] xn@[k]).minus(x@[k]).size().at_most(
                    tolerance(k, nn as int, xn@[k], x@[k]),
                ),
        decreases xn@.len() - i,
    {
        if !xn[i].sub(x[i]).abs().le(tolv(i, nn, xn[i], x[i])) {
            proof {
                assert(!xn@[i as int].minus(x@[i as int]).size().at_most(
                    tolerance(i as int, nn as int, xn@[i as int], x@[i as int]),
                ));
            }
            return false;
        }
        i = i + 1;
    }
    true
}

/// Where an iteration ended: the unknowns, the junction voltages, and the
/// number of iterations if it converged.
pub struct Iterated<R> {
    pub x: Seq<R>,
    pub lim: Seq<(R, R)>,
    pub done: Option<usize>,
}

/// The iteration from its step `it` on. A step counts as converged only when
/// nothing moved any more, no junction was held back, and it is not the first.
pub open spec fn iterated<R: Real>(
    c: CircuitModel<R>,
    x: Seq<R>,
    lim: Seq<(R, R)>,
    mode: ModeModel<R>,
    gmin: R,
    it: int,
    maxit: int,
) -> Result<Iterated<R>, SimFault>
    decreases maxit - it + 1,
{
    if it > maxit {
        Ok(Iterated { x, lim, done: None })
    } else {
        let s = assembly::circuit_equations(c, x, lim, mode, gmin);
        match equations::solution(s.eq) {
            Err(k) => Err(SimFault::Singular(circuit::unknown_label(c, k as int))),
            Ok(xn) => if settled(c.nodes.len() as int, xn, x) && !s.limited && it > 1 {
                Ok(Iterated { x: xn, lim: s.lim, done: Some(it as usize) })
            } else {
                iterated(c, xn, s.lim, mode, gmin, it + 1, maxit)
            },
        }
    }
}

/// The Newton iteration.
pub open spec fn converged<R: Real>(
    c: CircuitModel<R>,
    x: Seq<R>,
    lim: Seq<(R, R)>,
    mode: ModeModel<R>,
    gmin: R,
    maxit: int,
) -> Result<Iterated<R>, SimFault> {
    iterated(c, x, lim, mode, gmin, 1, maxit)
}

/// Iterates from `x` until the equations of the circuit are met; the number of
/// iterations, or nothing if they did not suffice.
pub fn newton<R: Real>(
    ckt: &Circuit<R>,
    x: &mut Vec<R>,
    lim: &mut Vec<(R, R)>,
    mode: &Mode<R>,
    gmin: R,
    maxit: usize,
) -> (r: Result<Option<usize>, SimError>)
    requires
        assembly::fits(ckt@, old(x)@, old(lim)@, mode@),
    ensures
        final(x)@.len() == old(x)@.len(),
        final(lim)@.len() == old(lim)@.len(),
        match r {
            Ok(done) => converged(ckt@, old(x)@, old(lim)@, mode@, gmin, maxit as int) == Ok::<
                Iterated<R>,
                SimFault,
            >(Iterated { x: final(x)@, lim: final(lim)@, done }),
            Err(e) => converged(ckt@, old(x)@, old(lim)@, mode@, gmin, maxit as int) == Err::<
                Iterated<R>,
                SimFault,
            >(e@),
        },
{
    let nn: usize = ckt.nodes.len();
    let mut done: usize = 0;
    while done < maxit
        invariant
            done <= maxit,
            nn == ckt@.nodes.len(),
            assembly::fits(ckt@, x@, lim@, mode@),
            x@.len() == old(x)@.len(),
            lim@.len() == old(lim)@.len(),
            converged(ckt@, old(x)@, old(lim)@, mode@, gmin, maxit as int) == iterated(
                ckt@,
                x@,
                lim@,
                mode@,
                gmin,
                done + 1,
                maxit as int,
            ),
        decreases maxit - done,
    {
        let mut limited = false;
        let s = assemble(ckt, x.as_slice(), lim, mode, gmin, &mut limited);
        proof {
            equations::lemma_solution_shape(s@);
        }
        match solve(s) {
            Err(k) => {
                return Err(SimError::Singular(unk_name(ckt, k)));
            },
            Ok(xn) => {
                let conv = is_settled(nn, &xn, x);
                *x = xn;
                done = done + 1;
                if conv && !limited && done > 1 {
                    return Ok(Some(done));
                }
            },
        }
    }
    Ok(None)
}

/// The stages of a continuation: minimal conductance and source scale.
pub open spec fn gmin_path<R: Real>() -> Seq<(R, R)> {
    Seq::new(11, |i: int| (R::decimal(10, 0).int_power(-(i + 2)), R::unit()))
}

pub open spec fn source_path<R: Real>() -> Seq<(R, R)> {
    Seq::new(
        10,
        |i: int| (models::min_conductance::<R>(), R::integer(i + 1).over(R::decimal(10, 0))),
    )
}

/// The stages of a path from `j` on, each started where the one before ended;
/// nothing if one of them did not converge.
pub open spec fn walked<R: Real>(
    c: CircuitModel<R>,
    path: Seq<(R, R)>,
    j: int,
    x: Seq<R>,
    lim: Seq<(R, R)>,
) -> Result<Option<(Seq<R>, Seq<(R, R)>)>, SimFault>
    decreases path.len() - j,
{
    if j >= path.len() {
        Ok(Some((x, lim)))
    } else {
        match converged(
            c,
            x,
            lim,
            ModeModel::Dc { fac: path[j].1 },
            path[j].0,
            ITL_OP as int,
        ) {
            Err(e) => Err(e),
            Ok(t) => if t.done is None {
                Ok(None)
            } else {
                walked(c, path, j + 1, t.x, t.lim)
            },
        }
    }
}

/// The point with every unknown at zero.
pub open spec fn origin<R: Real>(n: nat) -> Seq<R> {
    Seq::new(n, |i: int| R::nil())
}

/// No junction voltages yet.
pub open spec fn relaxed<R: Real>(n: nat) -> Seq<(R, R)> {
    Seq::new(n, |i: int| (R::nil(), R::nil()))
}

/// The operating point found from `x`: directly, or else by lowering the
/// minimal conductance, or else by raising the sources.
pub open spec fn operating_point<R: Real>(
    c: CircuitModel<R>,
    x: Seq<R>,
    lim: Seq<(R, R)>,
) -> Result<(Seq<R>, Seq<(R, R)>), SimFault> {
    match converged(
        c,
        x,
        lim,
        ModeModel::Dc { fac: R::unit() },
        models::min_conductance::<R>(),
        ITL_OP as int,
    ) {
        Err(e) => Err(e),
        Ok(t) => if t.done is Some {
            Ok((t.x, t.lim))
        } else {
            match walked(c, gmin_path::<R>(), 0, origin(x.len()), relaxed(lim.len())) {
                Err(e) => Err(e),
                Ok(Some(p)) => Ok(p),
                Ok(None) => match walked(
                    c,
                    source_path::<R>(),
                    0,
                    origin(x.len()),
                    relaxed(lim.len()),
                ) {
                    Err(e) => Err(e),
                    Ok(Some(p)) => Ok(p),
                    Ok(None) => Err(SimFault::NoOperatingPoint),
                },
            }
        },
    }
}

/// A list of zeros.
pub fn zeros<R: Real>(n: usize) -> (r: Vec<R>)
    ensures
        r@ == origin::<R>(n as nat),
{
    let mut v: Vec<R> = Vec::new();
    let mut i: usize = 0;
    while i < n
        invariant
            i <= n,
            v@ == origin::<R>(i as nat),
        decreases n - i,
    {
        v.push(R::zero());
        i = i + 1;
        proof {
            assert(v@ =~= origin::<R>(i as nat));
        }
    }
    v
}

pub fn zero_pairs<R: Real>(n: usize) -> (r: Vec<(R, R)>)
    ensures
        r@ == relaxed::<R>(n as nat),
{
    let mut v: Vec<(R, R)> = Vec::new();
    let mut i: usize = 0;
    while i < n
        invariant
            i <= n,
            v@ == relaxed::<R>(i as nat),
        decreases n - i,
    {
        v.push((R::zero(), R::zero()));
        i = i + 1;
        proof {
            assert(v@ =~= relaxed::<R>(i as nat));
        }
    }
    v
}

fn lower_gmin<R: Real>() -> (r: Vec<(R, R)>)
    ensures
        r@ == gmin_path::<R>(),
{
    let mut v: Vec<(R, R)> = Vec::new();
    let mut k: i32 = 2;
    while k <= 12
        invariant
            2 <= k <= 13,
            v@ == gmin_path::<R>().take(k - 2),
        decreases 13 - k,
    {
        v.push((R::lit(10, 0).powi(-k), R::one()));
        k = k + 1;
        proof {
            assert(v@ =~= gmin_path::<R>().take(k - 2));
        }
    }
    proof {
        assert(gmin_path::<R>().take(11) =~= gmin_path::<R>());
    }
    v
}

fn raise_sources<R: Real>() -> (r: Vec<(R, R)>)
    ensures
        r@ == source_path::<R>(),
{
    let mut v: Vec<(R, R)> = Vec::new();
    let mut k: i128 = 1;
    while k <= 10
        invariant
            1 <= k <= 11,
            v@ == source_path::<R>().take(k - 1),
        decreases 11 - k,
    {
        v.push((gmin::<R>(), R::of_int(k).div(R::lit(10, 0))));
        k = k + 1;
        proof {
            assert(v@ =~= source_path::<R>().take(k - 1));
        }
    }
    proof {
        assert(source_path::<R>().take(10) =~= source_path::<R>());
    }
    v
}

/// Walks a path of stages from zero; whether all of them converged.
fn walk<R: Real>(
    ckt: &Circuit<R>,
    path: &Vec<(R, R)>,
    x: &mut Vec<R>,
    lim: &mut Vec<(R, R)>,
) -> (r: Result<bool, SimError>)
    requires
        assembly::fits(ckt@, old(x)@, old(lim)@, ModeModel::Dc { fac: R::unit() }),
    ensures
        final(x)@.len() == old(x)@.len(),
        final(lim)@.len() == old(lim)@.len(),
        ({
            let w = walked(
                ckt@,
                path@,
                0,
                origin(old(x)@.len()),
                relaxed(old(lim)@.len()),
            );
            match r {
                Ok(true) => w == Ok::<Option<(Seq<R>, Seq<(R, R)>)>, SimFault>(
                    Some((final(x)@, final(lim)@)),
                ),
                Ok(false) => w == Ok::<Option<(Seq<R>, Seq<(R, R)>)>, SimFault>(None),
                Err(e) => w == Err::<Option<(Seq<R>, Seq<(R, R)>)>, SimFault>(e@),
            }
        }),
{
    let ghost w = walked(ckt@, path@, 0, origin(x@.len()), relaxed(lim@.len()));
    *x = zeros(x.len());
    *lim = zero_pairs(lim.len());
    let mut j: usize = 0;
    while j < path.len()
        invariant
            j <= path@.len(),
            assembly::fits(ckt@, x@, lim@, ModeModel::Dc { fac: R::unit() }),
            x@.len() == old(x)@.len(),
            lim@.len() == old(lim)@.len(),
            w == walked(ckt@, path@, 0, origin(old(x)@.len()), relaxed(old(lim)@.len())),
            w == walked(ckt@, path@, j as int, x@, lim@),
        decreases path@.len() - j,
    {
        let (g, fac) = path[j];
        match newton(ckt, x, lim, &Mode::Dc { fac }, g, ITL_OP) {
            Err(e) => {
                return Err(e);
            },
            Ok(done) => {
                if done.is_none() {
                    return Ok(false);
                }
            },
        }
        j = j + 1;
    }
    Ok(true)
}

/// Finds the operating point of a circuit, starting from `x`.
pub fn op_solve<R: Real>(ckt: &Circuit<R>, x: &mut Vec<R>, lim: &mut Vec<(R, R)>) -> (r: Result<
    (),
    SimError,
>)
    requires
        assembly::fits(ckt@, old(x)@, old(lim)@, ModeModel::Dc { fac: R::unit() }),
    ensures
        final(x)@.len() == old(x)@.len(),
        final(lim)@.len() == old(lim)@.len(),
        match r {
            Ok(_) => operating_point(ckt@, old(x)@, old(lim)@) == Ok::<
                (Seq<R>, Seq<(R, R)>),
                SimFault,
            >((final(x)@, final(lim)@)),
            Err(e) => operating_point(ckt@, old(x)@, old(lim)@) == Err::<
                (Seq<R>, Seq<(R, R)>),
                SimFault,
            >(e@),
        },
{
    match newton(ckt, x, lim, &Mode::Dc { fac: R::one() }, gmin::<R>(), ITL_OP) {
        Err(e) => {
            return Err(e);
        },
        Ok(done) => {
            if done.is_some() {
                return Ok(());
            }
        },
    }
    match walk(ckt, &lower_gmin::<R>(), x, lim) {
        Err(e) => {
            return Err(e);
        },
        Ok(true) => {
            return Ok(());
        },
        Ok(false) => {},
    }
    match walk(ckt, &raise_sources::<R>(), x, lim) {
        Err(e) => Err(e),
        Ok(true) => Ok(()),
        Ok(false) => Err(SimError::NoOperatingPoint),
    }
}

/// The operating point found from zero.
pub open spec fn resting_point<R: Real>(c: CircuitModel<R>) -> Result<
    (Seq<R>, Seq<(R, R)>),
    SimFault,
> {
    operating_point(c, origin(c.unknowns() as nat), relaxed(c.devs.len()))
}

pub fn op_setup<R: Real>(ckt: &Circuit<R>) -> (r: Result<(usize, Vec<R>, Vec<(R, R)>), SimError>)
    requires
        ckt@.wf(),
    ensures
        match r {
            Ok((m, x, lim)) => {
                &&& m == ckt@.unknowns()
                &&& x@.len() == m
                &&& lim@.len() == ckt@.devs.len()
                &&& resting_point(ckt@) == Ok::<(Seq<R>, Seq<(R, R)>), SimFault>((x@, lim@))
            },
            Err(e) => resting_point(ckt@) == Err::<(Seq<R>, Seq<(R, R)>), SimFault>(e@),
        },
{
    let m: usize = ckt.nodes.len() + ckt.nb;
    let mut x = zeros::<R>(m);
    let mut lim = zero_pairs::<R>(ckt.devs.len());
    match op_solve(ckt, &mut x, &mut lim) {
        Err(e) => Err(e),
        Ok(_) => Ok((m, x, lim)),
    }
}

/// An initial condition where one is in force and given, or the value found.
pub open spec fn initial<R: Real>(uic: bool, ic: R, live: R) -> R {
    if uic && ic.finite() {
        ic
    } else {
        live
    }
}

fn pick_initial<R: Real>(uic: bool, ic: R, live: R) -> (r: R)
    ensures
        r == initial(uic, ic, live),
{
    if uic && ic.is_finite() {
        ic
    } else {
        live
    }
}

/// The reactive state that a device starts with: charge and current of a
/// capacitor, flux and voltage of an inductor.
pub open spec fn first_state<R: Real>(d: DevModel<R>, x: Seq<R>, uic: bool) -> (R, R) {
    match d {
        DevModel::C { p, n, v, ic, m } => (
            models::charge(initial(uic, ic, assembly::across(x, p, n)), v, m).0,
            R::nil(),
        ),
        DevModel::L { v, br, ic, .. } => (v.times(initial(uic, ic, x[br as int])), R::nil()),
        _ => (R::nil(), R::nil()),
    }
}

pub open spec fn first_states<R: Real>(c: CircuitModel<R>, x: Seq<R>, uic: bool) -> Seq<(R, R)> {
    Seq::new(c.devs.len(), |i: int| first_state(c.devs[i], x, uic))
}

pub fn init_state<R: Real>(ckt: &Circuit<R>, x: &[R], uic: bool) -> (r: Vec<(R, R)>)
    requires
        ckt@.wf(),
        x@.len() == ckt@.unknowns(),
    ensures
        r@ == first_states(ckt@, x@, uic),
{
    let mut out: Vec<(R, R)> = Vec::new();
    let mut i: usize = 0;
    while i < ckt.devs.len()
        invariant
            i <= ckt.devs@.len(),
            ckt@.wf(),
            x@.len() == ckt@.unknowns(),
            out@ == first_states(ckt@, x@, uic).take(i as int),
        decreases ckt.devs@.len() - i,
    {
        proof {
            assert(ckt@.devs[i as int] == ckt.devs@[i as int]@);
            assert(ckt@.devs[i as int].placed(ckt@.nodes.len() as int));
            if ckt@.devs[i as int].has_branch() {
                circuit::lemma_branch_placed(ckt@, i as int);
            }
        }
        let s = match &ckt.devs[i] {
            Dev::C { p, n, v, ic, m } => (
                ceval(pick_initial(uic, *ic, x[*p].sub(x[*n])), *v, *m).0,
                R::zero(),
            ),
            Dev::L { p, n, v, br, ic } => (v.mul(pick_initial(uic, *ic, x[*br])), R::zero()),
            _ => (R::zero(), R::zero()),
        };
        out.push(s);
        i = i + 1;
        proof {
            assert(out@ =~= first_states(ckt@, x@, uic).take(i as int));
        }
    }
    proof {
        assert(first_states(ckt@, x@, uic).take(ckt@.devs.len() as int) =~= first_states(
            ckt@,
            x@,
            uic,
        ));
    }
    out
}

/// The charge or flux of a reactive device.
pub open spec fn stored<R: Real>(d: DevModel<R>, x: Seq<R>) -> Option<R> {
    match d {
        DevModel::C { p, n, v, m, .. } => Some(
            models::charge(assembly::across(x, p, n), v, m).0,
        ),
        DevModel::L { v, br, .. } => Some(v.times(x[br as int])),
        _ => None,
    }
}

/// The reactive state of a device after a step of length `h` to `x`.
pub open spec fn next_state<R: Real>(
    d: DevModel<R>,
    x: Seq<R>,
    h: R,
    last: (R, R),
    be: bool,
) -> (R, R) {
    let f = assembly::rule_factor::<R>(be);
    let m = if be {
        R::nil()
    } else {
        R::unit()
    };
    match stored(d, x) {
        Some(q) => (q, f.over(h).times(q.minus(last.0)).minus(m.times(last.1))),
        None => last,
    }
}

pub open spec fn next_states<R: Real>(
    c: CircuitModel<R>,
    x: Seq<R>,
    h: R,
    st: Seq<(R, R)>,
    be: bool,
) -> Seq<(R, R)> {
    Seq::new(c.devs.len(), |i: int| next_state(c.devs[i], x, h, st[i], be))
}

pub fn update_state<R: Real>(ckt: &Circuit<R>, x: &[R], h: R, st: &mut Vec<(R, R)>, be: bool)
    requires
        ckt@.wf(),
        x@.len() == ckt@.unknowns(),
        old(st)@.len() == ckt@.devs.len(),
    ensures
        final(st)@ == next_states(ckt@, x@, h, old(st)@, be),
{
    let f = if be {
        R::one()
    } else {
        R::lit(2, 0)
    };
    let m = if be {
        R::zero()
    } else {
        R::one()
    };
    let ghost before = st@;
    let ghost after = next_states(ckt@, x@, h, before, be);
    let mut k: usize = 0;
    while k < ckt.devs.len()
        invariant
            k <= ckt.devs@.len(),
            ckt@.wf(),
            x@.len() == ckt@.unknowns(),
            st@.len() == ckt@.devs.len(),
            before.len() == st@.len(),
            f == assembly::rule_factor::<R>(be),
            m == (if be {
                R::nil()
            } else {
                R::unit()
            }),
            after == next_states(ckt@, x@, h, before, be),
            forall|i: int| 0 <= i < k ==> #[trigger] st@[i] == after[i],
            forall|i: int| k <= i < st@.len() ==> #[trigger] st@[i] == before[i],
        decreases ckt.devs@.len() - k,
    {
        proof {
            assert(ckt@.devs[k as int] == ckt.devs@[k as int]@);
            assert(ckt@.devs[k as int].placed(ckt@.nodes.len() as int));
            if ckt@.devs[k as int].has_branch() {
                circuit::lemma_branch_placed(ckt@, k as int);
            }
            assert(st@[k as int] == before[k as int]);
        }
        let q = match &ckt.devs[k] {
            Dev::C { p, n, v, ic, m: mg } => Some(ceval(x[*p].sub(x[*n]), *v, *mg).0),
            Dev::L { p, n, v, br, ic } => Some(v.mul(x[*br])),
            _ => None,
        };
        match q {
            Some(q) => {
                let last = st[k];
                st[k] = (q, f.div(h).mul(q.sub(last.0)).sub(m.mul(last.1)));
            },
            None => {},
        }
        k = k + 1;
    }
    proof {
        assert(st@ =~= after);
    }
}

} // verus!
