//! The netlist reader.
use vstd::prelude::*;
use vstd::slice::slice_subrange;

use crate::circuit;
use crate::circuit::{Analysis, Circuit, Dev, DevModel, Wave};
use crate::fault::{ParseError, ParseFault};
use crate::netlist;
use crate::netlist::{Deck, Part};
use crate::netlist_laws;
use crate::num::Real;
use crate::number;
use crate::text;

verus! {

/// The result is the one that the model asks for.
pub open spec fn agrees<A>(r: Result<A, ParseError>, m: Result<A, ParseFault>) -> bool {
    match r {
        Ok(a) => m == Ok::<A, ParseFault>(a),
        Err(e) => m == Err::<A, ParseFault>(e@),
    }
}

/// The token at place `i`.
pub fn tok(toks: &[String], i: usize) -> (r: Result<&str, ParseError>)
    ensures
        match r {
            Ok(t) => i < toks@.len() && t@ == toks@[i as int]@,
            Err(e) => i >= toks@.len() && e@ == ParseFault::MissingToken,
        },
{
    if i < toks.len() {
        Ok(toks[i].as_str())
    } else {
        Err(ParseError::MissingToken)
    }
}

/// A token as a number.
pub fn numx<R: Real>(tok: &str) -> (r: Result<R, ParseError>)
    ensures
        agrees(r, netlist::number_of::<R>(tok@)),
{
    match number::num::<R>(tok) {
        Some(v) => Ok(v),
        None => Err(ParseError::BadNumber(tok.to_owned())),
    }
}

fn numx_at<R: Real>(toks: &[String], i: usize) -> (r: Result<R, ParseError>)
    ensures
        agrees(r, netlist::number_at::<R>(text::texts(toks@), i as int)),
{
    match tok(toks, i) {
        Ok(t) => numx(t),
        Err(e) => Err(e),
    }
}

/// The value of the parameter `key`, by the first token that sets it.
pub fn pval<R: Real>(toks: &[String], key: &str, default: R) -> (r: Result<R, ParseError>)
    ensures
        agrees(r, netlist::param::<R>(text::texts(toks@), key@, default)),
{
    let ghost all = text::texts(toks@);
    let mut i: usize = 0;
    while i < toks.len()
        invariant
            i <= toks@.len(),
            all == text::texts(toks@),
            netlist::param::<R>(all, key@, default) == netlist::param_from::<R>(
                all,
                i as int,
                key@,
                default,
            ),
        decreases toks@.len() - i,
    {
        match text::behind(toks[i].as_str(), key) {
            Some(rest) => {
                match text::behind(rest.as_str(), "=") {
                    Some(v) => {
                        return numx(v.as_str());
                    },
                    None => {},
                }
            },
            None => {},
        }
        i = i + 1;
    }
    Ok(default)
}

/// The numbers that follow one another from place `i` on.
fn take_numbers<R: Real>(toks: &[String], i: usize) -> (r: Vec<R>)
    requires
        i <= toks@.len(),
    ensures
        r@ == netlist::numbers::<R>(text::texts(toks@), i as int),
        r@.len() <= toks@.len() - i,
{
    let ghost all = text::texts(toks@);
    let mut v: Vec<R> = Vec::new();
    let mut k: usize = i;
    proof {
        netlist::lemma_numbers_len::<R>(all, i as int);
        assert(v@ + netlist::numbers::<R>(all, i as int) =~= netlist::numbers::<R>(all, i as int));
    }
    while k < toks.len()
        invariant
            i <= k <= toks@.len(),
            all == text::texts(toks@),
            v@.len() == k - i,
            netlist::numbers::<R>(all, i as int) == v@ + netlist::numbers::<R>(all, k as int),
        decreases toks@.len() - k,
    {
        match number::num::<R>(toks[k].as_str()) {
            Some(x) => {
                let ghost was = v@;
                v.push(x);
                k = k + 1;
                proof {
                    assert(was + (seq![x] + netlist::numbers::<R>(all, k as int)) =~= v@
                        + netlist::numbers::<R>(all, k as int));
                }
            },
            None => {
                proof {
                    assert(v@ + Seq::<R>::empty() =~= v@);
                }
                return v;
            },
        }
    }
    proof {
        assert(v@ + Seq::<R>::empty() =~= v@);
    }
    v
}

fn entry_of<R: Real>(v: &Vec<R>, k: usize, default: R) -> (r: R)
    ensures
        r == netlist::entry(v@, k as int, default),
{
    if k < v.len() {
        v[k]
    } else {
        default
    }
}

fn sin_wave<R: Real>(v: &Vec<R>) -> (r: Wave<R>)
    ensures
        r@ == netlist::sin_course(v@),
{
    Wave::Sin {
        vo: entry_of(v, 0, R::zero()),
        va: entry_of(v, 1, R::zero()),
        fr: entry_of(v, 2, R::zero()),
        td: entry_of(v, 3, R::zero()),
        theta: entry_of(v, 4, R::zero()),
    }
}

fn pulse_wave<R: Real>(v: &Vec<R>) -> (r: Wave<R>)
    ensures
        r@ == netlist::pulse_course(v@),
{
    let v1 = entry_of(v, 0, R::zero());
    let v2 = entry_of(v, 1, R::zero());
    let td = entry_of(v, 2, R::zero());
    let tr = entry_of(v, 3, R::zero()).max(R::lit(1, -12));
    let tf = entry_of(v, 4, R::zero()).max(R::lit(1, -12));
    let pw = entry_of(v, 5, R::max_value().div(R::lit(4, 0)));
    let up = td.add(tr);
    let down = up.add(pw);
    let mut pts: Vec<(R, R)> = Vec::new();
    pts.push((td, v1));
    pts.push((up, v2));
    pts.push((down, v2));
    pts.push((down.add(tf), v1));
    proof {
        assert(pts@ =~= seq![(td, v1), (up, v2), (down, v2), (down.plus(tf), v1)]);
    }
    Wave::Pwl { pts, per: entry_of(v, 6, R::zero()) }
}

fn pair_up<R: Real>(v: &Vec<R>) -> (r: Vec<(R, R)>)
    ensures
        r@ == netlist::pairs(v@),
{
    let mut pts: Vec<(R, R)> = Vec::new();
    let len: usize = v.len();
    let n: usize = len / 2;
    let mut k: usize = 0;
    while k < n
        invariant
            k <= n,
            len == v@.len(),
            n == len / 2,
            pts@ == netlist::pairs(v@).take(k as int),
        decreases n - k,
    {
        pts.push((v[2 * k], v[2 * k + 1]));
        k = k + 1;
        proof {
            assert(netlist::pairs(v@).take(k as int) =~= netlist::pairs(v@).take(k - 1).push(
                netlist::pairs(v@)[k - 1],
            ));
        }
    }
    proof {
        assert(netlist::pairs(v@).take(n as int) =~= netlist::pairs(v@));
    }
    pts
}

/// The value, the small signal value and the time course of a source: a bare
/// value or the keywords `dc` and `ac`, and the waveforms `sin`, `pulse` and
/// `pwl`.
pub fn src_spec<R: Real>(toks: &[String]) -> (r: Result<(R, R, Option<Wave<R>>), ParseError>)
    ensures
        match r {
            Ok((dc, ac, wave)) => netlist::source::<R>(text::texts(toks@)) == Ok::<
                (R, R, Option<circuit::WaveModel<R>>),
                ParseFault,
            >((dc, ac, circuit::course(wave))),
            Err(e) => netlist::source::<R>(text::texts(toks@)) == Err::<
                (R, R, Option<circuit::WaveModel<R>>),
                ParseFault,
            >(e@),
        },
{
    let ghost all = text::texts(toks@);
    let mut dc = R::zero();
    let mut ac = R::zero();
    let mut wave: Option<Wave<R>> = None;
    let mut i: usize = 0;
    while i < toks.len()
        invariant
            i <= toks@.len(),
            all == text::texts(toks@),
            netlist::source::<R>(all) == netlist::source_from::<R>(
                all,
                i as int,
                dc,
                ac,
                circuit::course(wave),
            ),
        decreases toks@.len() - i,
    {
        let t = toks[i].as_str();
        proof {
            assert(all[i as int] == t@);
        }
        if text::equal(t, "dc") {
            let v = take_numbers::<R>(toks, i + 1);
            dc = entry_of(&v, 0, R::zero());
            i = i + 1 + v.len();
        } else if text::equal(t, "ac") {
            let v = take_numbers::<R>(toks, i + 1);
            ac = entry_of(&v, 0, R::one());
            i = i + 1 + v.len();
        } else if text::equal(t, "sin") {
            let v = take_numbers::<R>(toks, i + 1);
            wave = Some(sin_wave(&v));
            i = i + 1 + v.len();
        } else if text::equal(t, "pulse") {
            let v = take_numbers::<R>(toks, i + 1);
            wave = Some(pulse_wave(&v));
            i = i + 1 + v.len();
        } else if text::equal(t, "pwl") {
            let v = take_numbers::<R>(toks, i + 1);
            let pts = pair_up(&v);
            if pts.len() == 0 {
                return Err(ParseError::NoCorners);
            }
            wave = Some(Wave::Pwl { pts, per: R::zero() });
            i = i + 1 + v.len();
        } else {
            match number::num::<R>(t) {
                Some(x) => {
                    dc = x;
                },
                None => {},
            }
            i = i + 1;
        }
    }
    Ok((dc, ac, wave))
}

/// The models by name.
pub open spec fn library(v: Seq<(String, Vec<String>)>) -> Seq<(Seq<char>, Seq<Seq<char>>)> {
    Seq::new(v.len(), |i: int| (v[i].0@, text::texts(v[i].1@)))
}

/// The place of the last model with a name.
fn find_model(models: &Vec<(String, Vec<String>)>, name: &str) -> (r: Option<usize>)
    ensures
        match r {
            Some(k) => k < models@.len() && netlist::defined(library(models@), name@) == Some(
                text::texts(models@[k as int].1@),
            ),
            None => netlist::defined(library(models@), name@) is None,
        },
{
    let ghost all = library(models@);
    let mut k: usize = models.len();
    proof {
        assert(all.take(k as int) =~= all);
    }
    while k > 0
        invariant
            k <= models@.len(),
            all == library(models@),
            netlist::defined(all, name@) == netlist::defined(all.take(k as int), name@),
        decreases k,
    {
        k = k - 1;
        proof {
            assert(all.take(k + 1).drop_last() =~= all.take(k as int));
            assert(all.take(k + 1).last() == all[k as int]);
        }
        if text::equal(models[k].0.as_str(), name) {
            return Some(k);
        }
    }
    None
}

fn extend(v: &mut Vec<String>, more: &Vec<String>)
    ensures
        text::texts(final(v)@) == text::texts(old(v)@) + text::texts(more@),
{
    let ghost was = text::texts(v@);
    let mut i: usize = 0;
    proof {
        assert(was + text::texts(more@).take(0) =~= was);
    }
    while i < more.len()
        invariant
            i <= more@.len(),
            text::texts(v@) == was + text::texts(more@).take(i as int),
        decreases more@.len() - i,
    {
        let ghost before = text::texts(v@);
        v.push(more[i].clone());
        i = i + 1;
        proof {
            assert(text::texts(v@) =~= before.push(more@[i - 1]@));
            assert(was + text::texts(more@).take(i as int) =~= (was + text::texts(more@).take(
                i - 1,
            )).push(more@[i - 1]@));
        }
    }
    proof {
        assert(text::texts(more@).take(more@.len() as int) =~= text::texts(more@));
    }
}

/// The parameters of a device: its own, and those of its models.
fn split_params(toks: &Vec<String>, models: &Vec<(String, Vec<String>)>, from: usize) -> (r: (
    Vec<String>,
    Vec<String>,
))
    ensures
        text::texts(r.0@) == netlist::own_from(text::texts(toks@), library(models@), from as int),
        text::texts(r.1@) == netlist::lent_from(text::texts(toks@), library(models@), from as int),
{
    let ghost all = text::texts(toks@);
    let ghost lib = library(models@);
    let mut own: Vec<String> = Vec::new();
    let mut modt: Vec<String> = Vec::new();
    let mut i: usize = from;
    proof {
        assert(text::texts(own@) =~= Seq::<Seq<char>>::empty());
        assert(text::texts(modt@) =~= Seq::<Seq<char>>::empty());
        if from > toks@.len() {
            assert(netlist::own_from(all, lib, from as int) =~= Seq::<Seq<char>>::empty());
            assert(netlist::lent_from(all, lib, from as int) =~= Seq::<Seq<char>>::empty());
        }
    }
    while i < toks.len()
        invariant
            from <= i,
            i <= toks@.len() || i == from,
            all == text::texts(toks@),
            lib == library(models@),
            text::texts(own@) == netlist::own_tokens(all, lib, from as int, i as int),
            text::texts(modt@) == netlist::model_tokens(all, lib, from as int, i as int),
        decreases toks@.len() - i,
    {
        match find_model(models, toks[i].as_str()) {
            Some(k) => {
                extend(&mut modt, &models[k].1);
            },
            None => {
                let ghost was = text::texts(own@);
                own.push(toks[i].clone());
                proof {
                    assert(text::texts(own@) =~= was.push(all[i as int]));
                }
            },
        }
        i = i + 1;
    }
    (own, modt)
}

/// The parameters of a device: its own, then those of its models.
fn expand(toks: &Vec<String>, models: &Vec<(String, Vec<String>)>, from: usize) -> (r: Vec<String>)
    ensures
        text::texts(r@) == netlist::expanded(text::texts(toks@), library(models@), from as int),
{
    let (mut own, lent) = split_params(toks, models, from);
    extend(&mut own, &lent);
    own
}

/// The number of a node, which is new where its name is.
fn nid(nodes: &mut Vec<String>, name: &str) -> (r: usize)
    requires
        old(nodes)@.len() > 0,
    ensures
        r == netlist::node_number(text::texts(old(nodes)@), name@),
        text::texts(final(nodes)@) == netlist::with_node(text::texts(old(nodes)@), name@),
        final(nodes)@.len() > 0,
{
    let ghost all = text::texts(nodes@);
    if text::equal(name, "gnd") {
        return 0;
    }
    let mut i: usize = 0;
    proof {
        assert(all.skip(0) =~= all);
    }
    while i < nodes.len()
        invariant
            i <= nodes@.len(),
            nodes@ == old(nodes)@,
            all == text::texts(nodes@),
            name@ != "gnd"@,
            netlist::place(all, name@) == i + netlist::place(all.skip(i as int), name@),
        decreases nodes@.len() - i,
    {
        proof {
            assert(all.skip(i as int).drop_first() =~= all.skip(i + 1));
            assert(all.skip(i as int)[0] == nodes@[i as int]@);
        }
        if text::equal(nodes[i].as_str(), name) {
            return i;
        }
        i = i + 1;
    }
    let n: usize = nodes.len();
    nodes.push(name.to_owned());
    proof {
        assert(all.skip(n as int).len() == 0);
        assert(text::texts(nodes@) =~= all.push(name@));
    }
    n
}

/// The numbers of the first `k` terminals of a device.
fn place_terminals(nodes: &mut Vec<String>, toks: &Vec<String>, k: usize) -> (r: Vec<usize>)
    requires
        old(nodes)@.len() > 0,
        k < toks@.len(),
    ensures
        r@.len() == k,
        forall|i: int|
            0 <= i < k ==> #[trigger] r@[i] == netlist::terminal(
                text::texts(old(nodes)@),
                text::texts(toks@),
                i + 1,
            ),
        text::texts(final(nodes)@) == netlist::with_terminals(
            text::texts(old(nodes)@),
            text::texts(toks@),
            k as int,
        ),
        final(nodes)@.len() > 0,
{
    let ghost start = text::texts(nodes@);
    let ghost all = text::texts(toks@);
    let mut out: Vec<usize> = Vec::new();
    let mut i: usize = 0;
    while i < k
        invariant
            i <= k < toks@.len(),
            out@.len() == i,
            nodes@.len() > 0,
            all == text::texts(toks@),
            text::texts(nodes@) == netlist::with_terminals(start, all, i as int),
            forall|j: int|
                0 <= j < i ==> #[trigger] out@[j] == netlist::terminal(start, all, j + 1),
        decreases k - i,
    {
        i = i + 1;
        let t = nid(nodes, toks[i].as_str());
        out.push(t);
    }
    out
}

/// A device with the capacitances that come with it.
struct Found<R> {
    dev: Dev<R>,
    caps: Vec<(usize, usize, R, R)>,
}

/// The result is the part that the model asks for.
spec fn yields<R: Real>(r: Result<Found<R>, ParseError>, m: Result<Part<R>, ParseFault>) -> bool {
    match r {
        Ok(f) => m is Ok && f.dev@ == m->Ok_0.dev && f.caps@ == m->Ok_0.caps,
        Err(e) => m == Err::<Part<R>, ParseFault>(e@),
    }
}

fn alone<R: Real>(dev: Dev<R>) -> (r: Found<R>)
    ensures
        r.dev == dev,
        r.caps@ == Seq::<(usize, usize, R, R)>::empty(),
{
    Found { dev, caps: Vec::new() }
}

fn rest_of(toks: &Vec<String>, from: usize) -> (r: &[String])
    requires
        from <= toks@.len(),
    ensures
        text::texts(r@) == text::texts(toks@).skip(from as int),
{
    let r = slice_subrange(toks.as_slice(), from, toks.len());
    proof {
        assert(text::texts(r@) =~= text::texts(toks@).skip(from as int));
    }
    r
}

fn read_resistor<R: Real>(toks: &Vec<String>, p: usize, n: usize) -> (r: Result<
    Found<R>,
    ParseError,
>)
    ensures
        yields(r, netlist::resistor::<R>(text::texts(toks@), p, n)),
{
    match numx_at::<R>(toks.as_slice(), 3) {
        Err(e) => Err(e),
        Ok(v) => Ok(alone(Dev::R { p, n, v })),
    }
}

fn read_capacitor<R: Real>(toks: &Vec<String>, p: usize, n: usize) -> (r: Result<
    Found<R>,
    ParseError,
>)
    ensures
        yields(r, netlist::capacitor::<R>(text::texts(toks@), p, n)),
{
    match numx_at::<R>(toks.as_slice(), 3) {
        Err(e) => Err(e),
        Ok(v) => match pval::<R>(rest_of(toks, 4), "ic", R::nan()) {
            Err(e) => Err(e),
            Ok(ic) => match pval::<R>(rest_of(toks, 4), "m", R::zero()) {
                Err(e) => Err(e),
                Ok(m) => Ok(alone(Dev::C { p, n, v, ic, m })),
            },
        },
    }
}

fn read_inductor<R: Real>(toks: &Vec<String>, p: usize, n: usize) -> (r: Result<
    Found<R>,
    ParseError,
>)
    ensures
        yields(r, netlist::inductor::<R>(text::texts(toks@), p, n)),
{
    match numx_at::<R>(toks.as_slice(), 3) {
        Err(e) => Err(e),
        Ok(v) => match pval::<R>(rest_of(toks, 4), "ic", R::nan()) {
            Err(e) => Err(e),
            Ok(ic) => Ok(alone(Dev::L { p, n, v, br: 0, ic })),
        },
    }
}

fn read_voltage_source<R: Real>(toks: &Vec<String>, p: usize, n: usize) -> (r: Result<
    Found<R>,
    ParseError,
>)
    requires
        toks@.len() >= 3,
    ensures
        yields(r, netlist::voltage_source::<R>(text::texts(toks@), p, n)),
{
    match src_spec::<R>(rest_of(toks, 3)) {
        Err(e) => Err(e),
        Ok((dc, ac, wave)) => Ok(alone(Dev::V { p, n, dc, ac, wave, br: 0 })),
    }
}

fn read_current_source<R: Real>(toks: &Vec<String>, p: usize, n: usize) -> (r: Result<
    Found<R>,
    ParseError,
>)
    requires
        toks@.len() >= 3,
    ensures
        yields(r, netlist::current_source::<R>(text::texts(toks@), p, n)),
{
    match src_spec::<R>(rest_of(toks, 3)) {
        Err(e) => Err(e),
        Ok((dc, ac, wave)) => Ok(alone(Dev::I { p, n, dc, ac, wave })),
    }
}

fn read_diode<R: Real>(ext: &Vec<String>, p: usize, n: usize) -> (r: Result<Found<R>, ParseError>)
    ensures
        yields(r, netlist::diode::<R>(text::texts(ext@), p, n)),
{
    let ext = ext.as_slice();
    match pval::<R>(ext, "cjo", R::zero()) {
        Err(e) => Err(e),
        Ok(cjo) => match pval::<R>(ext, "mj", R::lit(5, -1)) {
            Err(e) => Err(e),
            Ok(mj) => match pval::<R>(ext, "is", R::lit(1, -14)) {
                Err(e) => Err(e),
                Ok(is) => match pval::<R>(ext, "n", R::one()) {
                    Err(e) => Err(e),
                    Ok(nf) => {
                        let mut caps: Vec<(usize, usize, R, R)> = Vec::new();
                        caps.push((p, n, cjo, mj));
                        proof {
                            assert(caps@ =~= seq![(p, n, cjo, mj)]);
                        }
                        Ok(Found { dev: Dev::D { p, n, is, nf }, caps })
                    },
                },
            },
        },
    }
}

fn read_gain<R: Real>(ext: &Vec<String>, junction: bool) -> (r: Result<R, ParseError>)
    ensures
        agrees(r, netlist::gain::<R>(text::texts(ext@), junction)),
{
    if junction {
        match pval::<R>(ext.as_slice(), "beta", R::lit(1, -4)) {
            Err(e) => Err(e),
            Ok(beta) => Ok(R::lit(2, 0).mul(beta)),
        }
    } else {
        pval::<R>(ext.as_slice(), "kp", R::lit(2, -5))
    }
}

/// Whether some token sets the parameter `key`.
fn is_set(toks: &Vec<String>, key: &str) -> (r: bool)
    ensures
        r == netlist::says(text::texts(toks@), key@),
{
    let ghost all = text::texts(toks@);
    let mut i: usize = 0;
    while i < toks.len()
        invariant
            i <= toks@.len(),
            all == text::texts(toks@),
            forall|k: int| 0 <= k < i ==> !netlist::sets(#[trigger] all[k], key@),
        decreases toks@.len() - i,
    {
        match text::behind(toks[i].as_str(), key) {
            Some(rest) => {
                if text::starts_with(rest.as_str(), "=") {
                    proof {
                        assert(netlist::sets(all[i as int], key@));
                    }
                    return true;
                }
            },
            None => {},
        }
        i = i + 1;
    }
    false
}

fn read_spelled_threshold<R: Real>(toks: &Vec<String>, default: R) -> (r: Result<R, ParseError>)
    ensures
        agrees(r, netlist::spelled_threshold::<R>(text::texts(toks@), default)),
{
    match pval::<R>(toks.as_slice(), "vto", default) {
        Err(e) => Err(e),
        Ok(vto) => pval::<R>(toks.as_slice(), "vt0", vto),
    }
}

fn read_threshold<R: Real>(own: &Vec<String>, lent: &Vec<String>, junction: bool) -> (r: Result<
    R,
    ParseError,
>)
    ensures
        agrees(r, netlist::threshold::<R>(text::texts(own@), text::texts(lent@), junction)),
{
    let default = if junction {
        R::lit(-2, 0)
    } else {
        R::zero()
    };
    if is_set(own, "vt0") || is_set(own, "vto") {
        read_spelled_threshold(own, default)
    } else {
        read_spelled_threshold(lent, default)
    }
}

fn read_fet<R: Real>(
    own: &Vec<String>,
    lent: &Vec<String>,
    junction: bool,
    d: usize,
    g: usize,
    s: usize,
) -> (r: Result<Found<R>, ParseError>)
    ensures
        yields(
            r,
            netlist::fet::<R>(text::texts(own@), text::texts(lent@), junction, d, g, s),
        ),
{
    let mut all: Vec<String> = Vec::new();
    extend(&mut all, own);
    extend(&mut all, lent);
    let ext = &all;
    proof {
        assert(text::texts(ext@) =~= text::texts(own@) + text::texts(lent@));
    }
    match pval::<R>(ext.as_slice(), "cgs", R::zero()) {
        Err(e) => Err(e),
        Ok(cgs) => match pval::<R>(ext.as_slice(), "cgd", R::zero()) {
            Err(e) => Err(e),
            Ok(cgd) => match read_gain::<R>(ext, junction) {
                Err(e) => Err(e),
                Ok(kp) => match read_threshold::<R>(own, lent, junction) {
                    Err(e) => Err(e),
                    Ok(vt0) => match pval::<R>(ext.as_slice(), "lambda", R::zero()) {
                        Err(e) => Err(e),
                        Ok(lambda) => {
                            let pmos = text::lists(ext, "pmos") || text::lists(ext, "pjf");
                            let mut caps: Vec<(usize, usize, R, R)> = Vec::new();
                            caps.push((g, s, cgs, R::zero()));
                            caps.push((g, d, cgd, R::zero()));
                            proof {
                                assert(caps@ =~= seq![
                                    (g, s, cgs, R::nil()),
                                    (g, d, cgd, R::nil()),
                                ]);
                            }
                            Ok(Found { dev: Dev::M { d, g, s, kp, vt0, lambda, pmos }, caps })
                        },
                    },
                },
            },
        },
    }
}

fn read_bipolar<R: Real>(ext: &Vec<String>, c: usize, b: usize, e: usize) -> (r: Result<
    Found<R>,
    ParseError,
>)
    ensures
        yields(r, netlist::bipolar::<R>(text::texts(ext@), c, b, e)),
{
    let pnp = text::lists(ext, "pnp");
    match pval::<R>(ext.as_slice(), "cje", R::zero()) {
        Err(f) => Err(f),
        Ok(cje) => match pval::<R>(ext.as_slice(), "mj", R::lit(5, -1)) {
            Err(f) => Err(f),
            Ok(mj) => match pval::<R>(ext.as_slice(), "cjc", R::zero()) {
                Err(f) => Err(f),
                Ok(cjc) => match pval::<R>(ext.as_slice(), "is", R::lit(1, -16)) {
                    Err(f) => Err(f),
                    Ok(is) => match pval::<R>(ext.as_slice(), "bf", R::lit(100, 0)) {
                        Err(f) => Err(f),
                        Ok(bf) => match pval::<R>(ext.as_slice(), "br", R::one()) {
                            Err(f) => Err(f),
                            Ok(br) => {
                                let mut caps: Vec<(usize, usize, R, R)> = Vec::new();
                                if pnp {
                                    caps.push((e, b, cje, mj));
                                    caps.push((c, b, cjc, mj));
                                } else {
                                    caps.push((b, e, cje, mj));
                                    caps.push((b, c, cjc, mj));
                                }
                                proof {
                                    let m = netlist::bipolar::<R>(text::texts(ext@), c, b, e);
                                    assert(caps@ =~= m->Ok_0.caps);
                                }
                                Ok(Found { dev: Dev::Q { c, b, e, is, bf, br, pnp }, caps })
                            },
                        },
                    },
                },
            },
        },
    }
}

fn read_gain_stage<R: Real>(
    toks: &Vec<String>,
    voltage: bool,
    p: usize,
    n: usize,
    cp: usize,
    cn: usize,
) -> (r: Result<Found<R>, ParseError>)
    ensures
        yields(r, netlist::gain_stage::<R>(text::texts(toks@), voltage, p, n, cp, cn)),
{
    match numx_at::<R>(toks.as_slice(), 5) {
        Err(e) => Err(e),
        Ok(k) => if voltage {
            Ok(alone(Dev::E { p, n, cp, cn, k, br: 0 }))
        } else {
            Ok(alone(Dev::G { p, n, cp, cn, k }))
        },
    }
}

/// The number of terminals of a device.
fn terminal_count(letter: char) -> (r: usize)
    ensures
        r == netlist::terminals(letter),
{
    if letter == 'm' || letter == 'j' || letter == 'q' {
        3
    } else if letter == 'e' || letter == 'g' {
        4
    } else {
        2
    }
}

/// Reads a device line and enters its terminals into the nodes.
fn read_part<R: Real>(
    toks: &Vec<String>,
    models: &Vec<(String, Vec<String>)>,
    nodes: &mut Vec<String>,
) -> (r: Result<Found<R>, ParseError>)
    requires
        toks@.len() > 0,
        toks@[0]@.len() > 0,
        old(nodes)@.len() > 0,
    ensures
        yields(
            r,
            netlist::part::<R>(text::texts(toks@), library(models@), text::texts(old(nodes)@)),
        ),
        r is Ok ==> text::texts(final(nodes)@) == netlist::with_terminals(
            text::texts(old(nodes)@),
            text::texts(toks@),
            netlist::terminals(toks@[0]@[0]),
        ),
        final(nodes)@.len() > 0,
{
    let ghost start = text::texts(nodes@);
    let ghost all = text::texts(toks@);
    let letter: char = text::chars_of(toks[0].as_str())[0];
    proof {
        assert(all[0] == toks@[0]@);
        assert(letter == all[0][0]);
    }
    if !(letter == 'r' || letter == 'c' || letter == 'l' || letter == 'v' || letter == 'i' || letter
        == 'd' || letter == 'm' || letter == 'j' || letter == 'e' || letter == 'g' || letter
        == 'q') {
        return Err(ParseError::UnknownDevice(toks[0].clone()));
    }
    if (letter == 'v' || letter == 'i') && toks.len() < 3 {
        return Err(ParseError::BareSource);
    }
    let count: usize = terminal_count(letter);
    if toks.len() <= count {
        return Err(ParseError::MissingToken);
    }
    let t = place_terminals(nodes, toks, count);
    proof {
        assert(t@[0] == netlist::terminal(start, all, 1));
        assert(t@[1] == netlist::terminal(start, all, 2));
        if count >= 3 {
            assert(t@[2] == netlist::terminal(start, all, 3));
        }
        if count >= 4 {
            assert(t@[3] == netlist::terminal(start, all, 4));
        }
    }
    if letter == 'r' {
        read_resistor(toks, t[0], t[1])
    } else if letter == 'c' {
        read_capacitor(toks, t[0], t[1])
    } else if letter == 'l' {
        read_inductor(toks, t[0], t[1])
    } else if letter == 'v' {
        read_voltage_source(toks, t[0], t[1])
    } else if letter == 'i' {
        read_current_source(toks, t[0], t[1])
    } else if letter == 'd' {
        read_diode(&expand(toks, models, 3), t[0], t[1])
    } else if letter == 'm' {
        let (own, lent) = split_params(toks, models, 5);
        read_fet(&own, &lent, false, t[0], t[1], t[2])
    } else if letter == 'j' {
        let (own, lent) = split_params(toks, models, 4);
        read_fet(&own, &lent, true, t[0], t[1], t[2])
    } else if letter == 'q' {
        read_bipolar(&expand(toks, models, 4), t[0], t[1], t[2])
    } else {
        read_gain_stage(toks, letter == 'e', t[0], t[1], t[2], t[3])
    }
}

/// What has been read of a netlist.
struct Pile<R> {
    nodes: Vec<String>,
    devs: Vec<Dev<R>>,
    names: Vec<String>,
    analyses: Vec<Analysis<R>>,
    prints: Vec<String>,
    ignored: Vec<String>,
}

impl<R: Real> Pile<R> {
    spec fn deck(self) -> Deck<R> {
        Deck {
            nodes: text::texts(self.nodes@),
            devs: circuit::dev_models(self.devs@),
            names: text::texts(self.names@),
            analyses: circuit::analysis_models(self.analyses@),
            prints: text::texts(self.prints@),
            ignored: text::texts(self.ignored@),
        }
    }

    fn new() -> (r: Self)
        ensures
            r.deck() == netlist::empty_deck::<R>(),
    {
        let mut nodes: Vec<String> = Vec::new();
        nodes.push("0".to_owned());
        let r = Pile {
            nodes,
            devs: Vec::new(),
            names: Vec::new(),
            analyses: Vec::new(),
            prints: Vec::new(),
            ignored: Vec::new(),
        };
        proof {
            let e = netlist::empty_deck::<R>();
            assert(r.deck().nodes =~= e.nodes);
            assert(r.deck().devs =~= e.devs);
            assert(r.deck().names =~= e.names);
            assert(r.deck().analyses =~= e.analyses);
            assert(r.deck().prints =~= e.prints);
            assert(r.deck().ignored =~= e.ignored);
        }
        r
    }

    /// Adds a device line.
    fn add_device(&mut self, toks: &Vec<String>, models: &Vec<(String, Vec<String>)>) -> (r: Option<
        ParseError,
    >)
        requires
            toks@.len() > 0,
            toks@[0]@.len() > 0,
            old(self).nodes@.len() > 0,
        ensures
            match r {
                None => netlist::with_device(
                    old(self).deck(),
                    text::texts(toks@),
                    library(models@),
                ) == Ok::<Deck<R>, ParseFault>(final(self).deck()),
                Some(e) => netlist::with_device(
                    old(self).deck(),
                    text::texts(toks@),
                    library(models@),
                ) == Err::<Deck<R>, ParseFault>(e@),
            },
            final(self).nodes@.len() > 0,
            final(self).ignored == old(self).ignored,
    {
        let ghost before = self.deck();
        let ghost all = text::texts(toks@);
        match read_part::<R>(toks, models, &mut self.nodes) {
            Err(e) => Some(e),
            Ok(f) => {
                let ghost q = netlist::part::<R>(all, library(models@), before.nodes)->Ok_0;
                let ghost title = all[0];
                self.devs.push(f.dev);
                self.names.push(toks[0].clone());
                proof {
                    assert(circuit::dev_models(self.devs@) =~= before.devs.push(q.dev));
                    assert(text::texts(self.names@) =~= before.names.push(title));
                    let none = netlist::cap_devs(q.caps, 0);
                    assert(before.devs.push(q.dev) + none =~= before.devs.push(q.dev));
                    assert(before.names.push(title) + Seq::new(none.len(), |i: int| "c."@ + title)
                        =~= before.names.push(title));
                }
                let caps = f.caps;
                let mut k: usize = 0;
                while k < caps.len()
                    invariant
                        k <= caps@.len(),
                        toks@.len() > 0,
                        title == toks@[0]@,
                        caps@ == q.caps,
                        self.nodes@.len() > 0,
                        self.ignored == old(self).ignored,
                        self.deck() == (Deck {
                            nodes: self.deck().nodes,
                            devs: before.devs.push(q.dev) + netlist::cap_devs(q.caps, k as int),
                            names: before.names.push(title) + Seq::new(
                                netlist::cap_devs(q.caps, k as int).len(),
                                |i: int| "c."@ + title,
                            ),
                            ..before
                        }),
                        text::texts(self.nodes@) == netlist::with_terminals(
                            before.nodes,
                            text::texts(toks@),
                            netlist::terminals(title[0]),
                        ),
                    decreases caps@.len() - k,
                {
                    let (a, b, cv, mg) = caps[k];
                    let ghost done = netlist::cap_devs(q.caps, k as int);
                    let ghost devs = circuit::dev_models(self.devs@);
                    let ghost names = text::texts(self.names@);
                    if R::zero().lt(cv) {
                        self.devs.push(Dev::C { p: a, n: b, v: cv, ic: R::nan(), m: mg });
                        let mut name = "c.".to_owned();
                        name.append(toks[0].as_str());
                        self.names.push(name);
                        proof {
                            let c = DevModel::C {
                                p: a,
                                n: b,
                                v: cv,
                                ic: R::undefined(),
                                m: mg,
                            };
                            assert(circuit::dev_models(self.devs@) =~= devs.push(c));
                            assert((before.devs.push(q.dev) + done).push(c) =~= before.devs.push(
                                q.dev,
                            ) + done.push(c));
                            assert(text::texts(self.names@) =~= names.push("c."@ + title));
                            assert(names.push("c."@ + title) =~= before.names.push(title)
                                + Seq::new(done.push(c).len(), |i: int| "c."@ + title));
                        }
                    }
                    k = k + 1;
                }
                None
            },
        }
    }
}

/// The result is the analysis that the model asks for.
spec fn asks<R: Real>(
    r: Result<Analysis<R>, ParseError>,
    m: Result<circuit::AnalysisModel<R>, ParseFault>,
) -> bool {
    match r {
        Ok(a) => m == Ok::<circuit::AnalysisModel<R>, ParseFault>(a@),
        Err(e) => m == Err::<circuit::AnalysisModel<R>, ParseFault>(e@),
    }
}

fn read_dc<R: Real>(toks: &Vec<String>) -> (r: Result<Analysis<R>, ParseError>)
    ensures
        asks(r, netlist::dc_card::<R>(text::texts(toks@))),
{
    match tok(toks.as_slice(), 1) {
        Err(e) => Err(e),
        Ok(src) => match numx_at::<R>(toks.as_slice(), 2) {
            Err(e) => Err(e),
            Ok(start) => match numx_at::<R>(toks.as_slice(), 3) {
                Err(e) => Err(e),
                Ok(stop) => match numx_at::<R>(toks.as_slice(), 4) {
                    Err(e) => Err(e),
                    Ok(step) => Ok(Analysis::Dc { src: src.to_owned(), start, stop, step }),
                },
            },
        },
    }
}

fn read_tran<R: Real>(toks: &Vec<String>) -> (r: Result<Analysis<R>, ParseError>)
    ensures
        asks(r, netlist::tran_card::<R>(text::texts(toks@))),
{
    match numx_at::<R>(toks.as_slice(), 1) {
        Err(e) => Err(e),
        Ok(tstep) => match numx_at::<R>(toks.as_slice(), 2) {
            Err(e) => Err(e),
            Ok(tstop) => Ok(Analysis::Tran { tstep, tstop, uic: text::lists(toks, "uic") }),
        },
    }
}

fn read_ac<R: Real>(toks: &Vec<String>) -> (r: Result<Analysis<R>, ParseError>)
    ensures
        asks(r, netlist::ac_card::<R>(text::texts(toks@))),
{
    match tok(toks.as_slice(), 1) {
        Err(e) => Err(e),
        Ok(kind) => {
            let dec = text::equal(kind, "dec");
            if !dec && !text::equal(kind, "lin") {
                return Err(ParseError::SweepKind);
            }
            match numx_at::<R>(toks.as_slice(), 2) {
                Err(e) => Err(e),
                Ok(n) => match numx_at::<R>(toks.as_slice(), 3) {
                    Err(e) => Err(e),
                    Ok(f1) => match numx_at::<R>(toks.as_slice(), 4) {
                        Err(e) => Err(e),
                        Ok(f2) => Ok(Analysis::Ac { dec, n: n.to_usize(), f1, f2 }),
                    },
                },
            }
        },
    }
}

/// The output columns that a print card names.
fn read_columns(toks: &Vec<String>) -> (r: Vec<String>)
    requires
        toks@.len() > 0,
    ensures
        text::texts(r@) == netlist::columns_from(text::texts(toks@), 1),
{
    let ghost all = text::texts(toks@);
    let mut out: Vec<String> = Vec::new();
    let n: usize = toks.len();
    let mut i: usize = 1;
    proof {
        assert(text::texts(out@) + netlist::columns_from(all, 1) =~= netlist::columns_from(all, 1));
    }
    while i < n && n - i > 1
        invariant
            n == toks@.len(),
            all == text::texts(toks@),
            1 <= i <= n,
            netlist::columns_from(all, 1) == text::texts(out@) + netlist::columns_from(
                all,
                i as int,
            ),
        decreases n - i,
    {
        let ghost was = text::texts(out@);
        let mut c = toks[i].clone();
        c.append("(");
        c.append(toks[i + 1].as_str());
        c.append(")");
        let ghost name = c@;
        out.push(c);
        i = i + 2;
        proof {
            assert(text::texts(out@) =~= was.push(name));
            assert(text::texts(out@) + netlist::columns_from(all, i as int) =~= was + (seq![name]
                + netlist::columns_from(all, i as int)));
        }
    }
    proof {
        assert(netlist::columns_from(all, i as int) =~= Seq::<Seq<char>>::empty());
        assert(text::texts(out@) + Seq::<Seq<char>>::empty() =~= text::texts(out@));
    }
    out
}

impl<R: Real> Pile<R> {
    fn add_analysis(&mut self, a: Analysis<R>)
        ensures
            final(self).deck() == (Deck {
                analyses: old(self).deck().analyses.push(a@),
                ..old(self).deck()
            }),
            final(self).nodes == old(self).nodes,
            final(self).ignored == old(self).ignored,
    {
        let ghost was = self.deck();
        self.analyses.push(a);
        proof {
            assert(self.deck().analyses =~= was.analyses.push(a@));
        }
    }

    /// Adds a control card.
    fn add_card(&mut self, toks: &Vec<String>) -> (r: Option<ParseError>)
        requires
            toks@.len() > 0,
            text::begins(toks@[0]@, "."@),
        ensures
            match r {
                None => netlist::with_card(old(self).deck(), text::texts(toks@)) == Ok::<
                    Deck<R>,
                    ParseFault,
                >(final(self).deck()),
                Some(e) => netlist::with_card(old(self).deck(), text::texts(toks@)) == Err::<
                    Deck<R>,
                    ParseFault,
                >(e@) && final(self).ignored == old(self).ignored,
            },
            final(self).nodes == old(self).nodes,
    {
        let ghost was = self.deck();
        let ghost all = text::texts(toks@);
        proof {
            assert(all[0] == toks@[0]@);
        }
        let card = match text::behind(toks[0].as_str(), ".") {
            Some(c) => c,
            None => {
                return None;
            },
        };
        let card = card.as_str();
        if text::equal(card, "op") {
            self.add_analysis(Analysis::Op);
        } else if text::equal(card, "dc") {
            match read_dc::<R>(toks) {
                Err(e) => {
                    return Some(e);
                },
                Ok(a) => self.add_analysis(a),
            }
        } else if text::equal(card, "tran") {
            match read_tran::<R>(toks) {
                Err(e) => {
                    return Some(e);
                },
                Ok(a) => self.add_analysis(a),
            }
        } else if text::equal(card, "ac") {
            match read_ac::<R>(toks) {
                Err(e) => {
                    return Some(e);
                },
                Ok(a) => self.add_analysis(a),
            }
        } else if text::equal(card, "model") {
        } else if text::equal(card, "print") {
            let more = read_columns(toks);
            extend(&mut self.prints, &more);
        } else {
            self.ignored.push(card.to_owned());
            proof {
                assert(self.deck().ignored =~= was.ignored.push(card@));
            }
        }
        None
    }

    /// Numbers the branch currents behind the nodes.
    fn finish(self) -> (r: Result<Circuit<R>, ParseError>)
        ensures
            match r {
                Ok(c) => netlist::assembled(self.deck()) == Ok::<
                    circuit::CircuitModel<R>,
                    ParseFault,
                >(c@),
                Err(e) => netlist::assembled(self.deck()) == Err::<
                    circuit::CircuitModel<R>,
                    ParseFault,
                >(e@),
            },
    {
        let ghost deck = self.deck();
        let nn: usize = self.nodes.len();
        let mut devs = self.devs;
        let mut nb: usize = 0;
        let mut i: usize = 0;
        while i < devs.len()
            invariant
                i <= devs@.len(),
                devs@.len() == deck.devs.len(),
                deck == self.deck(),
                nn == deck.nodes.len(),
                nb == circuit::branch_count(deck.devs, i as int),
                nn + nb <= usize::MAX,
                forall|k: int|
                    0 <= k < i ==> (#[trigger] devs@[k])@ == netlist::numbered(
                        deck.devs,
                        nn as int,
                    )[k],
                forall|k: int| i <= k < devs@.len() ==> (#[trigger] devs@[k])@ == deck.devs[k],
            decreases devs@.len() - i,
        {
            let to: usize = nn + nb;
            let ghost was = devs@[i as int];
            proof {
                assert(was@ == deck.devs[i as int]);
            }
            let branch = devs[i].has_branch();
            if branch {
                if to == usize::MAX {
                    proof {
                        circuit::lemma_branch_count(deck.devs, i + 1, deck.devs.len() as int);
                    }
                    return Err(ParseError::TooLarge);
                }
                match &mut devs[i] {
                    Dev::L { br, .. } => {
                        *br = to;
                    },
                    Dev::V { br, .. } => {
                        *br = to;
                    },
                    Dev::E { br, .. } => {
                        *br = to;
                    },
                    _ => {},
                }
                nb = nb + 1;
            }
            i = i + 1;
        }
        let c = Circuit {
            devs,
            names: self.names,
            nodes: self.nodes,
            analyses: self.analyses,
            prints: self.prints,
            nb,
        };
        proof {
            assert(c@.devs =~= netlist::numbered(deck.devs, nn as int));
        }
        Ok(c)
    }
}

fn see(c: char) -> (r: char)
    ensures
        r == netlist::seen(c),
{
    let l = text::lower(c);
    if l == '(' || l == ')' || l == ',' {
        ' '
    } else {
        l
    }
}

/// A line without its comment, in lower case and without punctuation.
fn clean(raw: &str) -> (r: String)
    ensures
        r@ == netlist::cleaned(raw@),
{
    let v = text::chars_of(raw);
    let ghost u = netlist::uncommented(raw@);
    let ghost all = Seq::new(u.len(), |i: int| netlist::seen(u[i]));
    let mut out = String::new();
    let mut i: usize = 0;
    proof {
        assert(raw@.skip(0) =~= raw@);
        assert(raw@.take(0) + u =~= u);
    }
    while i < v.len() && v[i] != ';'
        invariant
            i <= v@.len(),
            v@ == raw@,
            u == netlist::uncommented(raw@),
            u == raw@.take(i as int) + netlist::uncommented(raw@.skip(i as int)),
            out@ == Seq::new(i as nat, |k: int| netlist::seen(raw@[k])),
        decreases v@.len() - i,
    {
        out.push(see(v[i]));
        proof {
            let rest = raw@.skip(i as int);
            assert(rest.drop_first() =~= raw@.skip(i + 1));
            assert(raw@.take(i as int) + (seq![rest[0]] + netlist::uncommented(raw@.skip(i + 1)))
                =~= raw@.take(i + 1) + netlist::uncommented(raw@.skip(i + 1)));
            assert(out@ =~= Seq::new((i + 1) as nat, |k: int| netlist::seen(raw@[k])));
        }
        i = i + 1;
    }
    proof {
        assert(netlist::uncommented(raw@.skip(i as int)) =~= Seq::<char>::empty());
        assert(u =~= raw@.take(i as int));
        assert(out@ =~= all);
    }
    text::trim(out.as_str())
}

/// The statements of a netlist.
fn read_statements(src: &str) -> (r: Result<Vec<String>, ParseError>)
    ensures
        ({
            let raw = text::lines(src@);
            match r {
                Ok(v) => netlist::statements(raw, raw.len() as int) == Ok::<
                    Seq<Seq<char>>,
                    ParseFault,
                >(text::texts(v@)),
                Err(e) => netlist::statements(raw, raw.len() as int) == Err::<
                    Seq<Seq<char>>,
                    ParseFault,
                >(e@),
            }
        }),
{
    let raw = text::split_lines(src);
    let ghost all = text::texts(raw@);
    let mut lines: Vec<String> = Vec::new();
    let mut n: usize = 0;
    proof {
        assert(text::texts(lines@) =~= Seq::<Seq<char>>::empty());
    }
    while n < raw.len()
        invariant
            n <= raw@.len(),
            all == text::texts(raw@),
            all == text::lines(src@),
            netlist::statements(all, n as int) == Ok::<Seq<Seq<char>>, ParseFault>(
                text::texts(lines@),
            ),
        decreases raw@.len() - n,
    {
        let ghost done = text::texts(lines@);
        let line = clean(raw[n].as_str());
        let v = text::chars_of(line.as_str());
        proof {
            assert(all[n as int] == raw@[n as int]@);
        }
        if n == 0 || v.len() == 0 || v[0] == '*' {
        } else if v[0] == '+' {
            match lines.pop() {
                None => {
                    proof {
                        lemma_statements_stop(all, n + 1, all.len() as int);
                    }
                    return Err(ParseError::NothingToContinue);
                },
                Some(prev) => {
                    let mut prev = prev;
                    let ghost head = prev@;
                    prev.append(" ");
                    let rest = text::string_of(&v, 1, v.len());
                    prev.append(rest.as_str());
                    lines.push(prev);
                    proof {
                        assert(rest@ =~= line@.skip(1));
                        assert(text::texts(lines@) =~= done.drop_last().push(
                            done.last() + " "@ + line@.skip(1),
                        ));
                    }
                },
            }
        } else {
            let ghost w = line@;
            lines.push(line);
            proof {
                assert(text::texts(lines@) =~= done.push(w));
            }
        }
        n = n + 1;
    }
    Ok(lines)
}

/// A fault among the first lines is the fault of all of them.
proof fn lemma_statements_stop(raw: Seq<Seq<char>>, n: int, m: int)
    requires
        n <= m,
        netlist::statements(raw, n) is Err,
    ensures
        netlist::statements(raw, m) == netlist::statements(raw, n),
    decreases m - n,
{
    if n < m {
        lemma_statements_stop(raw, n, m - 1);
    }
}

/// The models that the statements define.
fn read_models(lines: &Vec<String>) -> (r: Vec<(String, Vec<String>)>)
    ensures
        library(r@) == netlist::definitions(text::texts(lines@), lines@.len() as int),
{
    let ghost all = text::texts(lines@);
    let mut out: Vec<(String, Vec<String>)> = Vec::new();
    let mut i: usize = 0;
    proof {
        assert(library(out@) =~= netlist::definitions(all, 0));
    }
    while i < lines.len()
        invariant
            i <= lines@.len(),
            all == text::texts(lines@),
            library(out@) == netlist::definitions(all, i as int),
        decreases lines@.len() - i,
    {
        let toks = text::split_words(lines[i].as_str());
        let ghost done = library(out@);
        let ghost ws = text::texts(toks@);
        proof {
            assert(all[i as int] == lines@[i as int]@);
            assert(ws.len() == toks@.len());
        }
        if toks.len() > 2 && text::equal(toks[0].as_str(), ".model") {
            let name = toks[1].clone();
            let mut params: Vec<String> = Vec::new();
            let mut k: usize = 2;
            proof {
                assert(text::texts(params@) =~= ws.subrange(2, 2));
            }
            while k < toks.len()
                invariant
                    2 <= k <= toks@.len(),
                    ws == text::texts(toks@),
                    text::texts(params@) == ws.subrange(2, k as int),
                decreases toks@.len() - k,
            {
                let ghost was = text::texts(params@);
                params.push(toks[k].clone());
                k = k + 1;
                proof {
                    assert(text::texts(params@) =~= was.push(toks@[k - 1]@));
                    assert(ws.subrange(2, k as int) =~= ws.subrange(2, k - 1).push(ws[k - 1]));
                }
            }
            proof {
                assert(ws.subrange(2, toks@.len() as int) =~= ws.skip(2));
            }
            let ghost entry = (name@, text::texts(params@));
            out.push((name, params));
            proof {
                assert(library(out@) =~= done.push(entry));
            }
        }
        i = i + 1;
    }
    out
}

/// What comes out of reading a netlist: the control cards that were passed
/// over, and the circuit or the error.
pub struct Parsed<R> {
    pub ignored: Vec<String>,
    pub circuit: Result<Circuit<R>, ParseError>,
}

/// Reads a netlist.
pub fn parse<R: Real>(src: &str) -> (r: Parsed<R>)
    ensures
        text::texts(r.ignored@) == netlist::reading::<R>(src@).ignored,
        match r.circuit {
            Ok(c) => c@.wf() && netlist::reading::<R>(src@).circuit == Ok::<
                circuit::CircuitModel<R>,
                ParseFault,
            >(c@),
            Err(e) => netlist::reading::<R>(src@).circuit == Err::<
                circuit::CircuitModel<R>,
                ParseFault,
            >(e@),
        },
{
    let lines = match read_statements(src) {
        Err(e) => {
            let none: Vec<String> = Vec::new();
            proof {
                assert(text::texts(none@) =~= Seq::<Seq<char>>::empty());
            }
            return Parsed { ignored: none, circuit: Err(e) };
        },
        Ok(v) => v,
    };
    let models = read_models(&lines);
    let ghost all = text::texts(lines@);
    let ghost lib = library(models@);
    let mut pile = Pile::<R>::new();
    let mut i: usize = 0;
    let mut going: bool = true;
    while going && i < lines.len()
        invariant
            i <= lines@.len(),
            all == text::texts(lines@),
            lib == library(models@),
            pile.nodes@.len() > 0,
            netlist::deck_from::<R>(all, lib, 0, netlist::empty_deck::<R>()) == if going {
                netlist::deck_from::<R>(all, lib, i as int, pile.deck())
            } else {
                (pile.deck(), None::<ParseFault>)
            },
            ({
                let raw = text::lines(src@);
                netlist::statements(raw, raw.len() as int) == Ok::<Seq<Seq<char>>, ParseFault>(all)
            }),
            lib == netlist::definitions(all, all.len() as int),
        decreases lines@.len() - i + if going { 1int } else { 0 },
    {
        let toks = text::split_words(lines[i].as_str());
        let ghost ws = text::texts(toks@);
        proof {
            assert(all[i as int] == lines@[i as int]@);
            assert(ws.len() == toks@.len());
        }
        if toks.len() > 0 {
            proof {
                text::words_are_not_empty(all[i as int], 0);
                assert(ws[0] == toks@[0]@);
            }
            if text::equal(toks[0].as_str(), ".end") {
                going = false;
            } else {
                let ghost before = pile.deck();
                let e = if text::starts_with(toks[0].as_str(), ".") {
                    pile.add_card(&toks)
                } else {
                    pile.add_device(&toks, &models)
                };
                match e {
                    None => {},
                    Some(e) => {
                        proof {
                            assert(text::texts(pile.ignored@) == before.ignored);
                        }
                        return Parsed { ignored: pile.ignored, circuit: Err(e) };
                    },
                }
            }
        }
        if going {
            i = i + 1;
        }
    }
    proof {
        netlist_laws::read_circuits_are_sound::<R>(src@);
    }
    let mut ignored: Vec<String> = Vec::new();
    core::mem::swap(&mut ignored, &mut pile.ignored);
    Parsed { ignored, circuit: pile.finish() }
}

} // verus!
