//! What a netlist means.
//!
//! The first line is the title. `*` starts a comment line, `;` a trailing
//! comment, and `+` continues the line before. Letter case, parentheses and
//! commas do not matter.
use vstd::prelude::*;

use crate::circuit;
use crate::circuit::{AnalysisModel, CircuitModel, DevModel, WaveModel};
use crate::fault::ParseFault;
use crate::num::Real;
use crate::number;
use crate::text;

verus! {

/// A character of a line as the reader sees it.
pub open spec fn seen(c: char) -> char {
    let l = text::lowered(c);
    if l == '(' || l == ')' || l == ',' {
        ' '
    } else {
        l
    }
}

/// The text before the first `;`.
pub open spec fn uncommented(s: Seq<char>) -> Seq<char>
    decreases s.len(),
{
    if s.len() == 0 || s[0] == ';' {
        Seq::empty()
    } else {
        seq![s[0]] + uncommented(s.drop_first())
    }
}

/// A line without its comment, in the reader's characters.
pub open spec fn cleaned(raw: Seq<char>) -> Seq<char> {
    let u = uncommented(raw);
    text::trimmed(Seq::new(u.len(), |i: int| seen(u[i])))
}

/// The statements on the first `n` lines: titles, comments and empty lines are
/// left out and continuations are appended to what they continue.
pub open spec fn statements(raw: Seq<Seq<char>>, n: int) -> Result<Seq<Seq<char>>, ParseFault>
    decreases n,
{
    if n <= 0 {
        Ok(Seq::empty())
    } else {
        match statements(raw, n - 1) {
            Err(e) => Err(e),
            Ok(done) => {
                let line = cleaned(raw[n - 1]);
                if n == 1 || line.len() == 0 || line[0] == '*' {
                    Ok(done)
                } else if line[0] == '+' {
                    if done.len() == 0 {
                        Err(ParseFault::NothingToContinue)
                    } else {
                        Ok(done.drop_last().push(done.last() + " "@ + line.skip(1)))
                    }
                } else {
                    Ok(done.push(line))
                }
            },
        }
    }
}

/// The named parameter sets that the first `n` statements define.
pub open spec fn definitions(lines: Seq<Seq<char>>, n: int) -> Seq<(Seq<char>, Seq<Seq<char>>)>
    decreases n,
{
    if n <= 0 {
        Seq::empty()
    } else {
        let toks = text::words(lines[n - 1]);
        let done = definitions(lines, n - 1);
        if toks.len() > 2 && toks[0] == ".model"@ {
            done.push((toks[1], toks.skip(2)))
        } else {
            done
        }
    }
}

/// The parameters under a name, by the last definition of it.
pub open spec fn defined(models: Seq<(Seq<char>, Seq<Seq<char>>)>, name: Seq<char>) -> Option<
    Seq<Seq<char>>,
>
    decreases models.len(),
{
    if models.len() == 0 {
        None
    } else if models.last().0 == name {
        Some(models.last().1)
    } else {
        defined(models.drop_last(), name)
    }
}

/// The tokens from `from` up to `hi` that name no model.
pub open spec fn own_tokens(
    toks: Seq<Seq<char>>,
    models: Seq<(Seq<char>, Seq<Seq<char>>)>,
    from: int,
    hi: int,
) -> Seq<Seq<char>>
    decreases hi,
{
    if hi <= from || hi <= 0 {
        Seq::empty()
    } else {
        let done = own_tokens(toks, models, from, hi - 1);
        if defined(models, toks[hi - 1]) is None {
            done.push(toks[hi - 1])
        } else {
            done
        }
    }
}

/// The tokens of the models that the tokens from `from` up to `hi` name.
pub open spec fn model_tokens(
    toks: Seq<Seq<char>>,
    models: Seq<(Seq<char>, Seq<Seq<char>>)>,
    from: int,
    hi: int,
) -> Seq<Seq<char>>
    decreases hi,
{
    if hi <= from || hi <= 0 {
        Seq::empty()
    } else {
        let done = model_tokens(toks, models, from, hi - 1);
        match defined(models, toks[hi - 1]) {
            Some(m) => done + m,
            None => done,
        }
    }
}

/// The parameters that a device has of its own.
pub open spec fn own_from(
    toks: Seq<Seq<char>>,
    models: Seq<(Seq<char>, Seq<Seq<char>>)>,
    from: int,
) -> Seq<Seq<char>> {
    own_tokens(toks, models, from, toks.len() as int)
}

/// The parameters that its models lend a device.
pub open spec fn lent_from(
    toks: Seq<Seq<char>>,
    models: Seq<(Seq<char>, Seq<Seq<char>>)>,
    from: int,
) -> Seq<Seq<char>> {
    model_tokens(toks, models, from, toks.len() as int)
}

/// The parameters of a device: its own, then those of its models.
pub open spec fn expanded(
    toks: Seq<Seq<char>>,
    models: Seq<(Seq<char>, Seq<Seq<char>>)>,
    from: int,
) -> Seq<Seq<char>> {
    own_from(toks, models, from) + lent_from(toks, models, from)
}

/// A token as a number.
pub open spec fn number_of<R: Real>(tok: Seq<char>) -> Result<R, ParseFault> {
    match number::value::<R>(tok) {
        Some(v) => Ok(v),
        None => Err(ParseFault::BadNumber(tok)),
    }
}

/// The token at place `i` as a number.
pub open spec fn number_at<R: Real>(toks: Seq<Seq<char>>, i: int) -> Result<R, ParseFault> {
    if i >= toks.len() {
        Err(ParseFault::MissingToken)
    } else {
        number_of(toks[i])
    }
}

/// The token sets the parameter `key`.
pub open spec fn sets(tok: Seq<char>, key: Seq<char>) -> bool {
    text::begins(tok, key) && text::begins(tok.skip(key.len() as int), "="@)
}

/// What the token behind `key=` says.
pub open spec fn setting(tok: Seq<char>, key: Seq<char>) -> Seq<char> {
    tok.skip(key.len() as int).skip("="@.len() as int)
}

/// Some token sets the parameter `key`.
pub open spec fn says(toks: Seq<Seq<char>>, key: Seq<char>) -> bool {
    exists|i: int| 0 <= i < toks.len() && sets(#[trigger] toks[i], key)
}

/// The parameter `key` by the first token from `i` on that sets it.
pub open spec fn param_from<R: Real>(
    toks: Seq<Seq<char>>,
    i: int,
    key: Seq<char>,
    default: R,
) -> Result<R, ParseFault>
    decreases toks.len() - i,
{
    if i >= toks.len() {
        Ok(default)
    } else if sets(toks[i], key) {
        number_of(setting(toks[i], key))
    } else {
        param_from(toks, i + 1, key, default)
    }
}

pub open spec fn param<R: Real>(toks: Seq<Seq<char>>, key: Seq<char>, default: R) -> Result<
    R,
    ParseFault,
> {
    param_from(toks, 0, key, default)
}

/// The numbers that follow one another from place `i` on.
pub open spec fn numbers<R: Real>(toks: Seq<Seq<char>>, i: int) -> Seq<R>
    decreases toks.len() - i,
{
    if 0 <= i < toks.len() {
        match number::value::<R>(toks[i]) {
            Some(v) => seq![v] + numbers(toks, i + 1),
            None => Seq::empty(),
        }
    } else {
        Seq::empty()
    }
}

/// There are no more numbers than tokens left.
pub proof fn lemma_numbers_len<R: Real>(toks: Seq<Seq<char>>, i: int)
    requires
        0 <= i <= toks.len(),
    ensures
        numbers::<R>(toks, i).len() <= toks.len() - i,
    decreases toks.len() - i,
{
    if i < toks.len() {
        lemma_numbers_len::<R>(toks, i + 1);
    }
}

/// Entry `k` of a list of numbers, or the default.
pub open spec fn entry<R: Real>(v: Seq<R>, k: int, default: R) -> R {
    if k < v.len() {
        v[k]
    } else {
        default
    }
}

/// The source waveform `sin`.
pub open spec fn sin_course<R: Real>(v: Seq<R>) -> WaveModel<R> {
    WaveModel::Sin {
        vo: entry(v, 0, R::nil()),
        va: entry(v, 1, R::nil()),
        fr: entry(v, 2, R::nil()),
        td: entry(v, 3, R::nil()),
        theta: entry(v, 4, R::nil()),
    }
}

/// The source waveform `pulse` as a periodic sequence of corners.
pub open spec fn pulse_course<R: Real>(v: Seq<R>) -> WaveModel<R> {
    let v1 = entry(v, 0, R::nil());
    let v2 = entry(v, 1, R::nil());
    let td = entry(v, 2, R::nil());
    let tr = entry(v, 3, R::nil()).greater_of(R::decimal(1, -12));
    let tf = entry(v, 4, R::nil()).greater_of(R::decimal(1, -12));
    let pw = entry(v, 5, R::largest().over(R::decimal(4, 0)));
    let up = td.plus(tr);
    let down = up.plus(pw);
    WaveModel::Pwl {
        pts: seq![(td, v1), (up, v2), (down, v2), (down.plus(tf), v1)],
        per: entry(v, 6, R::nil()),
    }
}

/// Consecutive numbers as time/value pairs.
pub open spec fn pairs<R: Real>(v: Seq<R>) -> Seq<(R, R)> {
    Seq::new(v.len() / 2, |i: int| (v[2 * i], v[2 * i + 1]))
}

/// The value, the small signal value and the time course that the tokens from
/// `i` on leave of those read so far.
pub open spec fn source_from<R: Real>(
    toks: Seq<Seq<char>>,
    i: int,
    dc: R,
    ac: R,
    wave: Option<WaveModel<R>>,
) -> Result<(R, R, Option<WaveModel<R>>), ParseFault>
    decreases toks.len() - i,
{
    if i < 0 || i >= toks.len() {
        Ok((dc, ac, wave))
    } else {
        proof {
            lemma_numbers_len::<R>(toks, i + 1);
        }
        let v = numbers::<R>(toks, i + 1);
        let next = i + 1 + v.len();
        if toks[i] == "dc"@ {
            source_from(toks, next, entry(v, 0, R::nil()), ac, wave)
        } else if toks[i] == "ac"@ {
            source_from(toks, next, dc, entry(v, 0, R::unit()), wave)
        } else if toks[i] == "sin"@ {
            source_from(toks, next, dc, ac, Some(sin_course(v)))
        } else if toks[i] == "pulse"@ {
            source_from(toks, next, dc, ac, Some(pulse_course(v)))
        } else if toks[i] == "pwl"@ {
            if pairs(v).len() == 0 {
                Err(ParseFault::NoCorners)
            } else {
                source_from(
                    toks,
                    next,
                    dc,
                    ac,
                    Some(WaveModel::Pwl { pts: pairs(v), per: R::nil() }),
                )
            }
        } else {
            match number::value::<R>(toks[i]) {
                Some(x) => source_from(toks, i + 1, x, ac, wave),
                None => source_from(toks, i + 1, dc, ac, wave),
            }
        }
    }
}

/// What a source line says behind its terminals.
pub open spec fn source<R: Real>(toks: Seq<Seq<char>>) -> Result<
    (R, R, Option<WaveModel<R>>),
    ParseFault,
> {
    source_from(toks, 0, R::nil(), R::nil(), None)
}

/// The first place of `name` in a list, or the place behind the list.
pub open spec fn place(list: Seq<Seq<char>>, name: Seq<char>) -> int
    decreases list.len(),
{
    if list.len() == 0 {
        0
    } else if list[0] == name {
        0
    } else {
        1 + place(list.drop_first(), name)
    }
}

/// The number of the node with a name; a new name gets the next number.
pub open spec fn node_number(nodes: Seq<Seq<char>>, name: Seq<char>) -> int {
    if name == "gnd"@ {
        0
    } else {
        place(nodes, name)
    }
}

/// The nodes when `name` has been used.
pub open spec fn with_node(nodes: Seq<Seq<char>>, name: Seq<char>) -> Seq<Seq<char>> {
    if node_number(nodes, name) < nodes.len() {
        nodes
    } else {
        nodes.push(name)
    }
}

/// The nodes when the first `k` terminals of a device have been used.
pub open spec fn with_terminals(nodes: Seq<Seq<char>>, toks: Seq<Seq<char>>, k: int) -> Seq<
    Seq<char>,
>
    decreases k,
{
    if k <= 0 {
        nodes
    } else {
        with_node(with_terminals(nodes, toks, k - 1), toks[k])
    }
}

/// The node of terminal `k` of a device.
pub open spec fn terminal(nodes: Seq<Seq<char>>, toks: Seq<Seq<char>>, k: int) -> usize {
    node_number(with_terminals(nodes, toks, k - 1), toks[k]) as usize
}

/// A device and the capacitances that come with it: their terminals, value and
/// grading.
pub struct Part<R> {
    pub dev: DevModel<R>,
    pub caps: Seq<(usize, usize, R, R)>,
}

/// The number of terminals that a device letter asks for.
pub open spec fn terminals(letter: char) -> int {
    if letter == 'm' || letter == 'j' || letter == 'q' {
        3
    } else if letter == 'e' || letter == 'g' {
        4
    } else {
        2
    }
}

pub open spec fn resistor<R: Real>(toks: Seq<Seq<char>>, p: usize, n: usize) -> Result<
    Part<R>,
    ParseFault,
> {
    match number_at::<R>(toks, 3) {
        Err(e) => Err(e),
        Ok(v) => Ok(Part { dev: DevModel::R { p, n, v }, caps: Seq::empty() }),
    }
}

pub open spec fn capacitor<R: Real>(toks: Seq<Seq<char>>, p: usize, n: usize) -> Result<
    Part<R>,
    ParseFault,
> {
    match number_at::<R>(toks, 3) {
        Err(e) => Err(e),
        Ok(v) => match param::<R>(toks.skip(4), "ic"@, R::undefined()) {
            Err(e) => Err(e),
            Ok(ic) => match param::<R>(toks.skip(4), "m"@, R::nil()) {
                Err(e) => Err(e),
                Ok(m) => Ok(Part { dev: DevModel::C { p, n, v, ic, m }, caps: Seq::empty() }),
            },
        },
    }
}

pub open spec fn inductor<R: Real>(toks: Seq<Seq<char>>, p: usize, n: usize) -> Result<
    Part<R>,
    ParseFault,
> {
    match number_at::<R>(toks, 3) {
        Err(e) => Err(e),
        Ok(v) => match param::<R>(toks.skip(4), "ic"@, R::undefined()) {
            Err(e) => Err(e),
            Ok(ic) => Ok(Part { dev: DevModel::L { p, n, v, br: 0, ic }, caps: Seq::empty() }),
        },
    }
}

pub open spec fn voltage_source<R: Real>(toks: Seq<Seq<char>>, p: usize, n: usize) -> Result<
    Part<R>,
    ParseFault,
> {
    match source::<R>(toks.skip(3)) {
        Err(e) => Err(e),
        Ok((dc, ac, wave)) => Ok(
            Part { dev: DevModel::V { p, n, dc, ac, wave, br: 0 }, caps: Seq::empty() },
        ),
    }
}

pub open spec fn current_source<R: Real>(toks: Seq<Seq<char>>, p: usize, n: usize) -> Result<
    Part<R>,
    ParseFault,
> {
    match source::<R>(toks.skip(3)) {
        Err(e) => Err(e),
        Ok((dc, ac, wave)) => Ok(
            Part { dev: DevModel::I { p, n, dc, ac, wave }, caps: Seq::empty() },
        ),
    }
}

pub open spec fn diode<R: Real>(ext: Seq<Seq<char>>, p: usize, n: usize) -> Result<
    Part<R>,
    ParseFault,
> {
    match param::<R>(ext, "cjo"@, R::nil()) {
        Err(e) => Err(e),
        Ok(cjo) => match param::<R>(ext, "mj"@, R::decimal(5, -1)) {
            Err(e) => Err(e),
            Ok(mj) => match param::<R>(ext, "is"@, R::decimal(1, -14)) {
                Err(e) => Err(e),
                Ok(is) => match param::<R>(ext, "n"@, R::unit()) {
                    Err(e) => Err(e),
                    Ok(nf) => Ok(
                        Part { dev: DevModel::D { p, n, is, nf }, caps: seq![(p, n, cjo, mj)] },
                    ),
                },
            },
        },
    }
}

/// A field effect transistor. The junction type is the square law device with
/// twice the transconductance parameter and a depletion threshold.
pub open spec fn fet<R: Real>(
    own: Seq<Seq<char>>,
    lent: Seq<Seq<char>>,
    junction: bool,
    d: usize,
    g: usize,
    s: usize,
) -> Result<Part<R>, ParseFault> {
    let ext = own + lent;
    match param::<R>(ext, "cgs"@, R::nil()) {
        Err(e) => Err(e),
        Ok(cgs) => match param::<R>(ext, "cgd"@, R::nil()) {
            Err(e) => Err(e),
            Ok(cgd) => match gain::<R>(ext, junction) {
                Err(e) => Err(e),
                Ok(kp) => match threshold::<R>(own, lent, junction) {
                    Err(e) => Err(e),
                    Ok(vt0) => match param::<R>(ext, "lambda"@, R::nil()) {
                        Err(e) => Err(e),
                        Ok(lambda) => {
                            let pmos = ext.contains("pmos"@) || ext.contains("pjf"@);
                            Ok(
                                Part {
                                    dev: DevModel::M { d, g, s, kp, vt0, lambda, pmos },
                                    caps: seq![(g, s, cgs, R::nil()), (g, d, cgd, R::nil())],
                                },
                            )
                        },
                    },
                },
            },
        },
    }
}

pub open spec fn gain<R: Real>(ext: Seq<Seq<char>>, junction: bool) -> Result<R, ParseFault> {
    if junction {
        match param::<R>(ext, "beta"@, R::decimal(1, -4)) {
            Err(e) => Err(e),
            Ok(beta) => Ok(R::decimal(2, 0).times(beta)),
        }
    } else {
        param::<R>(ext, "kp"@, R::decimal(2, -5))
    }
}

/// The threshold by one list of parameters, in either spelling; `vt0` comes
/// before `vto`.
pub open spec fn spelled_threshold<R: Real>(toks: Seq<Seq<char>>, default: R) -> Result<
    R,
    ParseFault,
> {
    match param::<R>(toks, "vto"@, default) {
        Err(e) => Err(e),
        Ok(vto) => param::<R>(toks, "vt0"@, vto),
    }
}

/// The threshold that a device has of its own, in either spelling, or else
/// that of its models.
pub open spec fn threshold<R: Real>(
    own: Seq<Seq<char>>,
    lent: Seq<Seq<char>>,
    junction: bool,
) -> Result<R, ParseFault> {
    let default = if junction {
        R::decimal(-2, 0)
    } else {
        R::nil()
    };
    if says(own, "vt0"@) || says(own, "vto"@) {
        spelled_threshold(own, default)
    } else {
        spelled_threshold(lent, default)
    }
}

pub open spec fn bipolar<R: Real>(
    ext: Seq<Seq<char>>,
    c: usize,
    b: usize,
    e: usize,
) -> Result<Part<R>, ParseFault> {
    let pnp = ext.contains("pnp"@);
    let je = if pnp {
        (e, b)
    } else {
        (b, e)
    };
    let jc = if pnp {
        (c, b)
    } else {
        (b, c)
    };
    match param::<R>(ext, "cje"@, R::nil()) {
        Err(f) => Err(f),
        Ok(cje) => match param::<R>(ext, "mj"@, R::decimal(5, -1)) {
            Err(f) => Err(f),
            Ok(mj) => match param::<R>(ext, "cjc"@, R::nil()) {
                Err(f) => Err(f),
                Ok(cjc) => match param::<R>(ext, "is"@, R::decimal(1, -16)) {
                    Err(f) => Err(f),
                    Ok(is) => match param::<R>(ext, "bf"@, R::decimal(100, 0)) {
                        Err(f) => Err(f),
                        Ok(bf) => match param::<R>(ext, "br"@, R::unit()) {
                            Err(f) => Err(f),
                            Ok(br) => Ok(
                                Part {
                                    dev: DevModel::Q { c, b, e, is, bf, br, pnp },
                                    caps: seq![(je.0, je.1, cje, mj), (jc.0, jc.1, cjc, mj)],
                                },
                            ),
                        },
                    },
                },
            },
        },
    }
}

pub open spec fn gain_stage<R: Real>(
    toks: Seq<Seq<char>>,
    voltage: bool,
    p: usize,
    n: usize,
    cp: usize,
    cn: usize,
) -> Result<Part<R>, ParseFault> {
    match number_at::<R>(toks, 5) {
        Err(e) => Err(e),
        Ok(k) => Ok(
            Part {
                dev: if voltage {
                    DevModel::E { p, n, cp, cn, k, br: 0 }
                } else {
                    DevModel::G { p, n, cp, cn, k }
                },
                caps: Seq::empty(),
            },
        ),
    }
}

/// The letters that name a device.
pub open spec fn is_device(letter: char) -> bool {
    ||| letter == 'r'
    ||| letter == 'c'
    ||| letter == 'l'
    ||| letter == 'v'
    ||| letter == 'i'
    ||| letter == 'd'
    ||| letter == 'm'
    ||| letter == 'j'
    ||| letter == 'e'
    ||| letter == 'g'
    ||| letter == 'q'
}

/// The device that a line describes on the nodes known before it.
pub open spec fn part<R: Real>(
    toks: Seq<Seq<char>>,
    models: Seq<(Seq<char>, Seq<Seq<char>>)>,
    nodes: Seq<Seq<char>>,
) -> Result<Part<R>, ParseFault> {
    let letter = toks[0][0];
    let a = terminal(nodes, toks, 1);
    let b = terminal(nodes, toks, 2);
    let c = terminal(nodes, toks, 3);
    let d = terminal(nodes, toks, 4);
    if !is_device(letter) {
        Err(ParseFault::UnknownDevice(toks[0]))
    } else if (letter == 'v' || letter == 'i') && toks.len() < 3 {
        Err(ParseFault::BareSource)
    } else if toks.len() <= terminals(letter) {
        Err(ParseFault::MissingToken)
    } else if letter == 'r' {
        resistor(toks, a, b)
    } else if letter == 'c' {
        capacitor(toks, a, b)
    } else if letter == 'l' {
        inductor(toks, a, b)
    } else if letter == 'v' {
        voltage_source(toks, a, b)
    } else if letter == 'i' {
        current_source(toks, a, b)
    } else if letter == 'd' {
        diode(expanded(toks, models, 3), a, b)
    } else if letter == 'm' {
        fet(own_from(toks, models, 5), lent_from(toks, models, 5), false, a, b, c)
    } else if letter == 'j' {
        fet(own_from(toks, models, 4), lent_from(toks, models, 4), true, a, b, c)
    } else if letter == 'q' {
        bipolar(expanded(toks, models, 4), a, b, c)
    } else {
        gain_stage(toks, letter == 'e', a, b, c, d)
    }
}

/// What has been read of a netlist.
pub struct Deck<R> {
    pub nodes: Seq<Seq<char>>,
    pub devs: Seq<DevModel<R>>,
    pub names: Seq<Seq<char>>,
    pub analyses: Seq<AnalysisModel<R>>,
    pub prints: Seq<Seq<char>>,
    /// Control cards that mean nothing to the reader.
    pub ignored: Seq<Seq<char>>,
}

pub open spec fn empty_deck<R>() -> Deck<R> {
    Deck {
        nodes: seq!["0"@],
        devs: Seq::empty(),
        names: Seq::empty(),
        analyses: Seq::empty(),
        prints: Seq::empty(),
        ignored: Seq::empty(),
    }
}

/// The devices that the first `k` capacitances of a part add, where they are
/// positive.
pub open spec fn cap_devs<R: Real>(caps: Seq<(usize, usize, R, R)>, k: int) -> Seq<DevModel<R>>
    decreases k,
{
    if k <= 0 {
        Seq::empty()
    } else {
        let done = cap_devs(caps, k - 1);
        let c = caps[k - 1];
        if R::nil().below(c.2) {
            done.push(DevModel::C { p: c.0, n: c.1, v: c.2, ic: R::undefined(), m: c.3 })
        } else {
            done
        }
    }
}

/// A device line added to a deck.
pub open spec fn with_device<R: Real>(
    deck: Deck<R>,
    toks: Seq<Seq<char>>,
    models: Seq<(Seq<char>, Seq<Seq<char>>)>,
) -> Result<Deck<R>, ParseFault> {
    match part::<R>(toks, models, deck.nodes) {
        Err(e) => Err(e),
        Ok(q) => {
            let more = cap_devs(q.caps, q.caps.len() as int);
            Ok(
                Deck {
                    nodes: with_terminals(deck.nodes, toks, terminals(toks[0][0])),
                    devs: deck.devs.push(q.dev) + more,
                    names: deck.names.push(toks[0]) + Seq::new(
                        more.len(),
                        |i: int| "c."@ + toks[0],
                    ),
                    ..deck
                },
            )
        },
    }
}

/// The output columns that a print card names, from token `i` on.
pub open spec fn columns_from(toks: Seq<Seq<char>>, i: int) -> Seq<Seq<char>>
    decreases toks.len() - i,
{
    if i + 1 < toks.len() {
        seq![toks[i] + "("@ + toks[i + 1] + ")"@] + columns_from(toks, i + 2)
    } else {
        Seq::empty()
    }
}

pub open spec fn dc_card<R: Real>(toks: Seq<Seq<char>>) -> Result<AnalysisModel<R>, ParseFault> {
    if toks.len() < 2 {
        Err(ParseFault::MissingToken)
    } else {
        match number_at::<R>(toks, 2) {
            Err(e) => Err(e),
            Ok(start) => match number_at::<R>(toks, 3) {
                Err(e) => Err(e),
                Ok(stop) => match number_at::<R>(toks, 4) {
                    Err(e) => Err(e),
                    Ok(step) => Ok(AnalysisModel::Dc { src: toks[1], start, stop, step }),
                },
            },
        }
    }
}

pub open spec fn tran_card<R: Real>(toks: Seq<Seq<char>>) -> Result<AnalysisModel<R>, ParseFault> {
    match number_at::<R>(toks, 1) {
        Err(e) => Err(e),
        Ok(tstep) => match number_at::<R>(toks, 2) {
            Err(e) => Err(e),
            Ok(tstop) => Ok(
                AnalysisModel::Tran { tstep, tstop, uic: toks.contains("uic"@) },
            ),
        },
    }
}

pub open spec fn ac_card<R: Real>(toks: Seq<Seq<char>>) -> Result<AnalysisModel<R>, ParseFault> {
    if toks.len() < 2 {
        Err(ParseFault::MissingToken)
    } else if toks[1] != "dec"@ && toks[1] != "lin"@ {
        Err(ParseFault::SweepKind)
    } else {
        match number_at::<R>(toks, 2) {
            Err(e) => Err(e),
            Ok(n) => match number_at::<R>(toks, 3) {
                Err(e) => Err(e),
                Ok(f1) => match number_at::<R>(toks, 4) {
                    Err(e) => Err(e),
                    Ok(f2) => Ok(
                        AnalysisModel::Ac { dec: toks[1] == "dec"@, n: n.whole(), f1, f2 },
                    ),
                },
            },
        }
    }
}

/// A control card added to a deck.
pub open spec fn with_card<R: Real>(deck: Deck<R>, toks: Seq<Seq<char>>) -> Result<
    Deck<R>,
    ParseFault,
> {
    let card = toks[0].skip("."@.len() as int);
    if card == "op"@ {
        Ok(Deck { analyses: deck.analyses.push(AnalysisModel::Op), ..deck })
    } else if card == "dc"@ {
        match dc_card::<R>(toks) {
            Err(e) => Err(e),
            Ok(a) => Ok(Deck { analyses: deck.analyses.push(a), ..deck }),
        }
    } else if card == "tran"@ {
        match tran_card::<R>(toks) {
            Err(e) => Err(e),
            Ok(a) => Ok(Deck { analyses: deck.analyses.push(a), ..deck }),
        }
    } else if card == "ac"@ {
        match ac_card::<R>(toks) {
            Err(e) => Err(e),
            Ok(a) => Ok(Deck { analyses: deck.analyses.push(a), ..deck }),
        }
    } else if card == "model"@ {
        Ok(deck)
    } else if card == "print"@ {
        Ok(Deck { prints: deck.prints + columns_from(toks, 1), ..deck })
    } else {
        Ok(Deck { ignored: deck.ignored.push(card), ..deck })
    }
}

/// The deck that the statements from `i` on make of `deck`, or the deck and
/// the fault at which the reading stopped.
pub open spec fn deck_from<R: Real>(
    lines: Seq<Seq<char>>,
    models: Seq<(Seq<char>, Seq<Seq<char>>)>,
    i: int,
    deck: Deck<R>,
) -> (Deck<R>, Option<ParseFault>)
    decreases lines.len() - i,
{
    if i >= lines.len() {
        (deck, None)
    } else {
        let toks = text::words(lines[i]);
        if toks.len() == 0 {
            deck_from(lines, models, i + 1, deck)
        } else if toks[0] == ".end"@ {
            (deck, None)
        } else {
            let next = if text::begins(toks[0], "."@) {
                with_card(deck, toks)
            } else {
                with_device(deck, toks, models)
            };
            match next {
                Err(e) => (deck, Some(e)),
                Ok(d) => deck_from(lines, models, i + 1, d),
            }
        }
    }
}

/// The devices with their branch currents numbered behind `nn` nodes.
pub open spec fn numbered<R>(devs: Seq<DevModel<R>>, nn: int) -> Seq<DevModel<R>> {
    Seq::new(
        devs.len(),
        |i: int| devs[i].on_branch((nn + circuit::branch_count(devs, i)) as usize),
    )
}

/// The circuit of a deck that has been read to its end.
pub open spec fn assembled<R>(deck: Deck<R>) -> Result<CircuitModel<R>, ParseFault> {
    let nb = circuit::branch_count(deck.devs, deck.devs.len() as int);
    if deck.nodes.len() + nb > usize::MAX {
        Err(ParseFault::TooLarge)
    } else {
        Ok(
            CircuitModel {
                devs: numbered(deck.devs, deck.nodes.len() as int),
                names: deck.names,
                nodes: deck.nodes,
                analyses: deck.analyses,
                prints: deck.prints,
                nb,
            },
        )
    }
}

/// What comes out of reading a netlist: the control cards that were passed
/// over, and the circuit or the fault.
pub struct Reading<R> {
    pub ignored: Seq<Seq<char>>,
    pub circuit: Result<CircuitModel<R>, ParseFault>,
}

/// The meaning of the text of a netlist.
pub open spec fn reading<R: Real>(src: Seq<char>) -> Reading<R> {
    let raw = text::lines(src);
    match statements(raw, raw.len() as int) {
        Err(e) => Reading { ignored: Seq::empty(), circuit: Err(e) },
        Ok(lines) => {
            let models = definitions(lines, lines.len() as int);
            match deck_from(lines, models, 0, empty_deck::<R>()) {
                (deck, Some(e)) => Reading { ignored: deck.ignored, circuit: Err(e) },
                (deck, None) => Reading { ignored: deck.ignored, circuit: assembled(deck) },
            }
        },
    }
}

} // verus!
