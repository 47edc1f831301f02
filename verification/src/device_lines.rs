//! What the words of a device line say of the device in the circuit.
use vstd::prelude::*;

use crate::circuit;
use crate::circuit::{CircuitModel, DevModel};
use crate::fault::ParseFault;
use crate::netlist;
use crate::netlist::Deck;
use crate::netlist_laws;
use crate::num::Real;
use crate::number;
use crate::text;

verus! {

/// The terminal `at` is on the node that `word` names. Ground is node zero and
/// has two names.
pub open spec fn on(nodes: Seq<Seq<char>>, at: usize, word: Seq<char>) -> bool {
    &&& at < nodes.len()
    &&& at == 0 <==> word == "0"@ || word == "gnd"@
    &&& at > 0 ==> nodes[at as int] == word
}

/// The threshold of a field effect transistor: what the line itself says in
/// either spelling, else what its models say, else the default.
pub open spec fn has_threshold<R: Real>(
    own: Seq<Seq<char>>,
    lent: Seq<Seq<char>>,
    default: R,
    vt: R,
) -> bool {
    if netlist::says(own, "vt0"@) {
        netlist::param::<R>(own, "vt0"@, default) == Ok::<R, ParseFault>(vt)
    } else if netlist::says(own, "vto"@) {
        netlist::param::<R>(own, "vto"@, default) == Ok::<R, ParseFault>(vt)
    } else if netlist::says(lent, "vt0"@) {
        netlist::param::<R>(lent, "vt0"@, default) == Ok::<R, ParseFault>(vt)
    } else if netlist::says(lent, "vto"@) {
        netlist::param::<R>(lent, "vto"@, default) == Ok::<R, ParseFault>(vt)
    } else {
        vt == default
    }
}

/// `v` is the parameter `key` among `toks`.
pub open spec fn has<R: Real>(toks: Seq<Seq<char>>, key: Seq<char>, default: R, v: R) -> bool {
    netlist::param::<R>(toks, key, default) == Ok::<R, ParseFault>(v)
}

/// The device is the one that the words of a line describe: each terminal is
/// on the node that its word names, and each parameter is what is said of it.
pub open spec fn described<R: Real>(
    nodes: Seq<Seq<char>>,
    toks: Seq<Seq<char>>,
    models: Seq<(Seq<char>, Seq<Seq<char>>)>,
    dev: DevModel<R>,
) -> bool {
    let letter = toks[0][0];
    match dev {
        DevModel::R { p, n, v } => {
            &&& letter == 'r'
            &&& on(nodes, p, toks[1])
            &&& on(nodes, n, toks[2])
            &&& number::value::<R>(toks[3]) == Some(v)
        },
        DevModel::C { p, n, v, ic, m } => {
            &&& letter == 'c'
            &&& on(nodes, p, toks[1])
            &&& on(nodes, n, toks[2])
            &&& number::value::<R>(toks[3]) == Some(v)
            &&& has(toks.skip(4), "ic"@, R::undefined(), ic)
            &&& has(toks.skip(4), "m"@, R::nil(), m)
        },
        DevModel::L { p, n, v, ic, .. } => {
            &&& letter == 'l'
            &&& on(nodes, p, toks[1])
            &&& on(nodes, n, toks[2])
            &&& number::value::<R>(toks[3]) == Some(v)
            &&& has(toks.skip(4), "ic"@, R::undefined(), ic)
        },
        DevModel::V { p, n, dc, ac, wave, .. } => {
            &&& letter == 'v'
            &&& on(nodes, p, toks[1])
            &&& on(nodes, n, toks[2])
            &&& netlist::source::<R>(toks.skip(3)) matches Ok(s)
            &&& s == (dc, ac, wave)
        },
        DevModel::I { p, n, dc, ac, wave } => {
            &&& letter == 'i'
            &&& on(nodes, p, toks[1])
            &&& on(nodes, n, toks[2])
            &&& netlist::source::<R>(toks.skip(3)) matches Ok(s)
            &&& s == (dc, ac, wave)
        },
        DevModel::D { p, n, is, nf } => {
            let ext = netlist::expanded(toks, models, 3);
            &&& letter == 'd'
            &&& on(nodes, p, toks[1])
            &&& on(nodes, n, toks[2])
            &&& has(ext, "is"@, R::decimal(1, -14), is)
            &&& has(ext, "n"@, R::decimal(1, 0), nf)
        },
        DevModel::M { d, g, s, kp, vt0, lambda, pmos } => {
            let from: int = if letter == 'm' {
                5
            } else {
                4
            };
            let own = netlist::own_from(toks, models, from);
            let lent = netlist::lent_from(toks, models, from);
            let ext = own + lent;
            &&& letter == 'm' || letter == 'j'
            &&& on(nodes, d, toks[1])
            &&& on(nodes, g, toks[2])
            &&& on(nodes, s, toks[3])
            &&& letter == 'm' ==> has(ext, "kp"@, R::decimal(2, -5), kp)
            &&& letter == 'm' ==> has_threshold(own, lent, R::decimal(0, 0), vt0)
            &&& letter == 'j' ==> has_double(ext, "beta"@, R::decimal(1, -4), kp)
            &&& letter == 'j' ==> has_threshold(own, lent, R::decimal(-2, 0), vt0)
            &&& has(ext, "lambda"@, R::decimal(0, 0), lambda)
            &&& pmos <==> ext.contains("pmos"@) || ext.contains("pjf"@)
        },
        DevModel::E { p, n, cp, cn, k, .. } => {
            &&& letter == 'e'
            &&& on(nodes, p, toks[1])
            &&& on(nodes, n, toks[2])
            &&& on(nodes, cp, toks[3])
            &&& on(nodes, cn, toks[4])
            &&& number::value::<R>(toks[5]) == Some(k)
        },
        DevModel::G { p, n, cp, cn, k } => {
            &&& letter == 'g'
            &&& on(nodes, p, toks[1])
            &&& on(nodes, n, toks[2])
            &&& on(nodes, cp, toks[3])
            &&& on(nodes, cn, toks[4])
            &&& number::value::<R>(toks[5]) == Some(k)
        },
        DevModel::Q { c, b, e, is, bf, br, pnp } => {
            let ext = netlist::expanded(toks, models, 4);
            &&& letter == 'q'
            &&& on(nodes, c, toks[1])
            &&& on(nodes, b, toks[2])
            &&& on(nodes, e, toks[3])
            &&& has(ext, "is"@, R::decimal(1, -16), is)
            &&& has(ext, "bf"@, R::decimal(100, 0), bf)
            &&& has(ext, "br"@, R::decimal(1, 0), br)
            &&& pnp <==> ext.contains("pnp"@)
        },
    }
}

/// `v` is twice the parameter `key`.
pub open spec fn has_double<R: Real>(
    toks: Seq<Seq<char>>,
    key: Seq<char>,
    default: R,
    v: R,
) -> bool {
    match netlist::param::<R>(toks, key, default) {
        Ok(b) => v == R::decimal(2, 0).times(b),
        Err(_) => false,
    }
}

/// A capacitor between the nodes `a` and `b` without an initial condition.
pub open spec fn is_capacitance<R: Real>(
    nodes: Seq<Seq<char>>,
    a: Seq<char>,
    b: Seq<char>,
    v: R,
    m: R,
    dev: DevModel<R>,
) -> bool {
    match dev {
        DevModel::C { p, n, v: c, ic, m: grading } => {
            &&& on(nodes, p, a)
            &&& on(nodes, n, b)
            &&& c == v
            &&& grading == m
            &&& ic == R::undefined()
        },
        _ => false,
    }
}

/// The devices are the capacitances `x` from `a` to `b` and `y` from `c` to
/// `d`, of which each is there only where it is positive.
pub open spec fn are_capacitances<R: Real>(
    nodes: Seq<Seq<char>>,
    a: Seq<char>,
    b: Seq<char>,
    x: R,
    c: Seq<char>,
    d: Seq<char>,
    y: R,
    m: R,
    devs: Seq<DevModel<R>>,
) -> bool {
    let first = R::nil().below(x);
    let second = R::nil().below(y);
    &&& first && second ==> devs.len() == 2
    &&& first != second ==> devs.len() == 1
    &&& !first && !second ==> devs.len() == 0
    &&& first ==> is_capacitance(nodes, a, b, x, m, devs[0])
    &&& second ==> is_capacitance(nodes, c, d, y, m, devs[devs.len() - 1])
}

/// The devices are the junction and gate capacitances that come with the
/// device of a line.
pub open spec fn accompanies<R: Real>(
    nodes: Seq<Seq<char>>,
    toks: Seq<Seq<char>>,
    models: Seq<(Seq<char>, Seq<Seq<char>>)>,
    devs: Seq<DevModel<R>>,
) -> bool {
    let letter = toks[0][0];
    if letter == 'd' {
        let ext = netlist::expanded(toks, models, 3);
        let x = netlist::param::<R>(ext, "cjo"@, R::decimal(0, 0));
        let m = netlist::param::<R>(ext, "mj"@, R::decimal(5, -1));
        &&& x is Ok
        &&& m is Ok
        &&& if R::nil().below(x->Ok_0) {
            devs.len() == 1 && is_capacitance(
                nodes,
                toks[1],
                toks[2],
                x->Ok_0,
                m->Ok_0,
                devs[0],
            )
        } else {
            devs.len() == 0
        }
    } else if letter == 'm' || letter == 'j' {
        let from: int = if letter == 'm' {
            5
        } else {
            4
        };
        let ext = netlist::expanded(toks, models, from);
        let x = netlist::param::<R>(ext, "cgs"@, R::decimal(0, 0));
        let y = netlist::param::<R>(ext, "cgd"@, R::decimal(0, 0));
        let (d, g, s) = (toks[1], toks[2], toks[3]);
        &&& x is Ok
        &&& y is Ok
        &&& are_capacitances(nodes, g, s, x->Ok_0, g, d, y->Ok_0, R::decimal(0, 0), devs)
    } else if letter == 'q' {
        let ext = netlist::expanded(toks, models, 4);
        let x = netlist::param::<R>(ext, "cje"@, R::decimal(0, 0));
        let y = netlist::param::<R>(ext, "cjc"@, R::decimal(0, 0));
        let m = netlist::param::<R>(ext, "mj"@, R::decimal(5, -1));
        let (c, b, e) = (toks[1], toks[2], toks[3]);
        &&& x is Ok
        &&& y is Ok
        &&& m is Ok
        &&& if ext.contains("pnp"@) {
            are_capacitances(nodes, e, b, x->Ok_0, c, b, y->Ok_0, m->Ok_0, devs)
        } else {
            are_capacitances(nodes, b, e, x->Ok_0, b, c, y->Ok_0, m->Ok_0, devs)
        }
    } else {
        devs.len() == 0
    }
}

/// Zero and one are written as decimals too.
pub open spec fn decimals_are_plain<R: Real>() -> bool {
    R::decimal(0, 0) == R::nil() && R::decimal(1, 0) == R::unit()
}

spec fn extends(a: Seq<Seq<char>>, b: Seq<Seq<char>>) -> bool {
    &&& a.len() <= b.len()
    &&& forall|i: int| 0 <= i < a.len() ==> #[trigger] b[i] == a[i]
}

proof fn lemma_on_node(nodes: Seq<Seq<char>>, word: Seq<char>)
    requires
        netlist_laws::nodes_sound(nodes),
        netlist::with_node(nodes, word).len() <= usize::MAX,
    ensures
        extends(nodes, netlist::with_node(nodes, word)),
        on(netlist::with_node(nodes, word), netlist::node_number(nodes, word) as usize, word),
{
    netlist_laws::lemma_place(nodes, word);
    reveal_strlit("0");
    reveal_strlit("gnd");
    assert("0"@.len() != "gnd"@.len());
    if word == "0"@ {
        assert(nodes[0] == word);
    }
}

proof fn lemma_on_terminals(nodes: Seq<Seq<char>>, toks: Seq<Seq<char>>, k: int)
    requires
        netlist_laws::nodes_sound(nodes),
        k >= 0,
        netlist::with_terminals(nodes, toks, k).len() <= usize::MAX,
    ensures
        netlist_laws::nodes_sound(netlist::with_terminals(nodes, toks, k)),
        extends(nodes, netlist::with_terminals(nodes, toks, k)),
        forall|i: int|
            1 <= i <= k ==> on(
                netlist::with_terminals(nodes, toks, k),
                #[trigger] netlist::terminal(nodes, toks, i),
                toks[i],
            ),
    decreases k,
{
    if k > 0 {
        let was = netlist::with_terminals(nodes, toks, k - 1);
        netlist_laws::lemma_with_terminals(nodes, toks, k - 1);
        netlist_laws::lemma_with_node(was, toks[k]);
        lemma_on_node(was, toks[k]);
        lemma_on_terminals(nodes, toks, k - 1);
        let all = netlist::with_terminals(nodes, toks, k);
        assert forall|i: int| 1 <= i <= k implies on(
            all,
            #[trigger] netlist::terminal(nodes, toks, i),
            toks[i],
        ) by {
            if i < k {
                assert(on(was, netlist::terminal(nodes, toks, i), toks[i]));
            }
        }
    }
}

proof fn lemma_default<R: Real>(toks: Seq<Seq<char>>, i: int, key: Seq<char>, a: R, b: R)
    requires
        0 <= i,
    ensures
        (exists|k: int| i <= k < toks.len() && netlist::sets(#[trigger] toks[k], key))
            ==> netlist::param_from(toks, i, key, a) == netlist::param_from(toks, i, key, b),
        !(exists|k: int| i <= k < toks.len() && netlist::sets(#[trigger] toks[k], key))
            ==> netlist::param_from(toks, i, key, a) == Ok::<R, ParseFault>(a),
    decreases toks.len() - i,
{
    if i < toks.len() && !netlist::sets(toks[i], key) {
        lemma_default(toks, i + 1, key, a, b);
    }
}

proof fn lemma_spelled<R: Real>(toks: Seq<Seq<char>>, default: R)
    requires
        netlist::spelled_threshold::<R>(toks, default) is Ok,
    ensures
        ({
            let v = netlist::spelled_threshold::<R>(toks, default);
            &&& netlist::says(toks, "vt0"@) ==> netlist::param::<R>(toks, "vt0"@, default) == v
            &&& !netlist::says(toks, "vt0"@) ==> netlist::param::<R>(toks, "vto"@, default) == v
            &&& !netlist::says(toks, "vt0"@) && !netlist::says(toks, "vto"@) ==> v == Ok::<
                R,
                ParseFault,
            >(default)
        }),
{
    let vto = netlist::param::<R>(toks, "vto"@, default)->Ok_0;
    lemma_default::<R>(toks, 0, "vt0"@, vto, default);
    lemma_default::<R>(toks, 0, "vto"@, default, default);
}

proof fn lemma_threshold<R: Real>(own: Seq<Seq<char>>, lent: Seq<Seq<char>>, junction: bool)
    requires
        netlist::threshold::<R>(own, lent, junction) is Ok,
    ensures
        has_threshold(
            own,
            lent,
            if junction {
                R::decimal(-2, 0)
            } else {
                R::nil()
            },
            netlist::threshold::<R>(own, lent, junction)->Ok_0,
        ),
{
    let default = if junction {
        R::decimal(-2, 0)
    } else {
        R::nil()
    };
    if netlist::says(own, "vt0"@) || netlist::says(own, "vto"@) {
        lemma_spelled::<R>(own, default);
    } else {
        lemma_spelled::<R>(lent, default);
    }
}

/// The device of a line on the nodes that the line leaves.
proof fn lemma_part<R: Real>(
    toks: Seq<Seq<char>>,
    models: Seq<(Seq<char>, Seq<Seq<char>>)>,
    nodes: Seq<Seq<char>>,
)
    requires
        decimals_are_plain::<R>(),
        netlist_laws::nodes_sound(nodes),
        netlist::with_terminals(nodes, toks, netlist::terminals(toks[0][0])).len() <= usize::MAX,
        netlist::part::<R>(toks, models, nodes) is Ok,
    ensures
        ({
            let w = netlist::with_terminals(nodes, toks, netlist::terminals(toks[0][0]));
            let q = netlist::part::<R>(toks, models, nodes)->Ok_0;
            &&& described(w, toks, models, q.dev)
            &&& accompanies(w, toks, models, netlist::cap_devs(q.caps, q.caps.len() as int))
        }),
{
    let letter = toks[0][0];
    let k = netlist::terminals(letter);
    let w = netlist::with_terminals(nodes, toks, k);
    let q = netlist::part::<R>(toks, models, nodes)->Ok_0;
    let more = netlist::cap_devs(q.caps, q.caps.len() as int);
    lemma_on_terminals(nodes, toks, k);
    let a = netlist::terminal(nodes, toks, 1);
    let b = netlist::terminal(nodes, toks, 2);
    let c = netlist::terminal(nodes, toks, 3);
    let d = netlist::terminal(nodes, toks, 4);
    assert(on(w, a, toks[1]) && on(w, b, toks[2]));
    if k >= 3 {
        assert(on(w, c, toks[3]));
    }
    if k >= 4 {
        assert(on(w, d, toks[4]));
    }
    reveal_with_fuel(netlist::cap_devs, 3);
    if letter == 'm' || letter == 'j' {
        let from: int = if letter == 'm' {
            5
        } else {
            4
        };
        let own = netlist::own_from(toks, models, from);
        let lent = netlist::lent_from(toks, models, from);
        lemma_threshold::<R>(own, lent, letter == 'j');
    }
}

/// A device line adds the device that it describes under its name, and behind it
/// the capacitances that come with it, under that name behind `c.`. Nodes,
/// devices and names that were there before stay in place.
pub proof fn lines_add_what_they_describe<R: Real>(
    deck: Deck<R>,
    toks: Seq<Seq<char>>,
    models: Seq<(Seq<char>, Seq<Seq<char>>)>,
)
    requires
        decimals_are_plain::<R>(),
        netlist_laws::nodes_sound(deck.nodes),
        netlist::with_device(deck, toks, models) is Ok,
        netlist::with_device(deck, toks, models)->Ok_0.nodes.len() <= usize::MAX,
    ensures
        ({
            let next = netlist::with_device(deck, toks, models)->Ok_0;
            let n = deck.devs.len() as int;
            &&& next.nodes.take(deck.nodes.len() as int) == deck.nodes
            &&& next.devs.take(n) == deck.devs
            &&& next.devs.len() > n
            &&& described(next.nodes, toks, models, next.devs[n])
            &&& accompanies(next.nodes, toks, models, next.devs.skip(n + 1))
            &&& deck.names.len() == n ==> next.names.take(n) == deck.names && next.names.len()
                == next.devs.len() && next.names[n] == toks[0] && forall|k: int|
                n < k < next.names.len() ==> #[trigger] next.names[k] == seq!['c', '.'] + toks[0]
            &&& next.analyses == deck.analyses
            &&& next.prints == deck.prints
            &&& next.ignored == deck.ignored
        }),
{
    let next = netlist::with_device(deck, toks, models)->Ok_0;
    let n = deck.devs.len() as int;
    let q = netlist::part::<R>(toks, models, deck.nodes)->Ok_0;
    let more = netlist::cap_devs(q.caps, q.caps.len() as int);
    lemma_part::<R>(toks, models, deck.nodes);
    lemma_on_terminals(deck.nodes, toks, netlist::terminals(toks[0][0]));
    assert(next.nodes.take(deck.nodes.len() as int) =~= deck.nodes);
    assert(next.devs.take(n) =~= deck.devs);
    assert(next.devs.skip(n + 1) =~= more);
    if deck.names.len() == n {
        assert(next.names.take(n) =~= deck.names);
        reveal_strlit("c.");
        assert("c."@ =~= seq!['c', '.']);
    }
}

proof fn lemma_on_extended(a: Seq<Seq<char>>, b: Seq<Seq<char>>)
    requires
        extends(a, b),
    ensures
        forall|at: usize, word: Seq<char>| on(a, at, word) ==> on(b, at, word),
{
}

/// More nodes change nothing of what is described.
proof fn lemma_described_extended<R: Real>(
    a: Seq<Seq<char>>,
    b: Seq<Seq<char>>,
    toks: Seq<Seq<char>>,
    models: Seq<(Seq<char>, Seq<Seq<char>>)>,
    dev: DevModel<R>,
    br: usize,
)
    requires
        extends(a, b),
        described(a, toks, models, dev),
    ensures
        described(b, toks, models, dev.on_branch(br)),
{
    lemma_on_extended(a, b);
}

proof fn lemma_accompanies_extended<R: Real>(
    a: Seq<Seq<char>>,
    b: Seq<Seq<char>>,
    toks: Seq<Seq<char>>,
    models: Seq<(Seq<char>, Seq<Seq<char>>)>,
    devs: Seq<DevModel<R>>,
    more: Seq<DevModel<R>>,
)
    requires
        extends(a, b),
        accompanies(a, toks, models, devs),
        more.len() == devs.len(),
        forall|i: int| 0 <= i < devs.len() && devs[i] is C ==> #[trigger] more[i] == devs[i],
    ensures
        accompanies(b, toks, models, more),
{
    lemma_on_extended(a, b);
}

/// What is read stays as it was read.
spec fn grows<R>(a: Deck<R>, b: Deck<R>) -> bool {
    &&& extends(a.nodes, b.nodes)
    &&& a.devs.len() <= b.devs.len()
    &&& forall|i: int| 0 <= i < a.devs.len() ==> #[trigger] b.devs[i] == a.devs[i]
    &&& extends(a.names, b.names)
}

/// What a statement makes of a deck.
spec fn step<R: Real>(
    deck: Deck<R>,
    toks: Seq<Seq<char>>,
    models: Seq<(Seq<char>, Seq<Seq<char>>)>,
) -> Result<Deck<R>, ParseFault> {
    if text::begins(toks[0], "."@) {
        netlist::with_card(deck, toks)
    } else {
        netlist::with_device(deck, toks, models)
    }
}

proof fn lemma_step_grows<R: Real>(
    deck: Deck<R>,
    toks: Seq<Seq<char>>,
    models: Seq<(Seq<char>, Seq<Seq<char>>)>,
)
    requires
        netlist_laws::nodes_sound(deck.nodes),
        deck.names.len() == deck.devs.len(),
        step(deck, toks, models) is Ok,
    ensures
        grows(deck, step(deck, toks, models)->Ok_0),
        netlist_laws::nodes_sound(step(deck, toks, models)->Ok_0.nodes),
        step(deck, toks, models)->Ok_0.names.len() == step(
            deck,
            toks,
            models,
        )->Ok_0.devs.len(),
{
    lemma_terminals_extend(deck.nodes, toks, netlist::terminals(toks[0][0]));
    netlist_laws::lemma_with_terminals(deck.nodes, toks, netlist::terminals(toks[0][0]));
}

proof fn lemma_terminals_extend(nodes: Seq<Seq<char>>, toks: Seq<Seq<char>>, k: int)
    ensures
        extends(nodes, netlist::with_terminals(nodes, toks, k)),
    decreases k,
{
    if k > 0 {
        lemma_terminals_extend(nodes, toks, k - 1);
    }
}

proof fn lemma_deck_grows<R: Real>(
    lines: Seq<Seq<char>>,
    models: Seq<(Seq<char>, Seq<Seq<char>>)>,
    i: int,
    deck: Deck<R>,
)
    requires
        0 <= i,
        netlist_laws::nodes_sound(deck.nodes),
        deck.names.len() == deck.devs.len(),
    ensures
        grows(deck, netlist::deck_from(lines, models, i, deck).0),
    decreases lines.len() - i,
{
    if i < lines.len() {
        let toks = text::words(lines[i]);
        if toks.len() == 0 {
            lemma_deck_grows(lines, models, i + 1, deck);
        } else if toks[0] != ".end"@ && step(deck, toks, models) is Ok {
            lemma_step_grows(deck, toks, models);
            lemma_deck_grows(lines, models, i + 1, step(deck, toks, models)->Ok_0);
        }
    }
}

/// The statement is a device line.
pub open spec fn is_device_line(line: Seq<char>) -> bool {
    let toks = text::words(line);
    toks.len() > 0 && !(toks[0].len() > 0 && toks[0][0] == '.')
}

/// The statement ends the netlist.
pub open spec fn is_end(line: Seq<char>) -> bool {
    text::words(line).len() > 0 && text::words(line)[0] == ".end"@
}

/// Some device of the circuit is the one that a line describes, and the
/// capacitances that come with it follow.
pub open spec fn holds<R: Real>(
    c: CircuitModel<R>,
    toks: Seq<Seq<char>>,
    models: Seq<(Seq<char>, Seq<Seq<char>>)>,
    at: int,
    n: int,
) -> bool {
    &&& 0 <= at < c.devs.len()
    &&& at + 1 + n <= c.devs.len()
    &&& n >= 0
    &&& c.names[at] == toks[0]
    &&& described(c.nodes, toks, models, c.devs[at])
    &&& accompanies(c.nodes, toks, models, c.devs.subrange(at + 1, at + 1 + n))
}

proof fn lemma_held_here<R: Real>(
    deck: Deck<R>,
    toks: Seq<Seq<char>>,
    models: Seq<(Seq<char>, Seq<Seq<char>>)>,
    last: Deck<R>,
)
    requires
        decimals_are_plain::<R>(),
        netlist_laws::nodes_sound(deck.nodes),
        deck.names.len() == deck.devs.len(),
        netlist::with_device(deck, toks, models) is Ok,
        grows(netlist::with_device(deck, toks, models)->Ok_0, last),
        netlist::assembled(last) is Ok,
    ensures
        exists|at: int, n: int|
            #[trigger] holds(netlist::assembled(last)->Ok_0, toks, models, at, n),
{
    let next = netlist::with_device(deck, toks, models)->Ok_0;
    let c = netlist::assembled(last)->Ok_0;
    let at = deck.devs.len() as int;
    circuit::lemma_branch_count(last.devs, 0, last.devs.len() as int);
    lines_add_what_they_describe(deck, toks, models);
    let n = next.devs.len() - at - 1;
    let br = (last.nodes.len() + circuit::branch_count(last.devs, at)) as usize;
    lemma_described_extended(next.nodes, last.nodes, toks, models, next.devs[at], br);
    assert(last.devs[at] == next.devs[at]);
    assert(c.devs[at] == last.devs[at].on_branch(br));
    let more = c.devs.subrange(at + 1, at + 1 + n);
    let was = next.devs.skip(at + 1);
    assert forall|k: int| 0 <= k < was.len() && was[k] is C implies #[trigger] more[k]
        == was[k] by {
        assert(last.devs[at + 1 + k] == next.devs[at + 1 + k]);
    }
    lemma_accompanies_extended(next.nodes, last.nodes, toks, models, was, more);
    assert(last.names[at] == next.names[at]);
    assert(holds(c, toks, models, at, n));
}

proof fn lemma_line_held<R: Real>(
    lines: Seq<Seq<char>>,
    models: Seq<(Seq<char>, Seq<Seq<char>>)>,
    j: int,
    deck: Deck<R>,
    i: int,
    last: Deck<R>,
)
    requires
        decimals_are_plain::<R>(),
        0 <= j <= i < lines.len(),
        netlist_laws::nodes_sound(deck.nodes),
        deck.names.len() == deck.devs.len(),
        netlist::deck_from(lines, models, j, deck) == (last, None::<ParseFault>),
        netlist::assembled(last) is Ok,
        is_device_line(lines[i]),
        forall|k: int| j <= k < i ==> !is_end(#[trigger] lines[k]),
    ensures
        exists|at: int, n: int|
            #[trigger] holds(
                netlist::assembled(last)->Ok_0,
                text::words(lines[i]),
                models,
                at,
                n,
            ),
    decreases i - j,
{
    let toks = text::words(lines[j]);
    reveal_strlit(".");
    reveal_strlit(".end");
    if toks.len() > 0 && text::begins(toks[0], "."@) {
        assert(toks[0][0] == toks[0].take(1)[0]);
        assert(toks[0][0] == '.');
    }
    if j < i {
        assert(!is_end(lines[j]));
        if toks.len() == 0 {
            lemma_line_held(lines, models, j + 1, deck, i, last);
        } else {
            lemma_step_grows(deck, toks, models);
            lemma_line_held(lines, models, j + 1, step(deck, toks, models)->Ok_0, i, last);
        }
    } else {
        assert(toks[0] != ".end"@) by {
            if toks[0] == ".end"@ {
                assert(toks[0][0] == '.');
            }
        }
        lemma_step_grows(deck, toks, models);
        lemma_deck_grows(lines, models, i + 1, step(deck, toks, models)->Ok_0);
        lemma_held_here(deck, toks, models, last);
    }
}

/// Every device line of a netlist ahead of its end is a device of the circuit
/// read, with each terminal on the node that the word at its place names and
/// each parameter as the line and its models give it.
pub proof fn device_lines_are_devices<R: Real>(src: Seq<char>, i: int)
    requires
        decimals_are_plain::<R>(),
        netlist::reading::<R>(src).circuit is Ok,
        ({
            let raw = text::lines(src);
            let lines = netlist::statements(raw, raw.len() as int)->Ok_0;
            &&& 0 <= i < lines.len()
            &&& is_device_line(lines[i])
            &&& forall|k: int| 0 <= k < i ==> !is_end(#[trigger] lines[k])
        }),
    ensures
        ({
            let raw = text::lines(src);
            let lines = netlist::statements(raw, raw.len() as int)->Ok_0;
            let models = netlist::definitions(lines, lines.len() as int);
            exists|at: int, n: int|
                #[trigger] holds(
                    netlist::reading::<R>(src).circuit->Ok_0,
                    text::words(lines[i]),
                    models,
                    at,
                    n,
                )
        }),
{
    let raw = text::lines(src);
    let lines = netlist::statements(raw, raw.len() as int)->Ok_0;
    let models = netlist::definitions(lines, lines.len() as int);
    let start = netlist::empty_deck::<R>();
    reveal_strlit("0");
    reveal_strlit("gnd");
    assert("0"@.len() != "gnd"@.len());
    assert(netlist_laws::nodes_sound(start.nodes));
    let last = netlist::deck_from(lines, models, 0, start).0;
    lemma_line_held(lines, models, 0, start, i, last);
}

/// Which device lines are accepted. A line needs its terminals; resistors,
/// capacitors and inductors a number behind them, controlled sources one
/// behind four terminals. A letter that names no device is refused, and so is
/// a source without terminals.
pub proof fn lines_need_their_words<R: Real>(
    deck: Deck<R>,
    toks: Seq<Seq<char>>,
    models: Seq<(Seq<char>, Seq<Seq<char>>)>,
)
    requires
        toks.len() > 0,
        toks[0].len() > 0,
    ensures
        ({
            let num = |i: int| i < toks.len() && number::value::<R>(toks[i]) is Some;
            let letter = toks[0][0];
            let next = netlist::with_device(deck, toks, models);
            &&& letter == 'r' ==> (next is Ok <==> num(3))
            &&& letter == 'e' || letter == 'g' ==> (next is Ok <==> num(5))
            &&& letter == 'l' ==> (next is Ok <==> num(3) && netlist::param::<R>(
                toks.skip(4),
                "ic"@,
                R::undefined(),
            ) is Ok)
            &&& letter == 'c' ==> (next is Ok <==> num(3) && netlist::param::<R>(
                toks.skip(4),
                "ic"@,
                R::undefined(),
            ) is Ok && netlist::param::<R>(toks.skip(4), "m"@, R::nil()) is Ok)
            &&& letter == 'v' || letter == 'i' ==> (next is Ok <==> toks.len() > 2
                && netlist::source::<R>(toks.skip(3)) is Ok)
            &&& (letter == 'v' || letter == 'i') && toks.len() < 3 ==> next == Err::<
                Deck<R>,
                ParseFault,
            >(ParseFault::BareSource)
            &&& letter == 'd' && toks.len() < 3 ==> next is Err
            &&& (letter == 'm' || letter == 'j' || letter == 'q') && toks.len() < 4 ==> next is Err
            &&& letter != 'r' && letter != 'c' && letter != 'l' && letter != 'v' && letter != 'i'
                && letter != 'd' && letter != 'm' && letter != 'j' && letter != 'q' && letter
                != 'e' && letter != 'g' ==> next == Err::<Deck<R>, ParseFault>(
                ParseFault::UnknownDevice(toks[0]),
            )
        }),
{
}

} // verus!
