//! What holds of every netlist that is read.
use vstd::prelude::*;

use crate::circuit;
use crate::circuit::{DevModel, WaveModel};
use crate::fault::ParseFault;
use crate::netlist;
use crate::netlist::{Deck, Part};
use crate::num::Real;
use crate::number;
use crate::text;

verus! {

/// Every node has one name, ground comes first, and no node hides behind the
/// other name of ground.
pub open spec fn nodes_sound(nodes: Seq<Seq<char>>) -> bool {
    &&& nodes.len() > 0
    &&& nodes[0] == "0"@
    &&& nodes.no_duplicates()
    &&& !nodes.contains("gnd"@)
}

spec fn deck_sound<R>(deck: Deck<R>) -> bool {
    &&& nodes_sound(deck.nodes)
    &&& deck.names.len() == deck.devs.len()
    &&& forall|i: int|
        0 <= i < deck.devs.len() ==> (#[trigger] deck.devs[i]).placed(deck.nodes.len() as int)
}

pub proof fn lemma_place(list: Seq<Seq<char>>, name: Seq<char>)
    ensures
        0 <= netlist::place(list, name) <= list.len(),
        netlist::place(list, name) < list.len() ==> list[netlist::place(list, name)] == name,
        forall|i: int| 0 <= i < netlist::place(list, name) ==> #[trigger] list[i] != name,
    decreases list.len(),
{
    if list.len() > 0 && list[0] != name {
        let rest = list.drop_first();
        lemma_place(rest, name);
        assert forall|i: int| 0 <= i < netlist::place(list, name) implies #[trigger] list[i] != name by {
            if i > 0 {
                assert(rest[i - 1] != name);
            }
        }
    }
}

pub(crate) proof fn lemma_with_node(nodes: Seq<Seq<char>>, name: Seq<char>)
    requires
        nodes_sound(nodes),
    ensures
        nodes_sound(netlist::with_node(nodes, name)),
        nodes.len() <= netlist::with_node(nodes, name).len(),
        0 <= netlist::node_number(nodes, name) < netlist::with_node(nodes, name).len(),
{
    lemma_place(nodes, name);
    let w = netlist::with_node(nodes, name);
    if w != nodes {
        assert(w == nodes.push(name));
        assert(name != "gnd"@);
        assert forall|i: int| 0 <= i < w.len() implies w[i] != "gnd"@ by {
            if i < nodes.len() {
                assert(nodes.contains(nodes[i]));
            }
        }
    }
}

pub(crate) proof fn lemma_with_terminals(nodes: Seq<Seq<char>>, toks: Seq<Seq<char>>, k: int)
    requires
        nodes_sound(nodes),
        k >= 0,
    ensures
        nodes_sound(netlist::with_terminals(nodes, toks, k)),
        nodes.len() <= netlist::with_terminals(nodes, toks, k).len(),
        forall|i: int|
            1 <= i <= k ==> 0 <= #[trigger] netlist::node_number(
                netlist::with_terminals(nodes, toks, i - 1),
                toks[i],
            ) < netlist::with_terminals(nodes, toks, k).len(),
    decreases k,
{
    if k > 0 {
        lemma_with_terminals(nodes, toks, k - 1);
        lemma_with_node(netlist::with_terminals(nodes, toks, k - 1), toks[k]);
    }
}

proof fn lemma_terminal(nodes: Seq<Seq<char>>, toks: Seq<Seq<char>>, k: int, i: int)
    requires
        nodes_sound(nodes),
        1 <= i <= k,
    ensures
        netlist::terminal(nodes, toks, i) < netlist::with_terminals(nodes, toks, k).len() || netlist::with_terminals(nodes, toks, k).len() > usize::MAX,
{
    lemma_with_terminals(nodes, toks, k);
    let n = netlist::node_number(netlist::with_terminals(nodes, toks, i - 1), toks[i]);
    assert(0 <= n < netlist::with_terminals(nodes, toks, k).len());
}

proof fn lemma_source_cornered<R: Real>(
    toks: Seq<Seq<char>>,
    i: int,
    dc: R,
    ac: R,
    wave: Option<WaveModel<R>>,
)
    requires
        0 <= i,
        circuit::cornered(wave),
    ensures
        match netlist::source_from::<R>(toks, i, dc, ac, wave) {
            Ok(s) => circuit::cornered(s.2),
            Err(e) => true,
        },
    decreases toks.len() - i,
{
    if i < toks.len() {
        netlist::lemma_numbers_len::<R>(toks, i + 1);
        let v = netlist::numbers::<R>(toks, i + 1);
        let next = i + 1 + v.len();
        if toks[i] == "dc"@ {
            lemma_source_cornered(toks, next, netlist::entry(v, 0, R::nil()), ac, wave);
        } else if toks[i] == "ac"@ {
            lemma_source_cornered(toks, next, dc, netlist::entry(v, 0, R::unit()), wave);
        } else if toks[i] == "sin"@ {
            lemma_source_cornered(toks, next, dc, ac, Some(netlist::sin_course(v)));
        } else if toks[i] == "pulse"@ {
            lemma_source_cornered(toks, next, dc, ac, Some(netlist::pulse_course(v)));
        } else if toks[i] == "pwl"@ {
            if netlist::pairs(v).len() > 0 {
                lemma_source_cornered(
                    toks,
                    next,
                    dc,
                    ac,
                    Some(WaveModel::Pwl { pts: netlist::pairs(v), per: R::nil() }),
                );
            }
        } else {
            match number::value::<R>(toks[i]) {
                Some(x) => lemma_source_cornered(toks, i + 1, x, ac, wave),
                None => lemma_source_cornered(toks, i + 1, dc, ac, wave),
            }
        }
    }
}

/// A part and its capacitances sit on nodes that exist.
spec fn part_placed<R>(q: Part<R>, nn: int) -> bool {
    &&& q.dev.placed(nn)
    &&& forall|i: int| 0 <= i < q.caps.len() ==> (#[trigger] q.caps[i]).0 < nn && q.caps[i].1 < nn
}

proof fn lemma_part_placed<R: Real>(
    toks: Seq<Seq<char>>,
    models: Seq<(Seq<char>, Seq<Seq<char>>)>,
    nodes: Seq<Seq<char>>,
)
    requires
        nodes_sound(nodes),
        netlist::with_terminals(nodes, toks, netlist::terminals(toks[0][0])).len() <= usize::MAX,
    ensures
        match netlist::part::<R>(toks, models, nodes) {
            Ok(q) => part_placed(
                q,
                netlist::with_terminals(nodes, toks, netlist::terminals(toks[0][0])).len() as int,
            ),
            Err(e) => true,
        },
{
    let k = netlist::terminals(toks[0][0]);
    lemma_terminal(nodes, toks, k, 1);
    lemma_terminal(nodes, toks, k, 2);
    if k >= 3 {
        lemma_terminal(nodes, toks, k, 3);
    }
    if k >= 4 {
        lemma_terminal(nodes, toks, k, 4);
    }
    lemma_source_cornered::<R>(toks.skip(3), 0, R::nil(), R::nil(), None);
}

proof fn lemma_cap_devs<R: Real>(caps: Seq<(usize, usize, R, R)>, k: int, nn: int)
    requires
        0 <= k <= caps.len(),
        forall|i: int| 0 <= i < caps.len() ==> (#[trigger] caps[i]).0 < nn && caps[i].1 < nn,
    ensures
        forall|i: int|
            0 <= i < netlist::cap_devs(caps, k).len() ==> (#[trigger] netlist::cap_devs(
                caps,
                k,
            )[i]).placed(nn),
    decreases k,
{
    if k > 0 {
        lemma_cap_devs(caps, k - 1, nn);
        let done = netlist::cap_devs(caps, k - 1);
        let all = netlist::cap_devs(caps, k);
        assert forall|i: int| 0 <= i < all.len() implies (#[trigger] all[i]).placed(nn) by {
            if i < done.len() {
                assert(done[i].placed(nn));
            }
        }
    }
}

/// What a statement makes of a deck.
spec fn next_deck<R: Real>(
    deck: Deck<R>,
    toks: Seq<Seq<char>>,
    models: Seq<(Seq<char>, Seq<Seq<char>>)>,
) -> Result<Deck<R>, ParseFault> {
    if text::begins(toks[0], "."@) {
        netlist::with_card(deck, toks)
    } else {
        netlist::with_device(deck, toks, models)
    }
}

proof fn lemma_next_nodes<R: Real>(
    deck: Deck<R>,
    toks: Seq<Seq<char>>,
    models: Seq<(Seq<char>, Seq<Seq<char>>)>,
)
    requires
        nodes_sound(deck.nodes),
        next_deck(deck, toks, models) is Ok,
    ensures
        nodes_sound(next_deck(deck, toks, models)->Ok_0.nodes),
        deck.nodes.len() <= next_deck(deck, toks, models)->Ok_0.nodes.len(),
{
    lemma_with_terminals(deck.nodes, toks, netlist::terminals(toks[0][0]));
}

proof fn lemma_next_sound<R: Real>(
    deck: Deck<R>,
    toks: Seq<Seq<char>>,
    models: Seq<(Seq<char>, Seq<Seq<char>>)>,
)
    requires
        deck_sound(deck),
        next_deck(deck, toks, models) is Ok,
        next_deck(deck, toks, models)->Ok_0.nodes.len() <= usize::MAX,
    ensures
        deck_sound(next_deck(deck, toks, models)->Ok_0),
{
    lemma_next_nodes(deck, toks, models);
    let next = next_deck(deck, toks, models)->Ok_0;
    if !text::begins(toks[0], "."@) {
        let nn = next.nodes.len() as int;
        lemma_part_placed::<R>(toks, models, deck.nodes);
        let q = netlist::part::<R>(toks, models, deck.nodes)->Ok_0;
        let more = netlist::cap_devs(q.caps, q.caps.len() as int);
        lemma_cap_devs(q.caps, q.caps.len() as int, nn);
        assert forall|i: int| 0 <= i < next.devs.len() implies (#[trigger] next.devs[i]).placed(nn) by {
            if i < deck.devs.len() {
                assert(deck.devs[i].placed(deck.nodes.len() as int));
            } else if i > deck.devs.len() {
                assert(more[i - deck.devs.len() - 1].placed(nn));
            }
        }
    }
}

proof fn lemma_deck_nodes<R: Real>(
    lines: Seq<Seq<char>>,
    models: Seq<(Seq<char>, Seq<Seq<char>>)>,
    i: int,
    deck: Deck<R>,
)
    requires
        0 <= i,
        nodes_sound(deck.nodes),
    ensures
        deck.nodes.len() <= netlist::deck_from(lines, models, i, deck).0.nodes.len(),
    decreases lines.len() - i,
{
    if i < lines.len() {
        let toks = text::words(lines[i]);
        if toks.len() == 0 {
            lemma_deck_nodes(lines, models, i + 1, deck);
        } else if toks[0] != ".end"@ && next_deck(deck, toks, models) is Ok {
            lemma_next_nodes(deck, toks, models);
            lemma_deck_nodes(lines, models, i + 1, next_deck(deck, toks, models)->Ok_0);
        }
    }
}

proof fn lemma_deck_sound<R: Real>(
    lines: Seq<Seq<char>>,
    models: Seq<(Seq<char>, Seq<Seq<char>>)>,
    i: int,
    deck: Deck<R>,
)
    requires
        0 <= i,
        deck_sound(deck),
        netlist::deck_from(lines, models, i, deck).0.nodes.len() <= usize::MAX,
    ensures
        deck_sound(netlist::deck_from(lines, models, i, deck).0),
    decreases lines.len() - i,
{
    if i < lines.len() {
        let toks = text::words(lines[i]);
        if toks.len() == 0 {
            lemma_deck_sound(lines, models, i + 1, deck);
        } else if toks[0] != ".end"@ && next_deck(deck, toks, models) is Ok {
            let next = next_deck(deck, toks, models)->Ok_0;
            lemma_next_nodes(deck, toks, models);
            lemma_deck_nodes(lines, models, i + 1, next);
            lemma_next_sound(deck, toks, models);
            lemma_deck_sound(lines, models, i + 1, next);
        }
    }
}

proof fn lemma_numbered_count<R>(devs: Seq<DevModel<R>>, nn: int, i: int)
    requires
        0 <= i <= devs.len(),
    ensures
        circuit::branch_count(netlist::numbered(devs, nn), i) == circuit::branch_count(devs, i),
    decreases i,
{
    if i > 0 {
        lemma_numbered_count(devs, nn, i - 1);
    }
}

proof fn lemma_assembled<R>(deck: Deck<R>)
    requires
        deck_sound(deck),
    ensures
        match netlist::assembled(deck) {
            Ok(c) => c.wf(),
            Err(e) => true,
        },
{
    if netlist::assembled(deck) is Ok {
        let c = netlist::assembled(deck)->Ok_0;
        let nn = deck.nodes.len() as int;
        let n = deck.devs.len() as int;
        lemma_numbered_count(deck.devs, nn, n);
        assert forall|i: int| 0 <= i < c.devs.len() implies (#[trigger] c.devs[i]).placed(nn) by {
            assert(deck.devs[i].placed(nn));
        }
        assert forall|i: int| 0 <= i < c.devs.len() && (#[trigger] c.devs[i]).has_branch() implies c.devs[i].branch()
            == nn + circuit::branch_count(c.devs, i) by {
            assert(deck.devs[i].has_branch());
            lemma_numbered_count(deck.devs, nn, i);
            circuit::lemma_branch_count(deck.devs, 0, i);
            circuit::lemma_branch_count(deck.devs, i, n);
        }
    }
}

/// A circuit that is read has every terminal on a node that exists, one name
/// per node, and its branch currents numbered without a gap behind the nodes.
pub proof fn read_circuits_are_sound<R: Real>(src: Seq<char>)
    ensures
        match netlist::reading::<R>(src).circuit {
            Ok(c) => c.wf() && nodes_sound(c.nodes),
            Err(e) => true,
        },
{
    let raw = text::lines(src);
    if netlist::reading::<R>(src).circuit is Ok {
        let lines = netlist::statements(raw, raw.len() as int)->Ok_0;
        let models = netlist::definitions(lines, lines.len() as int);
        let start = netlist::empty_deck::<R>();
        let deck = netlist::deck_from(lines, models, 0, start).0;
        reveal_strlit("0");
        reveal_strlit("gnd");
        assert("0"@.len() != "gnd"@.len());
        assert(nodes_sound(start.nodes));
        circuit::lemma_branch_count(deck.devs, 0, deck.devs.len() as int);
        lemma_deck_sound(lines, models, 0, start);
        lemma_assembled(deck);
    }
}

/// In a sound list every node is found under its own name, and ground under
/// both of its names.
pub proof fn nodes_are_found(nodes: Seq<Seq<char>>, i: int)
    requires
        nodes_sound(nodes),
        0 <= i < nodes.len(),
    ensures
        netlist::node_number(nodes, nodes[i]) == i,
        netlist::node_number(nodes, "0"@) == 0,
        netlist::node_number(nodes, "gnd"@) == 0,
{
    lemma_place(nodes, nodes[i]);
    lemma_place(nodes, "0"@);
    assert(nodes.contains(nodes[i]));
    reveal_strlit("0");
    reveal_strlit("gnd");
    assert("0"@.len() != "gnd"@.len());
    let k = netlist::place(nodes, nodes[i]);
    assert(k <= i);
    assert(nodes[k] == nodes[i]);
}

} // verus!
