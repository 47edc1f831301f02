//! What the words of a netlist mean, one by one.
use vstd::prelude::*;

use crate::circuit::{AnalysisModel, WaveModel};
use crate::fault::ParseFault;
use crate::netlist;
use crate::netlist::Deck;
use crate::num::Real;
use crate::number;
use crate::source_laws;
use crate::text;

verus! {

/// A parameter is set by its name, an equals sign and what stands behind it.
pub proof fn settings_follow_an_equals_sign(key: Seq<char>, v: Seq<char>, tok: Seq<char>)
    ensures
        netlist::sets(key + seq!['='] + v, key),
        netlist::setting(key + seq!['='] + v, key) == v,
        netlist::sets(tok, key) ==> tok == key + seq!['='] + netlist::setting(tok, key),
{
    reveal_strlit("=");
    let t = key + seq!['='] + v;
    let n = key.len() as int;
    assert("="@ =~= seq!['=']);
    assert(t.take(n) =~= key);
    assert(t.skip(n) =~= seq!['='] + v);
    assert((seq!['='] + v).take(1) =~= seq!['=']);
    assert(t.skip(n).skip(1) =~= v);
    if netlist::sets(tok, key) {
        assert(tok.skip(n).take(1) == seq!['=']);
        assert(tok.skip(n)[0] == tok.skip(n).take(1)[0]);
        assert forall|i: int| 0 <= i < n implies tok[i] == key[i] by {
            assert(tok.take(n)[i] == key[i]);
        }
        assert(tok =~= key + seq!['='] + netlist::setting(tok, key));
    }
}

proof fn lemma_param<R: Real>(toks: Seq<Seq<char>>, from: int, key: Seq<char>, default: R, i: int)
    requires
        0 <= from <= i <= toks.len(),
        forall|j: int| from <= j < i ==> !netlist::sets(#[trigger] toks[j], key),
    ensures
        netlist::param_from(toks, from, key, default) == netlist::param_from(
            toks,
            i,
            key,
            default,
        ),
    decreases i - from,
{
    if from < i {
        assert(!netlist::sets(toks[from], key));
        lemma_param(toks, from + 1, key, default, i);
    }
}

/// The first token that sets a parameter counts, and it has to be a number.
/// Where no token sets it, the default holds.
pub proof fn parameters_are_their_first_setting<R: Real>(
    toks: Seq<Seq<char>>,
    key: Seq<char>,
    default: R,
    i: int,
)
    requires
        0 <= i <= toks.len(),
        forall|j: int| 0 <= j < i ==> !netlist::sets(#[trigger] toks[j], key),
    ensures
        i == toks.len() ==> netlist::param(toks, key, default) == Ok::<R, ParseFault>(default),
        i < toks.len() && netlist::sets(toks[i], key) ==> match number::value::<R>(
            netlist::setting(toks[i], key),
        ) {
            Some(v) => netlist::param(toks, key, default) == Ok::<R, ParseFault>(v),
            None => netlist::param(toks, key, default) == Err::<R, ParseFault>(
                ParseFault::BadNumber(netlist::setting(toks[i], key)),
            ),
        },
{
    lemma_param(toks, 0, key, default, i);
}

/// Of several definitions under one name the last counts.
pub proof fn the_last_definition_counts(
    models: Seq<(Seq<char>, Seq<Seq<char>>)>,
    name: Seq<char>,
    k: int,
)
    requires
        -1 <= k < models.len(),
        forall|j: int| k < j < models.len() ==> (#[trigger] models[j]).0 != name,
        k >= 0 ==> models[k].0 == name,
    ensures
        netlist::defined(models, name) == if k >= 0 {
            Some(models[k].1)
        } else {
            None
        },
    decreases models.len(),
{
    if models.len() > 0 && k < models.len() - 1 {
        assert(models.last().0 != name);
        let rest = models.drop_last();
        assert forall|j: int| k < j < rest.len() implies (#[trigger] rest[j]).0 != name by {
            assert(models[j].0 != name);
        }
        the_last_definition_counts(rest, name, k);
    }
}

proof fn lemma_definitions_of_more(lines: Seq<Seq<char>>, line: Seq<char>, n: int)
    requires
        n <= lines.len(),
    ensures
        netlist::definitions(lines.push(line), n) == netlist::definitions(lines, n),
    decreases n,
{
    if n > 0 {
        lemma_definitions_of_more(lines, line, n - 1);
        assert(lines.push(line)[n - 1] == lines[n - 1]);
    }
}

/// A line of `.model`, a name and at least one more word defines the words
/// behind the name under it; no other line defines anything.
pub proof fn model_lines_define(lines: Seq<Seq<char>>, line: Seq<char>)
    ensures
        ({
            let before = netlist::definitions(lines, lines.len() as int);
            let after = netlist::definitions(lines.push(line), lines.len() as int + 1);
            let toks = text::words(line);
            if toks.len() >= 3 && toks[0] == ".model"@ {
                after == before.push((toks[1], toks.subrange(2, toks.len() as int)))
            } else {
                after == before
            }
        }),
{
    lemma_definitions_of_more(lines, line, lines.len() as int);
    let toks = text::words(line);
    if toks.len() >= 3 {
        assert(toks.skip(2) =~= toks.subrange(2, toks.len() as int));
    }
}

proof fn lemma_tokens_of_more(
    toks: Seq<Seq<char>>,
    tok: Seq<char>,
    models: Seq<(Seq<char>, Seq<Seq<char>>)>,
    from: int,
    hi: int,
)
    requires
        hi <= toks.len(),
    ensures
        netlist::own_tokens(toks.push(tok), models, from, hi) == netlist::own_tokens(
            toks,
            models,
            from,
            hi,
        ),
        netlist::model_tokens(toks.push(tok), models, from, hi) == netlist::model_tokens(
            toks,
            models,
            from,
            hi,
        ),
    decreases hi,
{
    if hi > from && hi > 0 {
        lemma_tokens_of_more(toks, tok, models, from, hi - 1);
        assert(toks.push(tok)[hi - 1] == toks[hi - 1]);
    }
}

/// From the place `from` on, a word that names a model adds the words of the
/// model to those lent, and any other word is one of the device's own. Words
/// ahead of that place are neither.
pub proof fn words_are_own_or_lent(
    toks: Seq<Seq<char>>,
    tok: Seq<char>,
    models: Seq<(Seq<char>, Seq<Seq<char>>)>,
    from: int,
)
    requires
        from >= 0,
    ensures
        ({
            let more = toks.push(tok);
            let own = netlist::own_from(toks, models, from);
            let lent = netlist::lent_from(toks, models, from);
            let (now_own, now_lent) = (
                netlist::own_from(more, models, from),
                netlist::lent_from(more, models, from),
            );
            &&& toks.len() <= from ==> own.len() == 0 && lent.len() == 0
            &&& toks.len() < from ==> now_own.len() == 0 && now_lent.len() == 0
            &&& toks.len() >= from ==> match netlist::defined(models, tok) {
                Some(m) => now_own == own && now_lent == lent + m,
                None => now_own == own.push(tok) && now_lent == lent,
            }
        }),
{
    lemma_tokens_of_more(toks, tok, models, from, toks.len() as int);
}

/// A print card names its columns by two words each, as in `v out`.
pub proof fn print_cards_name_columns(toks: Seq<Seq<char>>, i: int, k: int)
    requires
        0 <= i <= toks.len(),
        0 <= k < (toks.len() - i) / 2,
    ensures
        netlist::columns_from(toks, i).len() == (toks.len() - i) / 2,
        netlist::columns_from(toks, i)[k] == toks[i + 2 * k] + seq!['('] + toks[i + 2 * k + 1]
            + seq![')'],
    decreases toks.len() - i,
{
    reveal_strlit("(");
    reveal_strlit(")");
    assert("("@ =~= seq!['(']);
    assert(")"@ =~= seq![')']);
    lemma_column_count(toks, i);
    if k > 0 {
        print_cards_name_columns(toks, i + 2, k - 1);
    }
}

proof fn lemma_column_count(toks: Seq<Seq<char>>, i: int)
    requires
        0 <= i <= toks.len(),
    ensures
        netlist::columns_from(toks, i).len() == (toks.len() - i) / 2,
    decreases toks.len() - i,
{
    if i + 1 < toks.len() {
        lemma_column_count(toks, i + 2);
    }
}

/// The analysis is the one that the words of a control card ask for.
pub open spec fn asked<R: Real>(toks: Seq<Seq<char>>, a: AnalysisModel<R>) -> bool {
    match a {
        AnalysisModel::Op => toks[0] == ".op"@,
        AnalysisModel::Dc { src, start, stop, step } => {
            &&& toks[0] == ".dc"@
            &&& toks.len() > 4
            &&& src == toks[1]
            &&& number::value::<R>(toks[2]) == Some(start)
            &&& number::value::<R>(toks[3]) == Some(stop)
            &&& number::value::<R>(toks[4]) == Some(step)
        },
        AnalysisModel::Tran { tstep, tstop, uic } => {
            &&& toks[0] == ".tran"@
            &&& toks.len() > 2
            &&& number::value::<R>(toks[1]) == Some(tstep)
            &&& number::value::<R>(toks[2]) == Some(tstop)
            &&& uic <==> toks.contains("uic"@)
        },
        AnalysisModel::Ac { dec, n, f1, f2 } => {
            &&& toks[0] == ".ac"@
            &&& toks.len() > 4
            &&& toks[1] == if dec {
                "dec"@
            } else {
                "lin"@
            }
            &&& number::value::<R>(toks[2]) matches Some(v)
            &&& n == v.whole()
            &&& number::value::<R>(toks[3]) == Some(f1)
            &&& number::value::<R>(toks[4]) == Some(f2)
        },
    }
}

proof fn lemma_card(tok: Seq<char>, name: Seq<char>)
    requires
        tok.len() > 0,
        tok[0] == '.',
        tok.skip(1) == name,
    ensures
        tok == seq!['.'] + name,
{
    assert(tok =~= seq!['.'] + tok.skip(1));
}

proof fn lemma_card_names()
    ensures
        ".op"@ == seq!['.'] + "op"@,
        ".dc"@ == seq!['.'] + "dc"@,
        ".tran"@ == seq!['.'] + "tran"@,
        ".ac"@ == seq!['.'] + "ac"@,
        ".print"@ == seq!['.'] + "print"@,
        ".model"@ == seq!['.'] + "model"@,
        "."@.len() == 1,
{
    reveal_strlit(".");
    reveal_strlit("op");
    reveal_strlit("dc");
    reveal_strlit("tran");
    reveal_strlit("ac");
    reveal_strlit("print");
    reveal_strlit("model");
    reveal_strlit(".op");
    reveal_strlit(".dc");
    reveal_strlit(".tran");
    reveal_strlit(".ac");
    reveal_strlit(".print");
    reveal_strlit(".model");
    assert(".op"@ =~= seq!['.'] + "op"@);
    assert(".dc"@ =~= seq!['.'] + "dc"@);
    assert(".tran"@ =~= seq!['.'] + "tran"@);
    assert(".ac"@ =~= seq!['.'] + "ac"@);
    assert(".print"@ =~= seq!['.'] + "print"@);
    assert(".model"@ =~= seq!['.'] + "model"@);
}

/// The word names a card that the reader knows.
pub open spec fn is_known_card(tok: Seq<char>) -> bool {
    is_analysis_card(tok) || tok == ".print"@ || tok == ".model"@
}

pub open spec fn is_analysis_card(tok: Seq<char>) -> bool {
    tok == ".op"@ || tok == ".dc"@ || tok == ".tran"@ || tok == ".ac"@
}

/// An analysis card adds the analysis it asks for, a print card its columns,
/// a model card nothing; any other card is noted and passed over. No card
/// touches the devices.
pub proof fn cards_add_what_they_ask_for<R: Real>(deck: Deck<R>, toks: Seq<Seq<char>>)
    requires
        toks.len() > 0,
        toks[0].len() > 0,
        toks[0][0] == '.',
        netlist::with_card(deck, toks) is Ok,
    ensures
        ({
            let next = netlist::with_card(deck, toks)->Ok_0;
            let n = deck.analyses.len() as int;
            &&& next.nodes == deck.nodes
            &&& next.devs == deck.devs
            &&& next.names == deck.names
            &&& if is_analysis_card(toks[0]) {
                &&& next.analyses.len() == n + 1
                &&& next.analyses.take(n) == deck.analyses
                &&& asked(toks, next.analyses[n])
            } else {
                next.analyses == deck.analyses
            }
            &&& if toks[0] == ".print"@ {
                next.prints == deck.prints + netlist::columns_from(toks, 1)
            } else {
                next.prints == deck.prints
            }
            &&& if is_known_card(toks[0]) {
                next.ignored == deck.ignored
            } else {
                next.ignored == deck.ignored.push(toks[0].skip(1))
            }
        }),
{
    lemma_card_names();
    let name = toks[0].skip(1);
    lemma_card(toks[0], name);
    let next = netlist::with_card(deck, toks)->Ok_0;
    assert((seq!['.'] + "op"@).skip(1) =~= "op"@);
    assert((seq!['.'] + "dc"@).skip(1) =~= "dc"@);
    assert((seq!['.'] + "tran"@).skip(1) =~= "tran"@);
    assert((seq!['.'] + "ac"@).skip(1) =~= "ac"@);
    assert((seq!['.'] + "print"@).skip(1) =~= "print"@);
    assert((seq!['.'] + "model"@).skip(1) =~= "model"@);
    lemma_names_differ();
    assert(next.analyses.take(deck.analyses.len() as int) =~= deck.analyses);
}

proof fn lemma_names_differ()
    ensures
        "op"@ != "dc"@,
        "op"@ != "tran"@,
        "op"@ != "ac"@,
        "op"@ != "print"@,
        "op"@ != "model"@,
        "dc"@ != "tran"@,
        "dc"@ != "ac"@,
        "dc"@ != "print"@,
        "dc"@ != "model"@,
        "tran"@ != "ac"@,
        "tran"@ != "print"@,
        "tran"@ != "model"@,
        "ac"@ != "print"@,
        "ac"@ != "model"@,
        "print"@ != "model"@,
{
    reveal_strlit("op");
    reveal_strlit("dc");
    reveal_strlit("tran");
    reveal_strlit("ac");
    reveal_strlit("print");
    reveal_strlit("model");
    assert("op"@[0] == 'o' && "dc"@[0] == 'd' && "tran"@[0] == 't' && "ac"@[0] == 'a'
        && "print"@[0] == 'p' && "model"@[0] == 'm');
}

/// The statements are read one after the other: one more statement acts on
/// what was read before it.
pub proof fn statements_follow_one_another<R: Real>(
    lines: Seq<Seq<char>>,
    line: Seq<char>,
    models: Seq<(Seq<char>, Seq<Seq<char>>)>,
    i: int,
    deck: Deck<R>,
)
    requires
        0 <= i <= lines.len(),
        netlist::deck_from(lines, models, i, deck).1 is None,
        forall|k: int|
            i <= k < lines.len() ==> !(text::words(#[trigger] lines[k]).len() > 0
                && text::words(lines[k])[0] == ".end"@),
    ensures
        ({
            let before = netlist::deck_from(lines, models, i, deck).0;
            let after = netlist::deck_from(lines.push(line), models, i, deck);
            let toks = text::words(line);
            if toks.len() == 0 || toks[0] == ".end"@ {
                after == (before, None::<ParseFault>)
            } else {
                let next = if toks[0].len() > 0 && toks[0][0] == '.' {
                    netlist::with_card(before, toks)
                } else {
                    netlist::with_device(before, toks, models)
                };
                match next {
                    Ok(d) => after == (d, None::<ParseFault>),
                    Err(e) => after == (before, Some(e)),
                }
            }
        }),
    decreases lines.len() - i,
{
    let more = lines.push(line);
    reveal_strlit(".");
    if i < lines.len() {
        assert(more[i] == lines[i]);
        let toks = text::words(lines[i]);
        if toks.len() == 0 {
            statements_follow_one_another(lines, line, models, i + 1, deck);
        } else {
            assert(toks[0] != ".end"@);
            let next = if text::begins(toks[0], "."@) {
                netlist::with_card(deck, toks)
            } else {
                netlist::with_device(deck, toks, models)
            };
            statements_follow_one_another(lines, line, models, i + 1, next->Ok_0);
        }
    } else {
        assert(more[i] == line);
        let toks = text::words(line);
        if toks.len() > 0 {
            if text::begins(toks[0], "."@) {
                assert(toks[0].take(1)[0] == toks[0][0]);
            } else if toks[0].len() > 0 && toks[0][0] == '.' {
                assert(toks[0].take(1) =~= "."@);
            }
        }
        reveal_with_fuel(netlist::deck_from, 2);
    }
}

/// A circuit holds what was read: devices, names, nodes, analyses and columns
/// in their order, with ground alone before the first line.
pub proof fn circuits_hold_what_was_read<R: Real>(src: Seq<char>)
    requires
        netlist::reading::<R>(src).circuit is Ok,
    ensures
        ({
            let raw = text::lines(src);
            let lines = netlist::statements(raw, raw.len() as int)->Ok_0;
            let models = netlist::definitions(lines, lines.len() as int);
            let start = Deck {
                nodes: seq![seq!['0']],
                devs: Seq::empty(),
                names: Seq::empty(),
                analyses: Seq::empty(),
                prints: Seq::empty(),
                ignored: Seq::empty(),
            };
            let (deck, fault) = netlist::deck_from::<R>(lines, models, 0, start);
            let c = netlist::reading::<R>(src).circuit->Ok_0;
            &&& fault is None
            &&& c.nodes == deck.nodes
            &&& c.names == deck.names
            &&& c.analyses == deck.analyses
            &&& c.prints == deck.prints
            &&& c.devs.len() == deck.devs.len()
            &&& netlist::reading::<R>(src).ignored == deck.ignored
        }),
{
    reveal_strlit("0");
    assert("0"@ =~= seq!['0']);
    assert(netlist::empty_deck::<R>().nodes =~= seq![seq!['0']]);
}

/// `v` is the number that the word at place `i` denotes, or `default` where
/// there is no such word.
pub open spec fn word_or<R: Real>(g: Seq<Seq<char>>, i: int, default: R, v: R) -> bool {
    if i < g.len() {
        number::value::<R>(g[i]) == Some(v)
    } else {
        v == default
    }
}

proof fn lemma_numbers<R: Real>(g: Seq<Seq<char>>, from: int)
    requires
        1 <= from <= g.len(),
        forall|i: int| 1 <= i < g.len() ==> number::value::<R>(#[trigger] g[i]) is Some,
    ensures
        netlist::numbers::<R>(g, from).len() == g.len() - from,
        forall|k: int|
            0 <= k < g.len() - from ==> number::value::<R>(g[from + k]) == Some(
                #[trigger] netlist::numbers::<R>(g, from)[k],
            ),
    decreases g.len() - from,
{
    if from < g.len() {
        lemma_numbers::<R>(g, from + 1);
        let all = netlist::numbers::<R>(g, from);
        let rest = netlist::numbers::<R>(g, from + 1);
        assert forall|k: int| 0 <= k < g.len() - from implies number::value::<R>(g[from + k])
            == Some(#[trigger] all[k]) by {
            if k > 0 {
                assert(all[k] == rest[k - 1]);
                assert(number::value::<R>(g[from + 1 + (k - 1)]) == Some(rest[k - 1]));
            }
        }
    }
}

/// The course that the words of a waveform group give.
pub open spec fn is_given<R: Real>(w: Seq<Seq<char>>, course: Option<WaveModel<R>>) -> bool {
    if w.len() == 0 {
        course is None
    } else if w[0] == "sin"@ {
        match course {
            Some(WaveModel::Sin { vo, va, fr, td, theta }) => {
                &&& word_or(w, 1, R::nil(), vo)
                &&& word_or(w, 2, R::nil(), va)
                &&& word_or(w, 3, R::nil(), fr)
                &&& word_or(w, 4, R::nil(), td)
                &&& word_or(w, 5, R::nil(), theta)
            },
            _ => false,
        }
    } else if w[0] == "pulse"@ {
        match course {
            Some(WaveModel::Pwl { pts, per }) => {
                &&& pts.len() == 4
                &&& word_or(w, 1, R::nil(), pts[0].1)
                &&& word_or(w, 2, R::nil(), pts[1].1)
                &&& pts[2].1 == pts[1].1
                &&& pts[3].1 == pts[0].1
                &&& word_or(w, 3, R::nil(), pts[0].0)
                &&& exists|rise: R|
                    #[trigger] word_or(w, 4, R::nil(), rise) && pts[1].0 == pts[0].0.plus(
                        rise.greater_of(R::decimal(1, -12)),
                    )
                &&& exists|width: R|
                    #[trigger] word_or(w, 6, R::largest().over(R::decimal(4, 0)), width)
                        && pts[2].0 == pts[1].0.plus(width)
                &&& exists|fall: R|
                    #[trigger] word_or(w, 5, R::nil(), fall) && pts[3].0 == pts[2].0.plus(
                        fall.greater_of(R::decimal(1, -12)),
                    )
                &&& word_or(w, 7, R::nil(), per)
            },
            _ => false,
        }
    } else {
        match course {
            Some(WaveModel::Pwl { pts, per }) => {
                &&& pts.len() == (w.len() - 1) / 2
                &&& per == R::nil()
                &&& forall|k: int|
                    0 <= k < pts.len() ==> number::value::<R>(w[2 * k + 1]) == Some(
                        (#[trigger] pts[k]).0,
                    ) && number::value::<R>(w[2 * k + 2]) == Some(pts[k].1)
            },
            _ => false,
        }
    }
}

/// What the groups of a source line give: `dc` and `ac` the number behind
/// them, with `ac` alone standing for one, and a waveform group the course
/// made of its numbers.
pub proof fn groups_give_their_numbers<R: Real>(
    d: Seq<Seq<char>>,
    a: Seq<Seq<char>>,
    w: Seq<Seq<char>>,
)
    requires
        d.len() == 0 || source_laws::is_group::<R>(d, "dc"@),
        a.len() == 0 || source_laws::is_group::<R>(a, "ac"@),
        w.len() == 0 || source_laws::is_course::<R>(w),
    ensures
        match netlist::source::<R>(d + a + w) {
            Ok((dc, ac, course)) => {
                &&& word_or(d, 1, R::nil(), dc)
                &&& a.len() == 0 ==> ac == R::nil()
                &&& a.len() > 0 ==> word_or(a, 1, R::unit(), ac)
                &&& is_given(w, course)
            },
            Err(_) => false,
        },
{
    source_laws::source_groups_are_independent::<R>(d, a, w);
    if d.len() > 0 {
        lemma_numbers::<R>(d, 1);
    }
    if a.len() > 0 {
        lemma_numbers::<R>(a, 1);
    }
    if w.len() > 0 {
        lemma_numbers::<R>(w, 1);
        lemma_course::<R>(w);
    }
}

proof fn lemma_course<R: Real>(w: Seq<Seq<char>>)
    requires
        w.len() > 0,
        source_laws::is_course::<R>(w),
        netlist::numbers::<R>(w, 1).len() == w.len() - 1,
        forall|k: int|
            0 <= k < w.len() - 1 ==> number::value::<R>(w[1 + k]) == Some(
                #[trigger] netlist::numbers::<R>(w, 1)[k],
            ),
    ensures
        is_given(w, source_laws::given_course::<R>(w)),
{
    let v = netlist::numbers::<R>(w, 1);
    let course = source_laws::given_course::<R>(w);
    source_laws::lemma_keywords_differ();
    if w[0] == "pulse"@ {
        let rise = netlist::entry(v, 3, R::nil());
        let fall = netlist::entry(v, 4, R::nil());
        let width = netlist::entry(v, 5, R::largest().over(R::decimal(4, 0)));
        assert(word_or(w, 4, R::nil(), rise));
        assert(word_or(w, 5, R::nil(), fall));
        assert(word_or(w, 6, R::largest().over(R::decimal(4, 0)), width));
        assert(word_or(w, 1, R::nil(), netlist::entry(v, 0, R::nil())));
        assert(word_or(w, 2, R::nil(), netlist::entry(v, 1, R::nil())));
        assert(word_or(w, 3, R::nil(), netlist::entry(v, 2, R::nil())));
        assert(word_or(w, 7, R::nil(), netlist::entry(v, 6, R::nil())));
    } else if w[0] != "sin"@ {
        let pts = netlist::pairs(v);
        assert forall|k: int| 0 <= k < pts.len() implies number::value::<R>(w[2 * k + 1]) == Some(
            (#[trigger] pts[k]).0,
        ) && number::value::<R>(w[2 * k + 2]) == Some(pts[k].1) by {
            assert(number::value::<R>(w[1 + 2 * k]) == Some(v[2 * k]));
            assert(number::value::<R>(w[1 + (2 * k + 1)]) == Some(v[2 * k + 1]));
        }
    }
}

/// A number with letters behind it: the longest part that is a number counts,
/// times what the first letter behind it stands for.
pub proof fn suffixes_scale<R: Real>(t: Seq<char>, end: int)
    requires
        0 < end <= t.len(),
        text::trimmed(t) == t,
        vstd::utf8::is_ascii_chars(t),
        '0' <= t[0] <= '9' || t[0] == '+' || t[0] == '-' || t[0] == '.',
        R::read(t.take(end)) is Some,
        forall|e: int| end < e <= t.len() ==> R::read(#[trigger] t.take(e)) is None,
    ensures
        ({
            let x = R::read(t.take(end))->0;
            let v = number::value::<R>(t);
            let c = t[end];
            let meg = end + 2 < t.len() && t[end] == 'm' && t[end + 1] == 'e' && t[end + 2]
                == 'g';
            &&& end == t.len() ==> v == Some(x.times(R::unit()))
            &&& end < t.len() && meg ==> v == Some(x.times(R::decimal(1, 6)))
            &&& end < t.len() && c == 't' ==> v == Some(x.times(R::decimal(1, 12)))
            &&& end < t.len() && c == 'g' ==> v == Some(x.times(R::decimal(1, 9)))
            &&& end < t.len() && c == 'k' ==> v == Some(x.times(R::decimal(1, 3)))
            &&& end < t.len() && c == 'm' && !meg ==> v == Some(x.times(R::decimal(1, -3)))
            &&& end < t.len() && c == 'u' ==> v == Some(x.times(R::decimal(1, -6)))
            &&& end < t.len() && c == 'n' ==> v == Some(x.times(R::decimal(1, -9)))
            &&& end < t.len() && c == 'p' ==> v == Some(x.times(R::decimal(1, -12)))
            &&& end < t.len() && c == 'f' ==> v == Some(x.times(R::decimal(1, -15)))
            &&& end < t.len() && c != 't' && c != 'g' && c != 'k' && c != 'm' && c != 'u' && c
                != 'n' && c != 'p' && c != 'f' ==> v == Some(x.times(R::unit()))
        }),
{
    lemma_numeral::<R>(t, t.len() as int, end);
    let rest = t.skip(end);
    reveal_strlit("meg");
    reveal_strlit("t");
    reveal_strlit("g");
    reveal_strlit("k");
    reveal_strlit("m");
    reveal_strlit("u");
    reveal_strlit("n");
    reveal_strlit("p");
    reveal_strlit("f");
    lemma_begins(rest, "t"@);
    lemma_begins(rest, "g"@);
    lemma_begins(rest, "k"@);
    lemma_begins(rest, "m"@);
    lemma_begins(rest, "u"@);
    lemma_begins(rest, "n"@);
    lemma_begins(rest, "p"@);
    lemma_begins(rest, "f"@);
    if rest.len() >= 3 {
        if text::begins(rest, "meg"@) {
            assert(rest.take(3)[0] == 'm' && rest.take(3)[1] == 'e' && rest.take(3)[2] == 'g');
        }
        if rest[0] == 'm' && rest[1] == 'e' && rest[2] == 'g' {
            assert(rest.take(3) =~= "meg"@);
        }
    }
}

proof fn lemma_begins(s: Seq<char>, p: Seq<char>)
    requires
        p.len() == 1,
    ensures
        text::begins(s, p) <==> s.len() > 0 && s[0] == p[0],
{
    if s.len() > 0 && s[0] == p[0] {
        assert(s.take(1) =~= p);
    }
    if text::begins(s, p) {
        assert(s.take(1)[0] == p[0]);
    }
}

proof fn lemma_numeral<R: Real>(t: Seq<char>, from: int, end: int)
    requires
        0 < end <= from <= t.len(),
        R::read(t.take(end)) is Some,
        forall|e: int| end < e <= from ==> R::read(#[trigger] t.take(e)) is None,
    ensures
        number::numeral::<R>(t, from) == end,
    decreases from,
{
    if end < from {
        assert(R::read(t.take(from)) is None);
        lemma_numeral::<R>(t, from - 1, end);
    }
}

proof fn lemma_words_of_solid(cur: Seq<char>, w: Seq<char>)
    requires
        cur.len() + w.len() > 0,
        forall|i: int| 0 <= i < w.len() ==> !text::is_space(#[trigger] w[i]),
    ensures
        text::words_after(cur, w) == seq![cur + w],
    decreases w.len(),
{
    if w.len() > 0 {
        assert(!text::is_space(w[0]));
        assert forall|i: int| 0 <= i < w.drop_first().len() implies !text::is_space(
            #[trigger] w.drop_first()[i],
        ) by {
            assert(!text::is_space(w[i + 1]));
        }
        lemma_words_of_solid(cur.push(w[0]), w.drop_first());
        assert(cur.push(w[0]) + w.drop_first() =~= cur + w);
    } else {
        assert(cur + w =~= cur);
    }
}

proof fn lemma_words_of_two(cur: Seq<char>, a: Seq<char>, blank: char, b: Seq<char>)
    requires
        text::is_space(blank),
    ensures
        text::words_after(cur, a + seq![blank] + b) == text::words_after(cur, a) + text::words(b),
    decreases a.len(),
{
    let s = a + seq![blank] + b;
    if a.len() == 0 {
        assert(s.drop_first() =~= b);
    } else {
        assert(s.drop_first() =~= a.drop_first() + seq![blank] + b);
        if text::is_space(a[0]) {
            lemma_words_of_two(Seq::empty(), a.drop_first(), blank, b);
            let head: Seq<Seq<char>> = if cur.len() == 0 {
                seq![]
            } else {
                seq![cur]
            };
            assert(head + (text::words_after(Seq::empty(), a.drop_first()) + text::words(b)) =~= (
            head + text::words_after(Seq::empty(), a.drop_first())) + text::words(b));
        } else {
            lemma_words_of_two(cur.push(a[0]), a.drop_first(), blank, b);
        }
    }
}

/// White space parts words, and a text without any is one word.
pub proof fn blanks_part_words(a: Seq<char>, blank: char, b: Seq<char>)
    requires
        text::is_space(blank),
    ensures
        text::words(a + seq![blank] + b) == text::words(a) + text::words(b),
        a.len() == 0 ==> text::words(a).len() == 0,
        a.len() > 0 && (forall|i: int| 0 <= i < a.len() ==> !text::is_space(#[trigger] a[i]))
            ==> text::words(a) == seq![a],
{
    lemma_words_of_two(Seq::empty(), a, blank, b);
    if a.len() > 0 && (forall|i: int| 0 <= i < a.len() ==> !text::is_space(#[trigger] a[i])) {
        lemma_words_of_solid(Seq::empty(), a);
        assert(Seq::<char>::empty() + a =~= a);
    }
}

proof fn lemma_pieces_of_two(
    cur: Seq<char>,
    a: Seq<char>,
    c: char,
    b: Seq<char>,
    sep: spec_fn(char) -> bool,
)
    requires
        sep(c),
    ensures
        text::pieces(cur, a + seq![c] + b, sep) == text::pieces(cur, a, sep) + text::pieces(
            Seq::empty(),
            b,
            sep,
        ),
    decreases a.len(),
{
    let s = a + seq![c] + b;
    if a.len() == 0 {
        assert(s.drop_first() =~= b);
    } else {
        assert(s.drop_first() =~= a.drop_first() + seq![c] + b);
        if sep(a[0]) {
            lemma_pieces_of_two(Seq::empty(), a.drop_first(), c, b, sep);
            assert(seq![cur] + (text::pieces(Seq::empty(), a.drop_first(), sep) + text::pieces(
                Seq::empty(),
                b,
                sep,
            )) =~= (seq![cur] + text::pieces(Seq::empty(), a.drop_first(), sep)) + text::pieces(
                Seq::empty(),
                b,
                sep,
            ));
        } else {
            lemma_pieces_of_two(cur.push(a[0]), a.drop_first(), c, b, sep);
        }
    }
}

proof fn lemma_one_piece(cur: Seq<char>, s: Seq<char>, sep: spec_fn(char) -> bool)
    requires
        forall|i: int| 0 <= i < s.len() ==> !sep(#[trigger] s[i]),
    ensures
        text::pieces(cur, s, sep) == seq![cur + s],
    decreases s.len(),
{
    if s.len() > 0 {
        assert(!sep(s[0]));
        assert forall|i: int| 0 <= i < s.drop_first().len() implies !sep(
            #[trigger] s.drop_first()[i],
        ) by {
            assert(!sep(s[i + 1]));
        }
        lemma_one_piece(cur.push(s[0]), s.drop_first(), sep);
        assert(cur.push(s[0]) + s.drop_first() =~= cur + s);
    } else {
        assert(cur + s =~= cur);
    }
}

/// A newline parts lines, and a text without any is one line.
pub proof fn newlines_part_lines(a: Seq<char>, b: Seq<char>)
    ensures
        text::lines(a + seq!['\n'] + b) == text::lines(a) + text::lines(b),
        (forall|i: int| 0 <= i < a.len() ==> #[trigger] a[i] != '\n') ==> text::lines(a)
            == seq![a],
{
    let sep = |c: char| c == '\n';
    lemma_pieces_of_two(Seq::empty(), a, '\n', b, sep);
    if forall|i: int| 0 <= i < a.len() ==> #[trigger] a[i] != '\n' {
        assert forall|i: int| 0 <= i < a.len() implies !sep(#[trigger] a[i]) by {}
        lemma_one_piece(Seq::empty(), a, sep);
        assert(Seq::<char>::empty() + a =~= a);
    }
}

proof fn lemma_same_seen(a: Seq<char>, b: Seq<char>)
    requires
        a.len() == b.len(),
        forall|i: int| 0 <= i < a.len() ==> netlist::seen(#[trigger] a[i]) == netlist::seen(b[i]),
        forall|i: int| 0 <= i < a.len() ==> (#[trigger] a[i] == ';' <==> b[i] == ';'),
    ensures
        netlist::uncommented(a).len() == netlist::uncommented(b).len(),
        forall|i: int|
            0 <= i < netlist::uncommented(a).len() ==> netlist::seen(
                #[trigger] netlist::uncommented(a)[i],
            ) == netlist::seen(netlist::uncommented(b)[i]),
    decreases a.len(),
{
    if a.len() > 0 && a[0] != ';' {
        let (ra, rb) = (a.drop_first(), b.drop_first());
        assert forall|i: int| 0 <= i < ra.len() implies netlist::seen(#[trigger] ra[i])
            == netlist::seen(rb[i]) by {
            assert(netlist::seen(a[i + 1]) == netlist::seen(b[i + 1]));
        }
        assert forall|i: int| 0 <= i < ra.len() implies (#[trigger] ra[i] == ';' <==> rb[i]
            == ';') by {
            assert(a[i + 1] == ';' <==> b[i + 1] == ';');
        }
        lemma_same_seen(ra, rb);
        let (ua, ub) = (netlist::uncommented(a), netlist::uncommented(b));
        assert(b[0] != ';');
        assert forall|i: int| 0 <= i < ua.len() implies netlist::seen(#[trigger] ua[i])
            == netlist::seen(ub[i]) by {
            if i > 0 {
                assert(ua[i] == netlist::uncommented(ra)[i - 1]);
                assert(ub[i] == netlist::uncommented(rb)[i - 1]);
            } else {
                assert(netlist::seen(a[0]) == netlist::seen(b[0]));
            }
        }
    }
}

/// Parentheses and commas count as blanks, wherever they stand.
pub proof fn brackets_and_commas_are_blanks(a: Seq<char>, b: Seq<char>)
    requires
        a.len() == b.len(),
        forall|i: int|
            0 <= i < a.len() ==> {
                ||| #[trigger] a[i] == b[i]
                ||| (a[i] == '(' || a[i] == ')' || a[i] == ',') && b[i] == ' '
            },
    ensures
        netlist::cleaned(a) == netlist::cleaned(b),
{
    lemma_same_seen(a, b);
    let (u, v) = (netlist::uncommented(a), netlist::uncommented(b));
    assert(Seq::new(u.len(), |i: int| netlist::seen(u[i])) =~= Seq::new(
        v.len(),
        |i: int| netlist::seen(v[i]),
    ));
}

/// Capital letters are read as small ones, parentheses and commas as blanks,
/// and every other character as itself.
pub proof fn characters_are_seen(c: char)
    ensures
        'A' <= c <= 'Z' ==> netlist::seen(c) as int == c as int + 32,
        c == '(' || c == ')' || c == ',' ==> netlist::seen(c) == ' ',
        !('A' <= c <= 'Z' || c == '(' || c == ')' || c == ',') ==> netlist::seen(c) == c,
{
}

/// Without a semicolon a line has no comment.
pub proof fn lines_without_semicolon_are_whole(s: Seq<char>)
    requires
        forall|i: int| 0 <= i < s.len() ==> #[trigger] s[i] != ';',
    ensures
        netlist::uncommented(s) == s,
    decreases s.len(),
{
    if s.len() > 0 {
        assert(s[0] != ';');
        let rest = s.drop_first();
        assert forall|i: int| 0 <= i < rest.len() implies #[trigger] rest[i] != ';' by {
            assert(s[i + 1] != ';');
        }
        lines_without_semicolon_are_whole(rest);
        assert(seq![s[0]] + rest =~= s);
    }
}

proof fn lemma_trimmed_start(a: Seq<char>, t: Seq<char>)
    requires
        forall|i: int| 0 <= i < a.len() ==> text::is_space(#[trigger] a[i]),
        t.len() > 0 ==> !text::is_space(t[0]),
    ensures
        text::trimmed_start(a + t) == t,
    decreases a.len(),
{
    let s = a + t;
    if a.len() > 0 {
        assert(text::is_space(a[0]));
        assert(s.drop_first() =~= a.drop_first() + t);
        assert forall|i: int| 0 <= i < a.drop_first().len() implies text::is_space(
            #[trigger] a.drop_first()[i],
        ) by {
            assert(text::is_space(a[i + 1]));
        }
        lemma_trimmed_start(a.drop_first(), t);
    } else {
        assert(s =~= t);
    }
}

proof fn lemma_trimmed_end(t: Seq<char>, b: Seq<char>)
    requires
        forall|i: int| 0 <= i < b.len() ==> text::is_space(#[trigger] b[i]),
        t.len() > 0 ==> !text::is_space(t.last()),
    ensures
        text::trimmed_end(t + b) == t,
    decreases b.len(),
{
    let s = t + b;
    if b.len() > 0 {
        assert(text::is_space(b[b.len() - 1]));
        assert(s.drop_last() =~= t + b.drop_last());
        assert forall|i: int| 0 <= i < b.drop_last().len() implies text::is_space(
            #[trigger] b.drop_last()[i],
        ) by {
            assert(text::is_space(b[i]));
        }
        lemma_trimmed_end(t, b.drop_last());
    } else {
        assert(s =~= t);
    }
}

/// White space around a text does not count.
pub proof fn surrounding_blanks_are_trimmed(a: Seq<char>, t: Seq<char>, b: Seq<char>)
    requires
        forall|i: int| 0 <= i < a.len() ==> text::is_space(#[trigger] a[i]),
        forall|i: int| 0 <= i < b.len() ==> text::is_space(#[trigger] b[i]),
        t.len() > 0,
        !text::is_space(t[0]),
        !text::is_space(t.last()),
    ensures
        text::trimmed(a + t + b) == t,
        text::trimmed(a).len() == 0,
{
    assert(a + t + b =~= a + (t + b));
    lemma_trimmed_start(a, t + b);
    lemma_trimmed_end(t, b);
    lemma_trimmed_start(a, Seq::empty());
    assert(a + Seq::<char>::empty() =~= a);
}

/// A line behind the title that is neither blank nor a comment nor a
/// continuation is a statement of its own; a continuation needs something to
/// continue.
pub proof fn plain_lines_are_statements(raw: Seq<Seq<char>>, n: int)
    requires
        1 < n <= raw.len(),
        netlist::statements(raw, n - 1) is Ok,
        netlist::cleaned(raw[n - 1]).len() > 0,
    ensures
        ({
            let before = netlist::statements(raw, n - 1)->Ok_0;
            let after = netlist::statements(raw, n);
            let line = netlist::cleaned(raw[n - 1]);
            &&& line[0] != '*' && line[0] != '+' ==> after == Ok::<Seq<Seq<char>>, ParseFault>(
                before.push(line),
            )
            &&& line[0] == '+' && before.len() == 0 ==> after == Err::<
                Seq<Seq<char>>,
                ParseFault,
            >(ParseFault::NothingToContinue)
            &&& line[0] == '*' ==> after == Ok::<Seq<Seq<char>>, ParseFault>(before)
        }),
{
}

proof fn lemma_no_numeral<R: Real>(t: Seq<char>, end: int)
    requires
        forall|e: int| 0 < e <= end ==> R::read(#[trigger] t.take(e)) is None,
    ensures
        number::numeral::<R>(t, end) == 0,
    decreases end,
{
    if end > 0 {
        assert(R::read(t.take(end)) is None);
        lemma_no_numeral::<R>(t, end - 1);
    }
}

/// A text of which no beginning is a number is none, nor is one with other
/// than plain characters.
pub proof fn texts_without_numeral_are_no_numbers<R: Real>(t: Seq<char>)
    requires
        text::trimmed(t) == t,
    ensures
        !vstd::utf8::is_ascii_chars(t) ==> number::value::<R>(t) is None,
        (forall|e: int| 0 < e <= t.len() ==> R::read(#[trigger] t.take(e)) is None)
            ==> number::value::<R>(t) is None,
{
    if forall|e: int| 0 < e <= t.len() ==> R::read(#[trigger] t.take(e)) is None {
        lemma_no_numeral::<R>(t, t.len() as int);
    }
}

/// Of two groups of one kind on a source line the later counts.
pub proof fn later_groups_override<R: Real>(a: Seq<Seq<char>>, b: Seq<Seq<char>>)
    requires
        (source_laws::is_group::<R>(a, "dc"@) && source_laws::is_group::<R>(b, "dc"@)) || (
        source_laws::is_group::<R>(a, "ac"@) && source_laws::is_group::<R>(b, "ac"@)) || (
        source_laws::is_course::<R>(a) && source_laws::is_course::<R>(b)),
    ensures
        netlist::source::<R>(a + b) == netlist::source::<R>(b),
{
    let none = Seq::<Seq<char>>::empty();
    source_laws::lemma_keywords_differ();
    source_laws::lemma_three::<R>(a, b, none);
    source_laws::lemma_three::<R>(none, b, none);
    assert(a + b + none =~= a + b);
    assert(none + b + none =~= b);
}

/// A word on a source line that is neither a keyword nor a number is passed
/// over, and a piecewise linear course needs at least one pair of numbers.
pub proof fn other_words_are_passed_over<R: Real>(w: Seq<char>, rest: Seq<Seq<char>>)
    requires
        number::value::<R>(w) is None,
        w != "dc"@,
        w != "ac"@,
        w != "sin"@,
        w != "pulse"@,
    ensures
        w != "pwl"@ ==> netlist::source::<R>(seq![w] + rest) == netlist::source::<R>(rest),
        w == "pwl"@ && (rest.len() < 2 || number::value::<R>(rest[0]) is None || number::value::<
            R,
        >(rest[1]) is None) ==> netlist::source::<R>(seq![w] + rest) == Err::<
            (R, R, Option<WaveModel<R>>),
            ParseFault,
        >(ParseFault::NoCorners),
{
    let all = seq![w] + rest;
    assert(all[0] == w);
    source_laws::lemma_later_source::<R>(all, 1, rest, 0, (R::nil(), R::nil(), None));
    reveal_with_fuel(netlist::numbers, 3);
    if rest.len() > 0 {
        assert(all[1] == rest[0]);
    }
    if rest.len() > 1 {
        assert(all[2] == rest[1]);
    }
    assert(netlist::source::<R>(all) == netlist::source_from::<R>(
        all,
        0,
        R::nil(),
        R::nil(),
        None,
    ));
}

/// Which cards are refused: an analysis card with a number missing or one that
/// is none, and a small signal card whose first word is not the kind of a
/// range.
pub proof fn cards_need_their_numbers<R: Real>(deck: Deck<R>, toks: Seq<Seq<char>>)
    requires
        toks.len() > 0,
    ensures
        ({
            let num = |i: int| i < toks.len() && number::value::<R>(toks[i]) is Some;
            let next = netlist::with_card(deck, toks);
            &&& toks[0] == ".dc"@ ==> (next is Ok <==> num(2) && num(3) && num(4))
            &&& toks[0] == ".tran"@ ==> (next is Ok <==> num(1) && num(2))
            &&& toks[0] == ".ac"@ ==> (next is Ok <==> toks.len() > 1 && (toks[1] == "dec"@
                || toks[1] == "lin"@) && num(2) && num(3) && num(4))
            &&& toks[0] == ".ac"@ && toks.len() > 1 && toks[1] != "dec"@ && toks[1] != "lin"@
                ==> next == Err::<Deck<R>, ParseFault>(ParseFault::SweepKind)
            &&& toks[0] == ".op"@ ==> next is Ok
        }),
{
    lemma_card_names();
    assert((seq!['.'] + "op"@).skip(1) =~= "op"@);
    assert((seq!['.'] + "dc"@).skip(1) =~= "dc"@);
    assert((seq!['.'] + "tran"@).skip(1) =~= "tran"@);
    assert((seq!['.'] + "ac"@).skip(1) =~= "ac"@);
    lemma_names_differ();
}

/// What counts as white space: tabulators, line ends, the space and the other
/// blanks of the character set.
pub proof fn blanks_are_white_space(c: char)
    ensures
        text::is_space(c) <==> c == ' ' || '\t' <= c <= '\r' || c == '\u{85}' || c == '\u{a0}'
            || c == '\u{1680}' || '\u{2000}' <= c <= '\u{200a}' || c == '\u{2028}' || c
            == '\u{2029}' || c == '\u{202f}' || c == '\u{205f}' || c == '\u{3000}',
{
}

proof fn lemma_trimmed_start_solid(s: Seq<char>)
    ensures
        text::trimmed_start(s).len() > 0 ==> !text::is_space(text::trimmed_start(s)[0]),
    decreases s.len(),
{
    if s.len() > 0 && text::is_space(s[0]) {
        lemma_trimmed_start_solid(s.drop_first());
    }
}

proof fn lemma_trimmed_end_solid(s: Seq<char>)
    ensures
        text::trimmed_end(s).len() > 0 ==> !text::is_space(text::trimmed_end(s).last())
            && text::trimmed_end(s)[0] == s[0],
    decreases s.len(),
{
    if s.len() > 0 && text::is_space(s.last()) {
        lemma_trimmed_end_solid(s.drop_last());
    }
}

/// What is left of a line neither begins nor ends with white space, and a line
/// of plain characters that does not either is left as it is.
pub proof fn cleaned_lines_are_trimmed(s: Seq<char>)
    ensures
        netlist::cleaned(s).len() > 0 ==> !text::is_space(netlist::cleaned(s)[0])
            && !text::is_space(netlist::cleaned(s).last()),
        s.len() > 0 && !text::is_space(s[0]) && !text::is_space(s.last()) && (forall|i: int|
            0 <= i < s.len() ==> #[trigger] s[i] != ';' && s[i] != '(' && s[i] != ')' && s[i]
                != ',' && !('A' <= s[i] <= 'Z')) ==> netlist::cleaned(s) == s,
{
    let u = netlist::uncommented(s);
    let t = Seq::new(u.len(), |i: int| netlist::seen(u[i]));
    lemma_trimmed_start_solid(t);
    lemma_trimmed_end_solid(text::trimmed_start(t));
    if s.len() > 0 && !text::is_space(s[0]) && !text::is_space(s.last()) && (forall|i: int|
        0 <= i < s.len() ==> #[trigger] s[i] != ';' && s[i] != '(' && s[i] != ')' && s[i] != ','
            && !('A' <= s[i] <= 'Z')) {
        lines_without_semicolon_are_whole(s);
        assert(t =~= s);
        let none = Seq::<char>::empty();
        surrounding_blanks_are_trimmed(none, s, none);
        assert(none + s + none =~= s);
    }
}

} // verus!
