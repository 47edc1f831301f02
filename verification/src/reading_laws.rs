//! What does and what does not matter in a netlist.
use vstd::prelude::*;

use crate::fault::ParseFault;
use crate::netlist;
use crate::netlist::Deck;
use crate::num::Real;
use crate::text;

verus! {

proof fn lemma_same_statements(a: Seq<Seq<char>>, b: Seq<Seq<char>>, n: int)
    requires
        0 <= n <= a.len(),
        a.len() == b.len(),
        forall|i: int|
            1 <= i < a.len() ==> netlist::cleaned(#[trigger] a[i]) == netlist::cleaned(b[i]),
    ensures
        netlist::statements(a, n) == netlist::statements(b, n),
    decreases n,
{
    if n > 0 {
        lemma_same_statements(a, b, n - 1);
        if n > 1 {
            assert(netlist::cleaned(a[n - 1]) == netlist::cleaned(b[n - 1]));
        }
    }
}

/// Of a line only matters what is left of it without comment, letter case,
/// parentheses, commas and surrounding white space, and of the first line, the
/// title, nothing.
pub proof fn only_cleaned_lines_matter<R: Real>(a: Seq<char>, b: Seq<char>)
    requires
        text::lines(a).len() == text::lines(b).len(),
        forall|i: int|
            1 <= i < text::lines(a).len() ==> netlist::cleaned(#[trigger] text::lines(a)[i])
                == netlist::cleaned(text::lines(b)[i]),
    ensures
        netlist::reading::<R>(a) == netlist::reading::<R>(b),
{
    lemma_same_statements(text::lines(a), text::lines(b), text::lines(a).len() as int);
}

proof fn lemma_uncommented(a: Seq<char>, b: Seq<char>)
    ensures
        netlist::uncommented(a + seq![';'] + b) == netlist::uncommented(a),
    decreases a.len(),
{
    let s = a + seq![';'] + b;
    if a.len() == 0 {
        assert(s[0] == ';');
    } else if a[0] != ';' {
        lemma_uncommented(a.drop_first(), b);
        assert(s.drop_first() =~= a.drop_first() + seq![';'] + b);
    }
}

/// A semicolon and what follows it on a line do not matter.
pub proof fn trailing_comments_are_dropped(line: Seq<char>, comment: Seq<char>)
    ensures
        netlist::cleaned(line + seq![';'] + comment) == netlist::cleaned(line),
{
    lemma_uncommented(line, comment);
}

/// A line that is blank or starts with a star.
pub open spec fn says_nothing(line: Seq<char>) -> bool {
    let l = netlist::cleaned(line);
    l.len() == 0 || l[0] == '*'
}

proof fn lemma_statements_without(a: Seq<Seq<char>>, k: int, line: Seq<char>, n: int)
    requires
        1 <= k <= a.len(),
        0 <= n <= a.len(),
        says_nothing(line),
    ensures
        n < k ==> netlist::statements(a.insert(k, line), n) == netlist::statements(a, n),
        netlist::statements(a.insert(k, line), if n < k {
            n
        } else {
            n + 1
        }) == netlist::statements(a, n),
    decreases n,
{
    let b = a.insert(k, line);
    if n > 0 {
        lemma_statements_without(a, k, line, n - 1);
        if n < k {
            assert(b[n - 1] == a[n - 1]);
        } else if n == k {
            assert(b[k - 1] == a[k - 1]);
            assert(b[k] == line);
            assert(netlist::statements(b, k - 1) == netlist::statements(a, k - 1));
            assert(netlist::statements(b, k) == netlist::statements(a, k));
            assert(netlist::statements(b, k + 1) == netlist::statements(b, k));
        } else {
            assert(b[n] == a[n - 1]);
            assert(netlist::statements(b, n) == netlist::statements(a, n - 1));
        }
    }
}

/// Blank lines and comment lines behind the title do not matter.
pub proof fn comment_lines_are_dropped<R: Real>(a: Seq<char>, b: Seq<char>, k: int, line: Seq<char>)
    requires
        1 <= k <= text::lines(a).len(),
        says_nothing(line),
        text::lines(b) == text::lines(a).insert(k, line),
    ensures
        netlist::reading::<R>(b) == netlist::reading::<R>(a),
{
    lemma_statements_without(text::lines(a), k, line, text::lines(a).len() as int);
}

/// A text with its letters in lower case.
pub open spec fn small(s: Seq<char>) -> Seq<char> {
    Seq::new(s.len(), |i: int| text::lowered(s[i]))
}

proof fn lemma_small_pieces(cur: Seq<char>, s: Seq<char>, sep: spec_fn(char) -> bool)
    requires
        forall|c: char| #[trigger] sep(text::lowered(c)) == sep(c),
    ensures
        text::pieces(small(cur), small(s), sep).len() == text::pieces(cur, s, sep).len(),
        forall|i: int|
            0 <= i < text::pieces(cur, s, sep).len() ==> #[trigger] text::pieces(
                small(cur),
                small(s),
                sep,
            )[i] == small(text::pieces(cur, s, sep)[i]),
    decreases s.len(),
{
    if s.len() > 0 {
        assert(small(s)[0] == text::lowered(s[0]));
        assert(small(s).drop_first() =~= small(s.drop_first()));
        assert(sep(text::lowered(s[0])) == sep(s[0]));
        if sep(s[0]) {
            assert(small(Seq::empty()) =~= Seq::<char>::empty());
            lemma_small_pieces(Seq::empty(), s.drop_first(), sep);
        } else {
            assert(small(cur.push(s[0])) =~= small(cur).push(text::lowered(s[0])));
            lemma_small_pieces(cur.push(s[0]), s.drop_first(), sep);
        }
    }
}

proof fn lemma_small_uncommented(s: Seq<char>)
    ensures
        netlist::uncommented(small(s)) == small(netlist::uncommented(s)),
    decreases s.len(),
{
    if s.len() == 0 || s[0] == ';' {
        assert(small(Seq::empty()) =~= Seq::<char>::empty());
    } else {
        lemma_small_uncommented(s.drop_first());
        assert(small(s).drop_first() =~= small(s.drop_first()));
        assert(netlist::uncommented(s)[0] == s[0]);
        assert(small(netlist::uncommented(s)) =~= seq![text::lowered(s[0])] + small(
            netlist::uncommented(s.drop_first()),
        ));
    }
}

proof fn lemma_small_cleaned(s: Seq<char>)
    ensures
        netlist::cleaned(small(s)) == netlist::cleaned(s),
{
    lemma_small_uncommented(s);
    let u = netlist::uncommented(s);
    let v = netlist::uncommented(small(s));
    assert(Seq::new(u.len(), |i: int| netlist::seen(u[i])) =~= Seq::new(
        v.len(),
        |i: int| netlist::seen(v[i]),
    ));
}

/// The case of the letters in a netlist does not matter.
pub proof fn letter_case_is_ignored<R: Real>(src: Seq<char>)
    ensures
        netlist::reading::<R>(small(src)) == netlist::reading::<R>(src),
{
    let sep = |c: char| c == '\n';
    assert(small(Seq::empty()) =~= Seq::<char>::empty());
    lemma_small_pieces(Seq::empty(), src, sep);
    let a = text::lines(small(src));
    let b = text::lines(src);
    assert forall|i: int| 1 <= i < a.len() implies netlist::cleaned(#[trigger] a[i])
        == netlist::cleaned(b[i]) by {
        assert(a[i] == small(b[i]));
        lemma_small_cleaned(b[i]);
    }
    only_cleaned_lines_matter::<R>(small(src), src);
}

proof fn lemma_words_split(cur: Seq<char>, a: Seq<char>, b: Seq<char>)
    ensures
        text::words_after(cur, a + seq![' '] + b) == text::words_after(cur, a) + text::words(b),
    decreases a.len(),
{
    let s = a + seq![' '] + b;
    if a.len() == 0 {
        assert(s.drop_first() =~= b);
    } else {
        assert(s.drop_first() =~= a.drop_first() + seq![' '] + b);
        if text::is_space(a[0]) {
            lemma_words_split(Seq::empty(), a.drop_first(), b);
            let head: Seq<Seq<char>> = if cur.len() == 0 {
                seq![]
            } else {
                seq![cur]
            };
            assert(head + (text::words_after(Seq::empty(), a.drop_first()) + text::words(b)) =~= (
            head + text::words_after(Seq::empty(), a.drop_first())) + text::words(b));
        } else {
            lemma_words_split(cur.push(a[0]), a.drop_first(), b);
        }
    }
}

/// A continuation line adds its words to those of the line before.
pub proof fn continuation_adds_words(raw: Seq<Seq<char>>, n: int)
    requires
        1 < n <= raw.len(),
        netlist::cleaned(raw[n - 1]).len() > 0,
        netlist::cleaned(raw[n - 1])[0] == '+',
        netlist::statements(raw, n - 1) is Ok,
        netlist::statements(raw, n - 1)->Ok_0.len() > 0,
    ensures
        ({
            let before = netlist::statements(raw, n - 1)->Ok_0;
            match netlist::statements(raw, n) {
                Ok(after) => {
                    &&& after.len() == before.len()
                    &&& after.drop_last() == before.drop_last()
                    &&& text::words(after.last()) == text::words(before.last()) + text::words(
                        netlist::cleaned(raw[n - 1]).skip(1),
                    )
                },
                Err(_) => false,
            }
        }),
{
    let before = netlist::statements(raw, n - 1)->Ok_0;
    let rest = netlist::cleaned(raw[n - 1]).skip(1);
    let after = netlist::statements(raw, n)->Ok_0;
    reveal_strlit(" ");
    assert(" "@ =~= seq![' ']);
    assert(after.last() == before.last() + seq![' '] + rest);
    assert(after.drop_last() =~= before.drop_last());
    lemma_words_split(Seq::empty(), before.last(), rest);
}

proof fn lemma_param_skip<R: Real>(
    a: Seq<Seq<char>>,
    b: Seq<Seq<char>>,
    i: int,
    key: Seq<char>,
    default: R,
)
    requires
        0 <= i <= a.len(),
    ensures
        (exists|k: int| i <= k < a.len() && netlist::sets(#[trigger] a[k], key))
            ==> netlist::param_from(a + b, i, key, default) == netlist::param_from(
            a,
            i,
            key,
            default,
        ),
        !(exists|k: int| i <= k < a.len() && netlist::sets(#[trigger] a[k], key))
            ==> netlist::param_from(a + b, i, key, default) == netlist::param(b, key, default),
    decreases a.len() - i,
{
    if i < a.len() {
        assert((a + b)[i] == a[i]);
        if !netlist::sets(a[i], key) {
            lemma_param_skip(a, b, i + 1, key, default);
        }
    } else {
        lemma_param_shift(a, b, 0, key, default);
    }
}

proof fn lemma_param_shift<R: Real>(
    a: Seq<Seq<char>>,
    b: Seq<Seq<char>>,
    i: int,
    key: Seq<char>,
    default: R,
)
    requires
        0 <= i <= b.len(),
    ensures
        netlist::param_from(a + b, a.len() + i, key, default) == netlist::param_from(
            b,
            i,
            key,
            default,
        ),
    decreases b.len() - i,
{
    if i < b.len() {
        assert((a + b)[a.len() + i] == b[i]);
        lemma_param_shift(a, b, i + 1, key, default);
    }
}

/// A parameter given with a device overrides the same parameter of its models;
/// one that is not given with the device is taken from them.
pub proof fn own_parameters_override<R: Real>(
    toks: Seq<Seq<char>>,
    models: Seq<(Seq<char>, Seq<Seq<char>>)>,
    from: int,
    key: Seq<char>,
    default: R,
)
    ensures
        ({
            let own = netlist::own_tokens(toks, models, from, toks.len() as int);
            let lent = netlist::model_tokens(toks, models, from, toks.len() as int);
            netlist::param(netlist::expanded(toks, models, from), key, default) == if netlist::says(
                own,
                key,
            ) {
                netlist::param(own, key, default)
            } else {
                netlist::param(lent, key, default)
            }
        }),
{
    let own = netlist::own_tokens(toks, models, from, toks.len() as int);
    let lent = netlist::model_tokens(toks, models, from, toks.len() as int);
    lemma_param_skip(own, lent, 0, key, default);
}

/// A threshold given with a transistor overrides that of its models, whichever
/// of the two spellings stands where: the result is what the device's own
/// tokens say, and depends on the models only where these say nothing.
pub proof fn own_threshold_overrides<R: Real>(
    own: Seq<Seq<char>>,
    lent: Seq<Seq<char>>,
    other: Seq<Seq<char>>,
    junction: bool,
)
    requires
        netlist::says(own, "vt0"@) || netlist::says(own, "vto"@),
    ensures
        netlist::threshold::<R>(own, lent, junction) == netlist::threshold::<R>(
            own,
            other,
            junction,
        ),
        netlist::says(own, "vt0"@) && netlist::threshold::<R>(own, lent, junction) is Ok
            ==> netlist::threshold::<R>(own, lent, junction) == netlist::param::<R>(
            own,
            "vt0"@,
            R::nil(),
        ),
        !netlist::says(own, "vt0"@) ==> netlist::threshold::<R>(own, lent, junction)
            == netlist::param::<R>(own, "vto"@, R::nil()),
{
    let vto = netlist::param::<R>(own, "vto"@, if junction {
        R::decimal(-2, 0)
    } else {
        R::nil()
    });
    if vto is Ok {
        lemma_default_unused::<R>(own, 0, "vt0"@, vto->Ok_0, R::nil());
        lemma_default_used::<R>(own, 0, "vt0"@, vto->Ok_0);
    }
    lemma_default_unused::<R>(own, 0, "vto"@, if junction {
        R::decimal(-2, 0)
    } else {
        R::nil()
    }, R::nil());
}

proof fn lemma_default_unused<R: Real>(
    toks: Seq<Seq<char>>,
    i: int,
    key: Seq<char>,
    a: R,
    b: R,
)
    requires
        0 <= i,
    ensures
        (exists|k: int| i <= k < toks.len() && netlist::sets(#[trigger] toks[k], key))
            ==> netlist::param_from(toks, i, key, a) == netlist::param_from(toks, i, key, b),
    decreases toks.len() - i,
{
    if i < toks.len() && !netlist::sets(toks[i], key) {
        lemma_default_unused(toks, i + 1, key, a, b);
    }
}

proof fn lemma_default_used<R: Real>(toks: Seq<Seq<char>>, i: int, key: Seq<char>, a: R)
    requires
        0 <= i,
    ensures
        !(exists|k: int| i <= k < toks.len() && netlist::sets(#[trigger] toks[k], key))
            ==> netlist::param_from(toks, i, key, a) == Ok::<R, ParseFault>(a),
    decreases toks.len() - i,
{
    if i < toks.len() && !netlist::sets(toks[i], key) {
        lemma_default_used(toks, i + 1, key, a);
    }
}

proof fn lemma_tail_tokens(
    a: Seq<Seq<char>>,
    b: Seq<Seq<char>>,
    models: Seq<(Seq<char>, Seq<Seq<char>>)>,
    from: int,
    hi: int,
)
    requires
        0 <= from,
        forall|i: int| from <= i < hi ==> #[trigger] a[i] == b[i],
    ensures
        netlist::own_tokens(a, models, from, hi) == netlist::own_tokens(b, models, from, hi),
        netlist::model_tokens(a, models, from, hi) == netlist::model_tokens(b, models, from, hi),
    decreases hi,
{
    if hi > from {
        lemma_tail_tokens(a, b, models, from, hi - 1);
        assert(a[hi - 1] == b[hi - 1]);
    }
}

/// The bulk terminal of a field effect transistor is read and ignored.
pub proof fn bulk_is_ignored<R: Real>(
    deck: Deck<R>,
    toks: Seq<Seq<char>>,
    models: Seq<(Seq<char>, Seq<Seq<char>>)>,
    bulk: Seq<char>,
)
    requires
        toks.len() > 4,
        toks[0].len() > 0,
        toks[0][0] == 'm',
    ensures
        netlist::with_device(deck, toks.update(4, bulk), models) == netlist::with_device(
            deck,
            toks,
            models,
        ),
{
    let other = toks.update(4, bulk);
    assert forall|i: int| 5 <= i < toks.len() implies #[trigger] other[i] == toks[i] by {}
    lemma_tail_tokens(other, toks, models, 5, toks.len() as int);
    reveal_with_fuel(netlist::with_terminals, 4);
    assert(other[0] == toks[0] && other[1] == toks[1] && other[2] == toks[2] && other[3]
        == toks[3]);
    assert(netlist::terminal(deck.nodes, other, 1) == netlist::terminal(deck.nodes, toks, 1));
    assert(netlist::terminal(deck.nodes, other, 2) == netlist::terminal(deck.nodes, toks, 2));
    assert(netlist::terminal(deck.nodes, other, 3) == netlist::terminal(deck.nodes, toks, 3));
}

/// Devices and control cards behind `.end` are ignored: what is read of the
/// statements up to it does not depend on those that follow.
pub proof fn nothing_follows_the_end<R: Real>(
    a: Seq<Seq<char>>,
    b: Seq<Seq<char>>,
    models: Seq<(Seq<char>, Seq<Seq<char>>)>,
    i: int,
    end: int,
    deck: Deck<R>,
)
    requires
        0 <= i <= end,
        end < a.len(),
        end < b.len(),
        a.take(end + 1) == b.take(end + 1),
        text::words(a[end]).len() > 0,
        text::words(a[end])[0] == ".end"@,
    ensures
        netlist::deck_from(a, models, i, deck) == netlist::deck_from(b, models, i, deck),
    decreases end - i,
{
    assert(a.take(end + 1)[i] == b.take(end + 1)[i]);
    assert(a[i] == b[i]);
    if i < end {
        let toks = text::words(a[i]);
        if toks.len() == 0 {
            nothing_follows_the_end(a, b, models, i + 1, end, deck);
        } else if toks[0] != ".end"@ {
            let next = if text::begins(toks[0], "."@) {
                netlist::with_card(deck, toks)
            } else {
                netlist::with_device(deck, toks, models)
            };
            if next is Ok {
                nothing_follows_the_end(a, b, models, i + 1, end, next->Ok_0);
            }
        }
    }
}

} // verus!
