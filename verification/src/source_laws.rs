//! What the groups of a source line mean, whatever their order.
use vstd::prelude::*;

use crate::circuit::WaveModel;
use crate::fault::ParseFault;
use crate::netlist;
use crate::num::Real;
use crate::number;

verus! {

/// A keyword followed only by numbers.
pub open spec fn is_group<R: Real>(g: Seq<Seq<char>>, key: Seq<char>) -> bool {
    &&& g.len() > 0
    &&& g[0] == key
    &&& forall|i: int| 1 <= i < g.len() ==> number::value::<R>(#[trigger] g[i]) is Some
}

/// A group that gives a time course; corners come in pairs.
pub open spec fn is_course<R: Real>(g: Seq<Seq<char>>) -> bool {
    ||| is_group::<R>(g, "sin"@)
    ||| is_group::<R>(g, "pulse"@)
    ||| is_group::<R>(g, "pwl"@) && netlist::pairs(netlist::numbers::<R>(g, 1)).len() > 0
}

/// The value that a `dc` group gives; zero where there is none.
pub open spec fn given_dc<R: Real>(g: Seq<Seq<char>>) -> R {
    if g.len() == 0 {
        R::nil()
    } else {
        netlist::entry(netlist::numbers::<R>(g, 1), 0, R::nil())
    }
}

/// The small signal value that an `ac` group gives; zero where there is none.
pub open spec fn given_ac<R: Real>(g: Seq<Seq<char>>) -> R {
    if g.len() == 0 {
        R::nil()
    } else {
        netlist::entry(netlist::numbers::<R>(g, 1), 0, R::unit())
    }
}

/// The time course that a group gives; none where there is no group.
pub open spec fn given_course<R: Real>(g: Seq<Seq<char>>) -> Option<WaveModel<R>> {
    let v = netlist::numbers::<R>(g, 1);
    if g.len() == 0 {
        None
    } else if g[0] == "sin"@ {
        Some(netlist::sin_course(v))
    } else if g[0] == "pulse"@ {
        Some(netlist::pulse_course(v))
    } else {
        Some(WaveModel::Pwl { pts: netlist::pairs(v), per: R::nil() })
    }
}

/// No group, or one of any kind.
pub open spec fn is_any<R: Real>(g: Seq<Seq<char>>) -> bool {
    g.len() == 0 || is_group::<R>(g, "dc"@) || is_group::<R>(g, "ac"@) || is_course::<R>(g)
}

/// What a group makes of what was read before it.
pub open spec fn after<R: Real>(g: Seq<Seq<char>>, t: (R, R, Option<WaveModel<R>>)) -> (
    R,
    R,
    Option<WaveModel<R>>,
) {
    if g.len() == 0 {
        t
    } else if g[0] == "dc"@ {
        (given_dc(g), t.1, t.2)
    } else if g[0] == "ac"@ {
        (t.0, given_ac(g), t.2)
    } else {
        (t.0, t.1, given_course(g))
    }
}

pub(crate) proof fn lemma_keywords_differ()
    ensures
        "dc"@ != "ac"@,
        "dc"@ != "sin"@,
        "dc"@ != "pulse"@,
        "dc"@ != "pwl"@,
        "ac"@ != "sin"@,
        "ac"@ != "pulse"@,
        "ac"@ != "pwl"@,
        "sin"@ != "pulse"@,
        "sin"@ != "pwl"@,
        "pulse"@ != "pwl"@,
{
    reveal_strlit("dc");
    reveal_strlit("ac");
    reveal_strlit("sin");
    reveal_strlit("pulse");
    reveal_strlit("pwl");
    assert("dc"@[0] != "ac"@[0]);
    assert("sin"@[0] != "pwl"@[0]);
    assert("dc"@.len() == 2 && "ac"@.len() == 2 && "sin"@.len() == 3 && "pulse"@.len() == 5
        && "pwl"@.len() == 3);
}

/// The keywords of a source line are not read as numbers.
pub proof fn keywords_are_not_numbers<R: Real>()
    ensures
        number::value::<R>("dc"@) is None,
        number::value::<R>("ac"@) is None,
        number::value::<R>("sin"@) is None,
        number::value::<R>("pulse"@) is None,
        number::value::<R>("pwl"@) is None,
{
    reveal_strlit("dc");
    reveal_strlit("ac");
    reveal_strlit("sin");
    reveal_strlit("pulse");
    reveal_strlit("pwl");
    number::words_are_not_numbers::<R>("dc"@);
    number::words_are_not_numbers::<R>("ac"@);
    number::words_are_not_numbers::<R>("sin"@);
    number::words_are_not_numbers::<R>("pulse"@);
    number::words_are_not_numbers::<R>("pwl"@);
}

proof fn lemma_numbers_of_group<R: Real>(
    all: Seq<Seq<char>>,
    off: int,
    g: Seq<Seq<char>>,
    i: int,
)
    requires
        0 <= off,
        off + g.len() <= all.len(),
        forall|j: int| 0 <= j < g.len() ==> all[off + j] == #[trigger] g[j],
        1 <= i <= g.len(),
        forall|j: int| 1 <= j < g.len() ==> number::value::<R>(#[trigger] g[j]) is Some,
        off + g.len() < all.len() ==> number::value::<R>(all[off + g.len()]) is None,
    ensures
        netlist::numbers::<R>(all, off + i) == netlist::numbers::<R>(g, i),
        netlist::numbers::<R>(g, i).len() == g.len() - i,
    decreases g.len() - i,
{
    if i < g.len() {
        assert(all[off + i] == g[i]);
        lemma_numbers_of_group::<R>(all, off, g, i + 1);
    }
}

proof fn lemma_group<R: Real>(
    all: Seq<Seq<char>>,
    off: int,
    g: Seq<Seq<char>>,
    t: (R, R, Option<WaveModel<R>>),
)
    requires
        is_any::<R>(g),
        0 <= off,
        off + g.len() <= all.len(),
        forall|j: int| 0 <= j < g.len() ==> all[off + j] == #[trigger] g[j],
        off + g.len() < all.len() ==> number::value::<R>(all[off + g.len()]) is None,
    ensures
        ({
            let u = after(g, t);
            netlist::source_from(all, off, t.0, t.1, t.2) == netlist::source_from(
                all,
                off + g.len(),
                u.0,
                u.1,
                u.2,
            )
        }),
{
    if g.len() > 0 {
        lemma_keywords_differ();
        lemma_numbers_of_group::<R>(all, off, g, 1);
        assert(all[off + 0] == g[0]);
    }
}

pub(crate) proof fn lemma_three<R: Real>(a: Seq<Seq<char>>, b: Seq<Seq<char>>, c: Seq<Seq<char>>)
    requires
        is_any::<R>(a),
        is_any::<R>(b),
        is_any::<R>(c),
    ensures
        netlist::source::<R>(a + b + c) == Ok::<(R, R, Option<WaveModel<R>>), ParseFault>(
            after(c, after(b, after(a, (R::nil(), R::nil(), None)))),
        ),
{
    keywords_are_not_numbers::<R>();
    let all = a + b + c;
    let start = (R::nil(), R::nil(), None::<WaveModel<R>>);
    let na = a.len() as int;
    let nb = na + b.len();
    assert forall|j: int| 0 <= j < a.len() implies all[0 + j] == #[trigger] a[j] by {}
    assert forall|j: int| 0 <= j < b.len() implies all[na + j] == #[trigger] b[j] by {}
    assert forall|j: int| 0 <= j < c.len() implies all[nb + j] == #[trigger] c[j] by {}
    if na < all.len() {
        if b.len() > 0 {
            assert(all[na + 0] == b[0]);
        } else {
            assert(all[nb + 0] == c[0]);
        }
    }
    if nb < all.len() {
        assert(all[nb + 0] == c[0]);
    }
    lemma_group(all, 0, a, start);
    lemma_group(all, na, b, after(a, start));
    lemma_group(all, nb, c, after(b, after(a, start)));
}

/// The groups of a source line may stand in any order, and each may be left
/// out: the `dc` group gives the value, the `ac` group the small signal value
/// and the waveform group the time course. A value without a group is zero, a
/// time course without a group is none.
pub proof fn source_groups_are_independent<R: Real>(
    d: Seq<Seq<char>>,
    a: Seq<Seq<char>>,
    w: Seq<Seq<char>>,
)
    requires
        d.len() == 0 || is_group::<R>(d, "dc"@),
        a.len() == 0 || is_group::<R>(a, "ac"@),
        w.len() == 0 || is_course::<R>(w),
    ensures
        ({
            let all = Ok::<(R, R, Option<WaveModel<R>>), ParseFault>(
                (given_dc(d), given_ac(a), given_course(w)),
            );
            &&& netlist::source::<R>(d + a + w) == all
            &&& netlist::source::<R>(d + w + a) == all
            &&& netlist::source::<R>(a + d + w) == all
            &&& netlist::source::<R>(a + w + d) == all
            &&& netlist::source::<R>(w + d + a) == all
            &&& netlist::source::<R>(w + a + d) == all
        }),
{
    lemma_keywords_differ();
    lemma_three::<R>(d, a, w);
    lemma_three::<R>(d, w, a);
    lemma_three::<R>(a, d, w);
    lemma_three::<R>(a, w, d);
    lemma_three::<R>(w, d, a);
    lemma_three::<R>(w, a, d);
}

proof fn lemma_later_numbers<R: Real>(all: Seq<Seq<char>>, off: int, rest: Seq<Seq<char>>, j: int)
    requires
        0 <= off,
        all.len() == off + rest.len(),
        forall|i: int| 0 <= i < rest.len() ==> all[off + i] == #[trigger] rest[i],
        0 <= j,
    ensures
        netlist::numbers::<R>(all, off + j) == netlist::numbers::<R>(rest, j),
    decreases rest.len() - j,
{
    if j < rest.len() {
        assert(all[off + j] == rest[j]);
        lemma_later_numbers::<R>(all, off, rest, j + 1);
    }
}

/// What is read from a place on depends on the tokens from there on alone.
pub(crate) proof fn lemma_later_source<R: Real>(
    all: Seq<Seq<char>>,
    off: int,
    rest: Seq<Seq<char>>,
    j: int,
    t: (R, R, Option<WaveModel<R>>),
)
    requires
        0 <= off,
        all.len() == off + rest.len(),
        forall|i: int| 0 <= i < rest.len() ==> all[off + i] == #[trigger] rest[i],
        0 <= j,
    ensures
        netlist::source_from(all, off + j, t.0, t.1, t.2) == netlist::source_from(
            rest,
            j,
            t.0,
            t.1,
            t.2,
        ),
    decreases rest.len() - j,
{
    if j < rest.len() {
        assert(all[off + j] == rest[j]);
        lemma_later_numbers::<R>(all, off, rest, j + 1);
        netlist::lemma_numbers_len::<R>(rest, j + 1);
        let v = netlist::numbers::<R>(rest, j + 1);
        let next = j + 1 + v.len();
        let course = |w: WaveModel<R>| (t.0, t.1, Some(w));
        lemma_later_source(all, off, rest, next, (netlist::entry(v, 0, R::nil()), t.1, t.2));
        lemma_later_source(all, off, rest, next, (t.0, netlist::entry(v, 0, R::unit()), t.2));
        lemma_later_source(all, off, rest, next, course(netlist::sin_course(v)));
        lemma_later_source(all, off, rest, next, course(netlist::pulse_course(v)));
        lemma_later_source(
            all,
            off,
            rest,
            next,
            course(WaveModel::Pwl { pts: netlist::pairs(v), per: R::nil() }),
        );
        lemma_later_source(all, off, rest, j + 1, t);
        match number::value::<R>(rest[j]) {
            Some(x) => lemma_later_source(all, off, rest, j + 1, (x, t.1, t.2)),
            None => {},
        }
    }
}

/// A value without a keyword, ahead of the groups, is the `dc` value.
pub proof fn bare_values_are_dc<R: Real>(v: Seq<char>, rest: Seq<Seq<char>>)
    requires
        number::value::<R>(v) is Some,
        rest.len() > 0 ==> number::value::<R>(rest[0]) is None,
    ensures
        netlist::source::<R>(seq![v] + rest) == netlist::source::<R>(seq!["dc"@, v] + rest),
{
    keywords_are_not_numbers::<R>();
    let bare = seq![v] + rest;
    let full = seq!["dc"@, v] + rest;
    let x = number::value::<R>(v)->0;
    let t = (x, R::nil(), None::<WaveModel<R>>);
    assert(bare[0] == v);
    lemma_later_source(bare, 1, rest, 0, t);
    assert(full[0] == "dc"@ && full[1] == v);
    assert(netlist::numbers::<R>(full, 1) =~= seq![x]) by {
        lemma_later_numbers::<R>(full, 2, rest, 0);
        assert(netlist::numbers::<R>(full, 2) =~= Seq::<R>::empty());
    }
    lemma_later_source(full, 2, rest, 0, t);
}

} // verus!
