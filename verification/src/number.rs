//! Numbers with unit suffixes, as in `4.7k`, `100n` or `1meg`.
use vstd::prelude::*;

use crate::num::Real;
use crate::text;

verus! {

/// The length of the longest beginning of `t`, up to `end`, that denotes a
/// number.
pub open spec fn numeral<R: Real>(t: Seq<char>, end: int) -> int
    decreases end,
{
    if end <= 0 {
        0
    } else if R::read(t.take(end)) is Some {
        end
    } else {
        numeral::<R>(t, end - 1)
    }
}

/// A numeral begins with a digit, a sign or a point, or it is the name of
/// infinity or of what is no number.
pub open spec fn begins_numeral(c: char) -> bool {
    '0' <= c <= '9' || c == '+' || c == '-' || c == '.' || c == 'i' || c == 'I' || c == 'n' || c
        == 'N'
}

/// The factor that a unit suffix stands for; what follows it is ignored.
pub open spec fn unit_factor<R: Real>(rest: Seq<char>) -> R {
    if text::begins(rest, "meg"@) {
        R::decimal(1, 6)
    } else if text::begins(rest, "t"@) {
        R::decimal(1, 12)
    } else if text::begins(rest, "g"@) {
        R::decimal(1, 9)
    } else if text::begins(rest, "k"@) {
        R::decimal(1, 3)
    } else if text::begins(rest, "m"@) {
        R::decimal(1, -3)
    } else if text::begins(rest, "u"@) {
        R::decimal(1, -6)
    } else if text::begins(rest, "n"@) {
        R::decimal(1, -9)
    } else if text::begins(rest, "p"@) {
        R::decimal(1, -12)
    } else if text::begins(rest, "f"@) {
        R::decimal(1, -15)
    } else {
        R::unit()
    }
}

/// The number that a token denotes: its longest numeric beginning times the
/// unit behind it.
pub open spec fn value<R: Real>(tok: Seq<char>) -> Option<R> {
    let t = text::trimmed(tok);
    let end = numeral::<R>(t, t.len() as int);
    if !vstd::utf8::is_ascii_chars(t) || t.len() == 0 || !begins_numeral(t[0]) || end == 0 {
        None
    } else {
        Some(R::read(t.take(end))->Some_0.times(unit_factor(t.skip(end))))
    }
}

fn unit_of<R: Real>(rest: &str) -> (r: R)
    ensures
        r == unit_factor::<R>(rest@),
{
    if text::starts_with(rest, "meg") {
        R::lit(1, 6)
    } else if text::starts_with(rest, "t") {
        R::lit(1, 12)
    } else if text::starts_with(rest, "g") {
        R::lit(1, 9)
    } else if text::starts_with(rest, "k") {
        R::lit(1, 3)
    } else if text::starts_with(rest, "m") {
        R::lit(1, -3)
    } else if text::starts_with(rest, "u") {
        R::lit(1, -6)
    } else if text::starts_with(rest, "n") {
        R::lit(1, -9)
    } else if text::starts_with(rest, "p") {
        R::lit(1, -12)
    } else if text::starts_with(rest, "f") {
        R::lit(1, -15)
    } else {
        R::one()
    }
}

fn may_begin_numeral(c: char) -> (r: bool)
    ensures
        r == begins_numeral(c),
{
    ('0' <= c && c <= '9') || c == '+' || c == '-' || c == '.' || c == 'i' || c == 'I' || c == 'n'
        || c == 'N'
}

/// A word that begins as no numeral does is not a number.
pub proof fn words_are_not_numbers<R: Real>(tok: Seq<char>)
    requires
        tok.len() > 0,
        !text::is_space(tok[0]),
        !text::is_space(tok.last()),
        !begins_numeral(tok[0]),
    ensures
        value::<R>(tok) is None,
{
}

pub fn num<R: Real>(tok: &str) -> (r: Option<R>)
    ensures
        r == value::<R>(tok@),
{
    let t = text::trim(tok);
    if !t.as_str().is_ascii() {
        return None;
    }
    let v = text::chars_of(t.as_str());
    if v.len() == 0 || !may_begin_numeral(v[0]) {
        return None;
    }
    let mut end: usize = v.len();
    while end > 0
        invariant
            end <= v@.len(),
            v@ == t@,
            v@.len() > 0,
            begins_numeral(v@[0]),
            t@ == text::trimmed(tok@),
            vstd::utf8::is_ascii_chars(t@),
            numeral::<R>(t@, t@.len() as int) == numeral::<R>(t@, end as int),
        decreases end,
    {
        let head = text::string_of(&v, 0, end);
        proof {
            assert(head@ =~= t@.take(end as int));
        }
        match R::parse(head.as_str()) {
            Some(x) => {
                let rest = text::string_of(&v, end, v.len());
                proof {
                    assert(rest@ =~= t@.skip(end as int));
                }
                return Some(x.mul(unit_of(rest.as_str())));
            },
            None => {},
        }
        end = end - 1;
    }
    None
}

} // verus!
