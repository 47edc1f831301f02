//! Characters, words and lines.
use vstd::prelude::*;

verus! {

/// `String::push` appends the character to the end of the string.
pub assume_specification[ String::push ](s: &mut String, c: char)
    ensures
        final(s)@ == old(s)@.push(c),
;

/// The contents of a list of strings.
pub open spec fn texts(v: Seq<String>) -> Seq<Seq<char>> {
    Seq::new(v.len(), |i: int| v[i]@)
}

/// Adds a string to a list.
pub fn put(v: &mut Vec<String>, s: String)
    ensures
        texts(final(v)@) == texts(old(v)@).push(s@),
{
    let ghost was = texts(v@);
    v.push(s);
    proof {
        assert(texts(v@) =~= was.push(s@));
    }
}

/// A white space character of Unicode.
pub open spec fn is_space(c: char) -> bool {
    let u = c as u32;
    ||| 0x9 <= u <= 0xd
    ||| u == 0x20
    ||| u == 0x85
    ||| u == 0xa0
    ||| u == 0x1680
    ||| 0x2000 <= u <= 0x200a
    ||| u == 0x2028
    ||| u == 0x2029
    ||| u == 0x202f
    ||| u == 0x205f
    ||| u == 0x3000
}

pub fn space(c: char) -> (r: bool)
    ensures
        r == is_space(c),
{
    let u: u32 = c as u32;
    (0x9 <= u && u <= 0xd) || u == 0x20 || u == 0x85 || u == 0xa0 || u == 0x1680 || (0x2000 <= u && u
        <= 0x200a) || u == 0x2028 || u == 0x2029 || u == 0x202f || u == 0x205f || u == 0x3000
}

/// The lower case form of an ASCII letter; other characters as they are.
pub open spec fn lowered(c: char) -> char {
    if 'A' <= c && c <= 'Z' {
        (c as u8 + 32) as char
    } else {
        c
    }
}

pub fn lower(c: char) -> (r: char)
    ensures
        r == lowered(c),
{
    if 'A' <= c && c <= 'Z' {
        (c as u8 + 32) as char
    } else {
        c
    }
}

pub fn chars_of(s: &str) -> (r: Vec<char>)
    ensures
        r@ == s@,
{
    let mut out: Vec<char> = Vec::new();
    for c in it: s.chars()
        invariant
            out@ == it.seq().take(it.index()),
            it.seq() == s@,
    {
        out.push(c);
    }
    out
}

/// The characters from `lo` up to `hi` as a string.
pub fn string_of(v: &Vec<char>, lo: usize, hi: usize) -> (r: String)
    requires
        lo <= hi <= v@.len(),
    ensures
        r@ == v@.subrange(lo as int, hi as int),
{
    let mut out = String::new();
    let mut i: usize = lo;
    while i < hi
        invariant
            lo <= i <= hi <= v@.len(),
            out@ == v@.subrange(lo as int, i as int),
        decreases hi - i,
    {
        out.push(v[i]);
        i = i + 1;
        proof {
            assert(v@.subrange(lo as int, i as int) =~= v@.subrange(lo as int, i - 1).push(
                v@[i - 1],
            ));
        }
    }
    out
}

/// `p` stands at the beginning of `s`.
pub open spec fn begins(s: Seq<char>, p: Seq<char>) -> bool {
    p.len() <= s.len() && s.take(p.len() as int) == p
}

pub fn starts_with(s: &str, p: &str) -> (r: bool)
    ensures
        r == begins(s@, p@),
{
    let a = chars_of(s);
    let b = chars_of(p);
    if b.len() > a.len() {
        return false;
    }
    let mut i: usize = 0;
    while i < b.len()
        invariant
            i <= b@.len() <= a@.len(),
            a@ == s@,
            b@ == p@,
            forall|k: int| 0 <= k < i ==> a@[k] == #[trigger] b@[k],
        decreases b@.len() - i,
    {
        if a[i] != b[i] {
            proof {
                assert(s@.take(p@.len() as int)[i as int] != p@[i as int]);
            }
            return false;
        }
        i = i + 1;
    }
    proof {
        assert(s@.take(p@.len() as int) =~= p@);
    }
    true
}

/// The text behind the prefix `p`.
pub fn behind(s: &str, p: &str) -> (r: Option<String>)
    ensures
        match r {
            Some(t) => begins(s@, p@) && t@ == s@.skip(p@.len() as int),
            None => !begins(s@, p@),
        },
{
    if starts_with(s, p) {
        let a = chars_of(s);
        let n: usize = chars_of(p).len();
        proof {
            assert(s@.skip(n as int) =~= s@.subrange(n as int, s@.len() as int));
        }
        Some(string_of(&a, n, a.len()))
    } else {
        None
    }
}

/// Equality of two texts.
pub fn equal(a: &str, b: &str) -> (r: bool)
    ensures
        r == (a@ == b@),
{
    let n: usize = chars_of(a).len();
    let m: usize = chars_of(b).len();
    proof {
        assert(a@.take(a@.len() as int) =~= a@);
    }
    n == m && starts_with(a, b)
}

/// Some element of the list is the text `s`.
pub fn lists(v: &Vec<String>, s: &str) -> (r: bool)
    ensures
        r == texts(v@).contains(s@),
{
    let mut i: usize = 0;
    while i < v.len()
        invariant
            i <= v@.len(),
            forall|k: int| 0 <= k < i ==> (#[trigger] v@[k])@ != s@,
        decreases v@.len() - i,
    {
        if equal(v[i].as_str(), s) {
            proof {
                assert(texts(v@)[i as int] == s@);
            }
            return true;
        }
        i = i + 1;
    }
    proof {
        assert forall|k: int| 0 <= k < v@.len() implies texts(v@)[k] != s@ by {
            assert(v@[k]@ != s@);
        }
    }
    false
}

/// The text without leading white space.
pub open spec fn trimmed_start(s: Seq<char>) -> Seq<char>
    decreases s.len(),
{
    if s.len() > 0 && is_space(s[0]) {
        trimmed_start(s.drop_first())
    } else {
        s
    }
}

/// The text without trailing white space.
pub open spec fn trimmed_end(s: Seq<char>) -> Seq<char>
    decreases s.len(),
{
    if s.len() > 0 && is_space(s.last()) {
        trimmed_end(s.drop_last())
    } else {
        s
    }
}

/// The text without white space at its ends.
pub open spec fn trimmed(s: Seq<char>) -> Seq<char> {
    trimmed_end(trimmed_start(s))
}

pub fn trim(s: &str) -> (r: String)
    ensures
        r@ == trimmed(s@),
{
    let v = chars_of(s);
    let n: usize = v.len();
    let mut lo: usize = 0;
    proof {
        assert(s@.skip(0) =~= s@);
    }
    while lo < n && space(v[lo])
        invariant
            n == v@.len(),
            v@ == s@,
            lo <= n,
            trimmed_start(s@) == trimmed_start(s@.skip(lo as int)),
        decreases n - lo,
    {
        proof {
            assert(s@.skip(lo as int).drop_first() =~= s@.skip(lo + 1));
        }
        lo = lo + 1;
    }
    let mut hi: usize = n;
    proof {
        assert(trimmed_start(s@) == s@.skip(lo as int));
        assert(s@.subrange(lo as int, hi as int) =~= s@.skip(lo as int));
    }
    while hi > lo && space(v[hi - 1])
        invariant
            n == v@.len(),
            v@ == s@,
            lo <= hi <= n,
            trimmed(s@) == trimmed_end(s@.subrange(lo as int, hi as int)),
        decreases hi,
    {
        proof {
            assert(s@.subrange(lo as int, hi as int).drop_last() =~= s@.subrange(
                lo as int,
                hi - 1,
            ));
        }
        hi = hi - 1;
    }
    string_of(&v, lo, hi)
}

/// The pieces between the characters that `sep` picks out, when `cur` has been
/// read of the first piece.
pub open spec fn pieces(cur: Seq<char>, s: Seq<char>, sep: spec_fn(char) -> bool) -> Seq<Seq<char>>
    decreases s.len(),
{
    if s.len() == 0 {
        seq![cur]
    } else if sep(s[0]) {
        seq![cur] + pieces(Seq::empty(), s.drop_first(), sep)
    } else {
        pieces(cur.push(s[0]), s.drop_first(), sep)
    }
}

/// The lines of a text.
pub open spec fn lines(s: Seq<char>) -> Seq<Seq<char>> {
    pieces(Seq::empty(), s, |c: char| c == '\n')
}

/// The words of a text, when `cur` has been read of the first one.
pub open spec fn words_after(cur: Seq<char>, s: Seq<char>) -> Seq<Seq<char>>
    decreases s.len(),
{
    let head: Seq<Seq<char>> = if cur.len() == 0 {
        seq![]
    } else {
        seq![cur]
    };
    if s.len() == 0 {
        head
    } else if is_space(s[0]) {
        head + words_after(Seq::empty(), s.drop_first())
    } else {
        words_after(cur.push(s[0]), s.drop_first())
    }
}

/// The words of a text: what stands between its white space.
pub open spec fn words(s: Seq<char>) -> Seq<Seq<char>> {
    words_after(Seq::empty(), s)
}

/// No word holds white space.
pub proof fn words_are_solid(s: Seq<char>, i: int, k: int)
    requires
        0 <= i < words(s).len(),
        0 <= k < words(s)[i].len(),
    ensures
        !is_space(words(s)[i][k]),
{
    lemma_words_solid(Seq::empty(), s, i, k);
}

proof fn lemma_words_solid(cur: Seq<char>, s: Seq<char>, i: int, k: int)
    requires
        forall|j: int| 0 <= j < cur.len() ==> !is_space(#[trigger] cur[j]),
        0 <= i < words_after(cur, s).len(),
        0 <= k < words_after(cur, s)[i].len(),
    ensures
        !is_space(words_after(cur, s)[i][k]),
    decreases s.len(),
{
    if s.len() > 0 {
        let h = if cur.len() == 0 {
            0int
        } else {
            1int
        };
        if is_space(s[0]) {
            if i >= h {
                lemma_words_solid(Seq::empty(), s.drop_first(), i - h, k);
            }
        } else {
            lemma_words_solid(cur.push(s[0]), s.drop_first(), i, k);
        }
    }
}

/// No word is empty.
pub proof fn words_are_not_empty(s: Seq<char>, i: int)
    requires
        0 <= i < words(s).len(),
    ensures
        words(s)[i].len() > 0,
{
    lemma_words_not_empty(Seq::empty(), s, i);
}

proof fn lemma_words_not_empty(cur: Seq<char>, s: Seq<char>, i: int)
    requires
        0 <= i < words_after(cur, s).len(),
    ensures
        words_after(cur, s)[i].len() > 0,
    decreases s.len(),
{
    if s.len() > 0 {
        let h = if cur.len() == 0 {
            0int
        } else {
            1int
        };
        if is_space(s[0]) {
            if i >= h {
                lemma_words_not_empty(Seq::empty(), s.drop_first(), i - h);
            }
        } else {
            lemma_words_not_empty(cur.push(s[0]), s.drop_first(), i);
        }
    }
}

pub fn split_words(s: &str) -> (r: Vec<String>)
    ensures
        texts(r@) == words(s@),
{
    let v = chars_of(s);
    let mut out: Vec<String> = Vec::new();
    let mut cur = String::new();
    let mut blank: bool = true;
    let mut i: usize = 0;
    proof {
        assert(s@.skip(0) =~= s@);
        assert(texts(out@) + words(s@) =~= words(s@));
    }
    while i < v.len()
        invariant
            i <= v@.len(),
            v@ == s@,
            blank == (cur@.len() == 0),
            words(s@) == texts(out@) + words_after(cur@, s@.skip(i as int)),
        decreases v@.len() - i,
    {
        let c = v[i];
        let ghost rest = s@.skip(i as int);
        let ghost was = texts(out@);
        proof {
            assert(rest.drop_first() =~= s@.skip(i + 1));
        }
        if space(c) {
            if !blank {
                let ghost w = cur@;
                out.push(cur);
                cur = String::new();
                blank = true;
                proof {
                    assert(texts(out@) =~= was.push(w));
                    assert(texts(out@) + words_after(Seq::empty(), s@.skip(i + 1)) =~= was + (seq![w]
                        + words_after(Seq::empty(), s@.skip(i + 1))));
                }
            } else {
                proof {
                    assert(cur@ =~= Seq::empty());
                    assert(Seq::<Seq<char>>::empty() + words_after(Seq::empty(), s@.skip(i + 1))
                        =~= words_after(Seq::empty(), s@.skip(i + 1)));
                }
            }
        } else {
            cur.push(c);
            blank = false;
        }
        i = i + 1;
    }
    let ghost was = texts(out@);
    proof {
        assert(s@.skip(i as int).len() == 0);
    }
    if !blank {
        let ghost w = cur@;
        out.push(cur);
        proof {
            assert(texts(out@) =~= was + seq![w]);
        }
    } else {
        proof {
            assert(texts(out@) =~= was + Seq::<Seq<char>>::empty());
        }
    }
    out
}

pub fn split_lines(s: &str) -> (r: Vec<String>)
    ensures
        texts(r@) == lines(s@),
{
    let v = chars_of(s);
    let ghost sep = |c: char| c == '\n';
    let mut out: Vec<String> = Vec::new();
    let mut cur = String::new();
    let mut i: usize = 0;
    proof {
        assert(s@.skip(0) =~= s@);
        assert(texts(out@) + lines(s@) =~= lines(s@));
    }
    while i < v.len()
        invariant
            i <= v@.len(),
            v@ == s@,
            sep == (|c: char| c == '\n'),
            lines(s@) == texts(out@) + pieces(cur@, s@.skip(i as int), sep),
        decreases v@.len() - i,
    {
        let c = v[i];
        let ghost was = texts(out@);
        proof {
            assert(s@.skip(i as int).drop_first() =~= s@.skip(i + 1));
        }
        if c == '\n' {
            let ghost w = cur@;
            out.push(cur);
            cur = String::new();
            proof {
                assert(texts(out@) =~= was.push(w));
                assert(texts(out@) + pieces(Seq::empty(), s@.skip(i + 1), sep) =~= was + (seq![w]
                    + pieces(Seq::empty(), s@.skip(i + 1), sep)));
            }
        } else {
            cur.push(c);
        }
        i = i + 1;
    }
    let ghost was = texts(out@);
    let ghost w = cur@;
    out.push(cur);
    proof {
        assert(texts(out@) =~= was + seq![w]);
    }
    out
}

/// The decimal digit of a number below ten.
pub open spec fn digit(d: nat) -> char {
    (d + 48) as char
}

/// The decimal form of a number.
pub open spec fn digits(n: nat) -> Seq<char>
    decreases n,
{
    if n < 10 {
        seq![digit(n)]
    } else {
        digits(n / 10).push(digit(n % 10))
    }
}

pub fn show_usize(n: usize) -> (r: String)
    ensures
        r@ == digits(n as nat),
    decreases n,
{
    let last: char = (48 + (n % 10) as u8) as char;
    let mut out = if n < 10 {
        String::new()
    } else {
        show_usize(n / 10)
    };
    out.push(last);
    proof {
        assert(Seq::<char>::empty().push(last) =~= seq![last]);
    }
    out
}

/// The texts in order, with `sep` between them.
pub open spec fn joined(v: Seq<Seq<char>>, sep: Seq<char>) -> Seq<char>
    decreases v.len(),
{
    if v.len() == 0 {
        Seq::empty()
    } else if v.len() == 1 {
        v[0]
    } else {
        joined(v.drop_last(), sep) + sep + v.last()
    }
}

pub fn join(v: &Vec<String>, sep: &str) -> (r: String)
    ensures
        r@ == joined(texts(v@), sep@),
{
    let mut out = String::new();
    let mut i: usize = 0;
    while i < v.len()
        invariant
            i <= v@.len(),
            out@ == joined(texts(v@).take(i as int), sep@),
        decreases v@.len() - i,
    {
        let ghost part = texts(v@).take(i + 1);
        proof {
            assert(part.drop_last() =~= texts(v@).take(i as int));
        }
        if i > 0 {
            out.append(sep);
        }
        out.append(v[i].as_str());
        proof {
            assert(part.last() == v@[i as int]@);
            if i == 0 {
                assert(Seq::<char>::empty() + v@[0]@ =~= v@[0]@);
            }
        }
        i = i + 1;
    }
    proof {
        assert(texts(v@).take(v@.len() as int) =~= texts(v@));
    }
    out
}

} // verus!
