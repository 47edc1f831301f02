//! Sorting by merging.
use vstd::prelude::*;

use crate::num;
use crate::num::Real;

verus! {

/// Two rising sequences as one; of equal elements those of `a` come first.
pub open spec fn merged<R: Real>(a: Seq<R>, b: Seq<R>) -> Seq<R>
    decreases a.len() + b.len(),
{
    if a.len() == 0 {
        b
    } else if b.len() == 0 {
        a
    } else if b[0].below(a[0]) {
        seq![b[0]] + merged(a, b.skip(1))
    } else {
        seq![a[0]] + merged(a.skip(1), b)
    }
}

/// The elements in rising order, equal ones in the order given: the two halves
/// in order, merged.
pub open spec fn ordered<R: Real>(s: Seq<R>) -> Seq<R>
    decreases s.len(),
{
    if s.len() <= 1 {
        s
    } else {
        let h = (s.len() / 2) as int;
        merged(ordered(s.take(h)), ordered(s.skip(h)))
    }
}

/// The elements of a sequence do not fall.
pub open spec fn nondecreasing<R: Real>(s: Seq<R>) -> bool {
    forall|i: int, j: int| 0 <= i <= j < s.len() ==> (#[trigger] s[i]).at_most(#[trigger] s[j])
}

fn merge_rising<R: Real>(a: &Vec<R>, b: &Vec<R>) -> (r: Vec<R>)
    ensures
        r@ == merged(a@, b@),
{
    let mut out: Vec<R> = Vec::new();
    let mut i: usize = 0;
    let mut j: usize = 0;
    proof {
        assert(a@.skip(0) =~= a@);
        assert(b@.skip(0) =~= b@);
        assert(Seq::<R>::empty() + merged(a@, b@) =~= merged(a@, b@));
    }
    while i < a.len() || j < b.len()
        invariant
            i <= a@.len(),
            j <= b@.len(),
            merged(a@, b@) == out@ + merged(a@.skip(i as int), b@.skip(j as int)),
        decreases a@.len() - i + b@.len() - j,
    {
        let ghost before = out@;
        let ghost (p, q) = (a@.skip(i as int), b@.skip(j as int));
        proof {
            if i < a@.len() {
                assert(p.skip(1) =~= a@.skip(i + 1));
                assert(p =~= seq![a@[i as int]] + a@.skip(i + 1));
            }
            if j < b@.len() {
                assert(q.skip(1) =~= b@.skip(j + 1));
                assert(q =~= seq![b@[j as int]] + b@.skip(j + 1));
            }
        }
        if i >= a.len() || (j < b.len() && b[j].lt(a[i])) {
            out.push(b[j]);
            j = j + 1;
            proof {
                let rest = merged(a@.skip(i as int), b@.skip(j as int));
                assert(before + (seq![q[0]] + rest) =~= out@ + rest);
            }
        } else {
            out.push(a[i]);
            i = i + 1;
            proof {
                let rest = merged(a@.skip(i as int), b@.skip(j as int));
                assert(before + (seq![p[0]] + rest) =~= out@ + rest);
            }
        }
    }
    proof {
        let none = Seq::<R>::empty();
        assert(a@.skip(i as int) =~= none);
        assert(b@.skip(j as int) =~= none);
        assert(out@ + none =~= out@);
    }
    out
}

/// Sorts the elements from `lo` up to `hi - 1`.
fn sort_range<R: Real>(s: &Vec<R>, lo: usize, hi: usize) -> (r: Vec<R>)
    requires
        lo <= hi <= s@.len(),
    ensures
        r@ == ordered(s@.subrange(lo as int, hi as int)),
    decreases hi - lo,
{
    let ghost part = s@.subrange(lo as int, hi as int);
    if hi - lo <= 1 {
        let mut out: Vec<R> = Vec::new();
        if lo < hi {
            out.push(s[lo]);
        }
        proof {
            assert(out@ =~= part);
        }
        return out;
    }
    let mid: usize = lo + (hi - lo) / 2;
    let a = sort_range(s, lo, mid);
    let b = sort_range(s, mid, hi);
    proof {
        let h = (part.len() / 2) as int;
        assert(part.take(h) =~= s@.subrange(lo as int, mid as int));
        assert(part.skip(h) =~= s@.subrange(mid as int, hi as int));
    }
    merge_rising(&a, &b)
}

pub fn sort<R: Real>(s: &Vec<R>) -> (r: Vec<R>)
    ensures
        r@ == ordered(s@),
{
    proof {
        assert(s@.subrange(0, s@.len() as int) =~= s@);
    }
    sort_range(s, 0, s.len())
}

proof fn lemma_merged_multiset<R: Real>(a: Seq<R>, b: Seq<R>)
    ensures
        merged(a, b).to_multiset() == a.to_multiset().add(b.to_multiset()),
    decreases a.len() + b.len(),
{
    broadcast use vstd::seq_lib::group_to_multiset_ensures;

    if a.len() == 0 {
        assert(a =~= Seq::<R>::empty());
        assert(merged(a, b).to_multiset() =~= a.to_multiset().add(b.to_multiset()));
    } else if b.len() == 0 {
        assert(b =~= Seq::<R>::empty());
        assert(merged(a, b).to_multiset() =~= a.to_multiset().add(b.to_multiset()));
    } else if b[0].below(a[0]) {
        lemma_merged_multiset(a, b.skip(1));
        lemma_head_multiset(b);
        vstd::seq_lib::lemma_multiset_commutative(seq![b[0]], merged(a, b.skip(1)));
        assert(merged(a, b).to_multiset() =~= a.to_multiset().add(b.to_multiset()));
    } else {
        lemma_merged_multiset(a.skip(1), b);
        lemma_head_multiset(a);
        vstd::seq_lib::lemma_multiset_commutative(seq![a[0]], merged(a.skip(1), b));
        assert(merged(a, b).to_multiset() =~= a.to_multiset().add(b.to_multiset()));
    }
}

proof fn lemma_head_multiset<R: Real>(s: Seq<R>)
    requires
        s.len() > 0,
    ensures
        s.to_multiset() == seq![s[0]].to_multiset().add(s.skip(1).to_multiset()),
{
    assert(s =~= seq![s[0]] + s.skip(1));
    vstd::seq_lib::lemma_multiset_commutative(seq![s[0]], s.skip(1));
}

/// Sorting keeps the elements, each as often as it occurs.
pub proof fn sorting_keeps_the_elements<R: Real>(s: Seq<R>)
    ensures
        ordered(s).to_multiset() == s.to_multiset(),
    decreases s.len(),
{
    if s.len() > 1 {
        let h = (s.len() / 2) as int;
        sorting_keeps_the_elements(s.take(h));
        sorting_keeps_the_elements(s.skip(h));
        lemma_merged_multiset(ordered(s.take(h)), ordered(s.skip(h)));
        assert(s =~= s.take(h) + s.skip(h));
        vstd::seq_lib::lemma_multiset_commutative(s.take(h), s.skip(h));
    }
}

pub(crate) proof fn lemma_ordered_elements<R: Real>(s: Seq<R>, e: R)
    ensures
        ordered(s).contains(e) <==> s.contains(e),
{
    broadcast use vstd::seq_lib::group_to_multiset_ensures;

    sorting_keeps_the_elements(s);
    assert(ordered(s).contains(e) <==> ordered(s).to_multiset().count(e) > 0);
    assert(s.contains(e) <==> s.to_multiset().count(e) > 0);
}

proof fn lemma_merged_elements<R: Real>(a: Seq<R>, b: Seq<R>, e: R)
    ensures
        merged(a, b).contains(e) <==> a.contains(e) || b.contains(e),
{
    broadcast use vstd::seq_lib::group_to_multiset_ensures;

    lemma_merged_multiset(a, b);
    assert(merged(a, b).contains(e) <==> merged(a, b).to_multiset().count(e) > 0);
    assert(a.contains(e) <==> a.to_multiset().count(e) > 0);
    assert(b.contains(e) <==> b.to_multiset().count(e) > 0);
}

/// `h` is at most every element of a rising sequence that it is at most the
/// first of.
proof fn lemma_at_most_all<R: Real>(h: R, s: Seq<R>, e: R)
    requires
        num::is_order::<R>(),
        nondecreasing(s),
        s.len() > 0,
        h.at_most(s[0]),
        s.contains(e),
    ensures
        h.at_most(e),
{
    reveal(num::is_order);
    let k = choose|k: int| 0 <= k < s.len() && s[k] == e;
    assert(s[0].at_most(s[k]));
}

proof fn lemma_merged_rises<R: Real>(a: Seq<R>, b: Seq<R>)
    requires
        num::is_order::<R>(),
        nondecreasing(a),
        nondecreasing(b),
    ensures
        nondecreasing(merged(a, b)),
    decreases a.len() + b.len(),
{
    if a.len() > 0 && b.len() > 0 {
        let r = merged(a, b);
        let (p, q) = if b[0].below(a[0]) {
            (a, b.skip(1))
        } else {
            (a.skip(1), b)
        };
        let h = r[0];
        let rest = merged(p, q);
        assert(r == seq![h] + rest);
        assert(a[0].at_most(a[0]) && b[0].at_most(b[0]));
        assert(h.at_most(a[0]) && h.at_most(b[0])) by {
            reveal(num::is_order);
            assert(a[0].at_most(b[0]) || b[0].at_most(a[0]));
            assert(b[0].below(a[0]) <==> b[0].at_most(a[0]) && !a[0].at_most(b[0]));
        }
        assert forall|i: int, j: int| 0 <= i <= j < p.len() implies (#[trigger] p[i]).at_most(
            #[trigger] p[j],
        ) by {
            let o = a.len() - p.len();
            assert(p[i] == a[i + o] && p[j] == a[j + o]);
        }
        assert forall|i: int, j: int| 0 <= i <= j < q.len() implies (#[trigger] q[i]).at_most(
            #[trigger] q[j],
        ) by {
            let o = b.len() - q.len();
            assert(q[i] == b[i + o] && q[j] == b[j + o]);
        }
        lemma_merged_rises(p, q);
        assert forall|i: int, j: int| 0 <= i <= j < r.len() implies (#[trigger] r[i]).at_most(
            #[trigger] r[j],
        ) by {
            if i > 0 {
                assert(rest[i - 1].at_most(rest[j - 1]));
            } else if j > 0 {
                let e = rest[j - 1];
                assert(rest.contains(e));
                lemma_merged_elements(p, q, e);
                if p.contains(e) {
                    let k = choose|k: int| 0 <= k < p.len() && p[k] == e;
                    assert(a[k + a.len() - p.len()] == e);
                    lemma_at_most_all(h, a, e);
                } else {
                    let k = choose|k: int| 0 <= k < q.len() && q[k] == e;
                    assert(b[k + b.len() - q.len()] == e);
                    lemma_at_most_all(h, b, e);
                }
            }
        }
    }
}

/// Numbers come out of sorting in rising order.
pub proof fn sorting_puts_in_order<R: Real>(s: Seq<R>)
    requires
        num::is_order::<R>(),
        forall|i: int| 0 <= i < s.len() ==> (#[trigger] s[i]).at_most(s[i]),
    ensures
        nondecreasing(ordered(s)),
    decreases s.len(),
{
    if s.len() > 1 {
        let h = (s.len() / 2) as int;
        let (a, b) = (s.take(h), s.skip(h));
        assert forall|i: int| 0 <= i < a.len() implies (#[trigger] a[i]).at_most(a[i]) by {
            assert(s[i].at_most(s[i]));
        }
        assert forall|i: int| 0 <= i < b.len() implies (#[trigger] b[i]).at_most(b[i]) by {
            assert(s[i + h].at_most(s[i + h]));
        }
        sorting_puts_in_order(a);
        sorting_puts_in_order(b);
        lemma_merged_rises(ordered(a), ordered(b));
    }
}

} // verus!
