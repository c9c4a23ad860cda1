//! Selecting entries of a listing by index, and putting selections in order.

use vstd::prelude::*;

verus! {

broadcast use vstd::seq::group_seq_axioms;

/// The indices below `n` that satisfy `p`, in increasing order.
pub open spec fn picks(n: nat, p: spec_fn(int) -> bool) -> Seq<usize>
    decreases n,
{
    if n == 0 {
        Seq::empty()
    } else if p(n - 1) {
        picks((n - 1) as nat, p).push((n - 1) as usize)
    } else {
        picks((n - 1) as nat, p)
    }
}

/// `picks` holds an index exactly if it is below `n` and satisfies `p`, once and
/// in increasing order.
pub proof fn lemma_picks(n: nat, p: spec_fn(int) -> bool)
    requires
        n <= usize::MAX,
    ensures
        forall|i: usize| #[trigger] picks(n, p).contains(i) <==> i < n && p(i as int),
        forall|a: int, b: int|
            0 <= a < b < picks(n, p).len() ==> #[trigger] picks(n, p)[a] < #[trigger] picks(n, p)[b],
        forall|a: int|
            0 <= a < picks(n, p).len() ==> #[trigger] picks(n, p)[a] < n && p(picks(n, p)[a] as int),
        picks(n, p).len() <= n,
    decreases n,
{
    if n > 0 {
        let m = (n - 1) as nat;
        lemma_picks(m, p);
        let s = picks(m, p);
        let t = picks(n, p);
        if p(n - 1) {
            assert(t == s.push(m as usize));
            assert forall|i: usize| #[trigger] t.contains(i) <==> i < n && p(i as int) by {
                if t.contains(i) {
                    let k = choose|k: int| 0 <= k < t.len() && t[k] == i;
                    if k < s.len() {
                        assert(s[k] == i);
                        assert(s.contains(i));
                    }
                }
                if i < n && p(i as int) {
                    if i < m {
                        assert(s.contains(i));
                        let k = choose|k: int| 0 <= k < s.len() && s[k] == i;
                        assert(t[k] == i);
                    } else {
                        assert(t[s.len() as int] == i);
                    }
                }
            }
        } else {
            assert forall|i: usize| #[trigger] t.contains(i) <==> i < n && p(i as int) by {
                assert(t.contains(i) == s.contains(i));
            }
        }
    }
}

/// Two predicates that agree below `n` pick the same indices.
pub proof fn lemma_picks_agree(n: nat, p: spec_fn(int) -> bool, q: spec_fn(int) -> bool)
    requires
        forall|i: int| #![trigger p(i)] #![trigger q(i)] 0 <= i < n ==> p(i) == q(i),
    ensures
        picks(n, p) == picks(n, q),
    decreases n,
{
    if n > 0 {
        lemma_picks_agree((n - 1) as nat, p, q);
    }
}

/// A predicate that nothing below `n` satisfies picks nothing.
pub proof fn lemma_picks_none(n: nat, p: spec_fn(int) -> bool)
    requires
        forall|i: int| 0 <= i < n ==> !#[trigger] p(i),
    ensures
        picks(n, p) == Seq::<usize>::empty(),
    decreases n,
{
    if n > 0 {
        lemma_picks_none((n - 1) as nat, p);
    }
}

/// An order on the entries of a listing, by index.
pub trait Ranking {
    /// Whether the order can be asked about the entry `i`.
    spec fn covers(&self, i: usize) -> bool;

    /// Whether the entry `a` does not come after the entry `b`.
    spec fn not_after(&self, a: usize, b: usize) -> bool;

    /// The order is total.
    proof fn is_total(&self)
        ensures
            vstd::relations::total_ordering(|a: usize, b: usize| self.not_after(a, b)),
    ;

    /// Whether the entry `a` does not come after the entry `b`.
    fn ranks(&self, a: usize, b: usize) -> (r: bool)
        requires
            self.covers(a),
            self.covers(b),
        ensures
            r == self.not_after(a, b),
    ;
}

/// `items` in the order of `ranking`.
pub open spec fn ranked<R: Ranking>(items: Seq<usize>, ranking: &R) -> Seq<usize> {
    items.sort_by(|a: usize, b: usize| ranking.not_after(a, b))
}

/// Puts `items` in the order of `ranking`.
pub fn rank<R: Ranking>(items: &Vec<usize>, ranking: &R) -> (r: Vec<usize>)
    requires
        forall|k: int| 0 <= k < items.len() ==> ranking.covers(#[trigger] items@[k]),
    ensures
        r@ == ranked(items@, ranking),
{
    let ghost le = |a: usize, b: usize| ranking.not_after(a, b);
    let mut out: Vec<usize> = Vec::new();
    let mut i: usize = 0;
    proof {
        ranking.is_total();
        assert(items@.take(0) =~= out@);
    }
    while i < items.len()
        invariant
            i <= items.len(),
            le == (|a: usize, b: usize| ranking.not_after(a, b)),
            vstd::relations::total_ordering(le),
            forall|k: int| 0 <= k < items.len() ==> ranking.covers(#[trigger] items@[k]),
            forall|k: int| 0 <= k < out.len() ==> ranking.covers(#[trigger] out@[k]),
            vstd::relations::sorted_by(out@, le),
            out@.to_multiset() == items@.take(i as int).to_multiset(),
        decreases items.len() - i,
    {
        let x = items[i];
        let mut at: usize = out.len();
        while at > 0 && !ranking.ranks(out[at - 1], x)
            invariant
                at <= out.len(),
                ranking.covers(x),
                le == (|a: usize, b: usize| ranking.not_after(a, b)),
                vstd::relations::total_ordering(le),
                forall|k: int| 0 <= k < out.len() ==> ranking.covers(#[trigger] out@[k]),
                forall|k: int| at <= k < out.len() ==> le(x, #[trigger] out@[k]),
            decreases at,
        {
            proof {
                assert(le(x, out@[at - 1]) || le(out@[at - 1], x));
            }
            at = at - 1;
        }
        let ghost before = out@;
        out.insert(at, x);
        proof {
            assert(out@ =~= before.insert(at as int, x));
            assert forall|a: int, b: int| 0 <= a < b < out@.len() implies #[trigger] le(
                out@[a],
                out@[b],
            ) by {
                if at > 0 {
                    assert(le(before[at - 1], x));
                }
                if b == at && a < at - 1 {
                    assert(le(before[a], before[at - 1]));
                }
                if a < at && b > at {
                    assert(le(before[a], before[b - 1]));
                }
                if a < at && b < at {
                    assert(le(before[a], before[b]));
                }
                if a > at {
                    assert(le(before[a - 1], before[b - 1]));
                }
            }
            assert forall|k: int| 0 <= k < out@.len() implies ranking.covers(#[trigger] out@[k]) by {
                if k < at {
                    assert(out@[k] == before[k]);
                } else if k > at {
                    assert(out@[k] == before[k - 1]);
                }
            }
            before.to_multiset_ensures();
            vstd::seq_lib::to_multiset_insert(before, at as int, x);
            assert(items@.take(i + 1) =~= items@.take(i as int).push(x));
            items@.take(i as int).to_multiset_ensures();
        }
        i = i + 1;
    }
    proof {
        assert(items@.take(items@.len() as int) =~= items@);
        items@.lemma_sort_by_ensures(le);
        vstd::seq_lib::lemma_sorted_unique(out@, items@.sort_by(le), le);
    }
    out
}

/// Putting items in order keeps them all.
pub proof fn lemma_sorted(items: Seq<usize>, le: spec_fn(usize, usize) -> bool)
    requires
        vstd::relations::total_ordering(le),
    ensures
        vstd::relations::sorted_by(items.sort_by(le), le),
        items.sort_by(le).len() == items.len(),
        forall|x: usize| #[trigger] items.sort_by(le).contains(x) <==> items.contains(x),
{
    let sorted = items.sort_by(le);
    items.lemma_sort_by_ensures(le);
    items.to_multiset_ensures();
    sorted.to_multiset_ensures();
    assert forall|x: usize| #[trigger] sorted.contains(x) <==> items.contains(x) by {
        assert(sorted.contains(x) <==> sorted.to_multiset().count(x) > 0);
        assert(items.contains(x) <==> items.to_multiset().count(x) > 0);
    }
}

/// Whether `list` holds `x`.
pub fn holds(list: &Vec<usize>, x: usize) -> (r: bool)
    ensures
        r == list@.contains(x),
{
    let mut i: usize = 0;
    while i < list.len()
        invariant
            i <= list.len(),
            forall|k: int| 0 <= k < i ==> list@[k] != x,
        decreases list.len() - i,
    {
        if list[i] == x {
            return true;
        }
        i = i + 1;
    }
    false
}

/// What a concatenation holds.
pub proof fn lemma_concat_contains<T>(a: Seq<T>, b: Seq<T>, x: T)
    ensures
        (a + b).contains(x) <==> a.contains(x) || b.contains(x),
{
    let c = a + b;
    if a.contains(x) {
        let k = choose|k: int| 0 <= k < a.len() && a[k] == x;
        assert(c[k] == x);
    }
    if b.contains(x) {
        let k = choose|k: int| 0 <= k < b.len() && b[k] == x;
        assert(c[a.len() + k] == x);
    }
    if c.contains(x) {
        let k = choose|k: int| 0 <= k < c.len() && c[k] == x;
        if k < a.len() {
            assert(a[k] == x);
        } else {
            assert(b[k - a.len()] == x);
        }
    }
}

/// Two lists without repeats that have nothing in common make one.
pub proof fn lemma_concat_unique<T>(a: Seq<T>, b: Seq<T>)
    requires
        a.no_duplicates(),
        b.no_duplicates(),
        forall|x: T| #[trigger] a.contains(x) ==> !b.contains(x),
    ensures
        (a + b).no_duplicates(),
{
    let c = a + b;
    assert forall|i: int, j: int| 0 <= i < c.len() && 0 <= j < c.len() && i != j implies c[i]
        != c[j] by {
        if i < a.len() && j >= a.len() {
            assert(a.contains(a[i]));
            assert(b.contains(b[j - a.len()]));
        } else if j < a.len() && i >= a.len() {
            assert(a.contains(a[j]));
            assert(b.contains(b[i - a.len()]));
        } else if i < a.len() {
            assert(a[i] != a[j]);
        } else {
            assert(b[i - a.len()] != b[j - a.len()]);
        }
    }
}

} // verus!
