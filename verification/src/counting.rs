//! Counting over ranges of integers and over lists, as the laws of the grid
//! operations state their results.

use vstd::prelude::*;

verus! {

/// How many `q` in `0..n` satisfy `p`.
pub open spec fn count_below(p: spec_fn(int) -> bool, n: int) -> int
    decreases n,
{
    if n <= 0 {
        0
    } else {
        count_below(p, n - 1) + if p(n - 1) {
            1int
        } else {
            0int
        }
    }
}

/// The sum of `f(q)` over `q` in `0..n`.
pub open spec fn sum_below(f: spec_fn(int) -> int, n: int) -> int
    decreases n,
{
    if n <= 0 {
        0
    } else {
        sum_below(f, n - 1) + f(n - 1)
    }
}

/// How many entries of `l` satisfy `p`.
pub open spec fn count_in(l: Seq<int>, p: spec_fn(int) -> bool) -> int
    decreases l.len(),
{
    if l.len() == 0 {
        0
    } else {
        count_in(l.drop_last(), p) + if p(l.last()) {
            1int
        } else {
            0int
        }
    }
}

/// Nothing in range satisfies `p`: the count is zero.
pub proof fn lemma_count_none(p: spec_fn(int) -> bool, n: int)
    requires
        forall|q: int| 0 <= q < n ==> !#[trigger] p(q),
    ensures
        count_below(p, n) == 0,
    decreases n,
{
    if n > 0 {
        lemma_count_none(p, n - 1);
    }
}

/// Setting one value `v` aside: the count is the count without it, plus one when
/// `v` is in range and satisfies `p`.
pub proof fn lemma_count_without(p: spec_fn(int) -> bool, v: int, n: int)
    ensures
        count_below(p, n) == count_below(|q: int| p(q) && q != v, n) + (if 0 <= v < n && p(v) {
            1int
        } else {
            0int
        }),
    decreases n,
{
    if n > 0 {
        lemma_count_without(p, v, n - 1);
    }
}

/// Two conditions that agree on every entry of a list count it alike.
pub proof fn lemma_count_in_agree(l: Seq<int>, p: spec_fn(int) -> bool, r: spec_fn(int) -> bool)
    requires
        forall|t: int| 0 <= t < l.len() ==> p(#[trigger] l[t]) == r(l[t]),
    ensures
        count_in(l, p) == count_in(l, r),
    decreases l.len(),
{
    if l.len() > 0 {
        assert forall|t: int| 0 <= t < l.drop_last().len() implies p(
            #[trigger] l.drop_last()[t],
        ) == r(l.drop_last()[t]) by {
            assert(l.drop_last()[t] == l[t]);
        }
        lemma_count_in_agree(l.drop_last(), p, r);
        assert(p(l[l.len() - 1]) == r(l[l.len() - 1]));
    }
}

/// Counting a condition over `0..n` is counting it over a list without repeats
/// that holds every value in range satisfying it.
pub proof fn lemma_count_by_list(l: Seq<int>, p: spec_fn(int) -> bool, n: int)
    requires
        l.no_duplicates(),
        forall|t: int| 0 <= t < l.len() ==> 0 <= #[trigger] l[t] < n,
        forall|q: int| 0 <= q < n && #[trigger] p(q) ==> l.contains(q),
    ensures
        count_below(p, n) == count_in(l, p),
    decreases l.len(),
{
    if l.len() == 0 {
        assert forall|q: int| 0 <= q < n implies !#[trigger] p(q) by {
            if p(q) {
                assert(l.contains(q));
            }
        }
        lemma_count_none(p, n);
    } else {
        let v = l.last();
        let rest = l.drop_last();
        let p2 = |q: int| p(q) && q != v;
        lemma_count_without(p, v, n);
        assert forall|t: int| 0 <= t < rest.len() implies 0 <= #[trigger] rest[t] < n by {
            assert(rest[t] == l[t]);
        }
        assert forall|q: int| 0 <= q < n && #[trigger] p2(q) implies rest.contains(q) by {
            assert(l.contains(q));
            let t = choose|t: int| 0 <= t < l.len() && l[t] == q;
            assert(t != l.len() - 1);
            assert(rest[t] == q);
        }
        lemma_count_by_list(rest, p2, n);
        assert forall|t: int| 0 <= t < rest.len() implies p2(#[trigger] rest[t]) == p(rest[t]) by {
            assert(rest[t] == l[t]);
            assert(l[t] != l[l.len() - 1]);
        }
        lemma_count_in_agree(rest, p2, p);
        assert(0 <= v < n) by {
            assert(l[l.len() - 1] == v);
        }
    }
}

/// Two summands that agree on `0..n` sum alike.
pub proof fn lemma_sum_agree(f: spec_fn(int) -> int, g: spec_fn(int) -> int, n: int)
    requires
        forall|q: int| 0 <= q < n ==> #[trigger] f(q) == g(q),
    ensures
        sum_below(f, n) == sum_below(g, n),
    decreases n,
{
    if n > 0 {
        lemma_sum_agree(f, g, n - 1);
        assert(f(n - 1) == g(n - 1));
    }
}

} // verus!
