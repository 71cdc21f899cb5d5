//! Linking level-set segments into chains by lattice-edge identity.
//!
//! Each segment joins two contour vertices, named by the lattice edges they lie
//! on. Chains are walked through an incidence map from vertex to the segments
//! that touch it: first from every vertex touched by exactly one segment (the
//! ends of open chains), then from every segment still unused (the loops).
//! Every segment ends up in exactly one chain, walked once.

use vstd::prelude::*;
use std::collections::BTreeMap;
use vstd::std_specs::iter::IteratorSpec;

verus! {

broadcast use vstd::std_specs::btree::group_btree_axioms;

/// Whether segment `s` has `e` as one of its ends.
pub open spec fn touches(s: (u64, u64), e: u64) -> bool {
    s.0 == e || s.1 == e
}

/// Whether segment `s` joins `x` and `y`, in either direction.
pub open spec fn joins(s: (u64, u64), x: u64, y: u64) -> bool {
    (s.0 == x && s.1 == y) || (s.0 == y && s.1 == x)
}

/// `path` steps along the segments numbered by `ks`, one segment per step.
pub open spec fn is_trail(segs: Seq<(u64, u64)>, path: Seq<u64>, ks: Seq<int>) -> bool {
    &&& path.len() == ks.len() + 1
    &&& forall|t: int|
        0 <= t < ks.len() ==> 0 <= #[trigger] ks[t] < segs.len() && joins(
            segs[ks[t]],
            path[t],
            path[t + 1],
        )
}

/// `order` names each of the indices `0..n` exactly once.
pub open spec fn lists_each_once(order: Seq<int>, n: int) -> bool {
    &&& order.no_duplicates()
    &&& forall|t: int| 0 <= t < order.len() ==> 0 <= #[trigger] order[t] < n
    &&& forall|k: int| 0 <= k < n ==> #[trigger] order.contains(k)
}

/// A chain is closed when it has more than two vertices and returns to its first.
pub open spec fn closes(path: Seq<u64>) -> bool {
    path.len() > 2 && path[0] == path[path.len() - 1]
}

/// The chains, read with the segment numbers `kss` of their steps, split the
/// segments: each chain is a trail of at least one step whose flag says whether it
/// closes, and every segment is stepped along exactly once over all chains.
pub open spec fn decomposes(
    segs: Seq<(u64, u64)>,
    chains: Seq<(Vec<u64>, bool)>,
    kss: Seq<Seq<int>>,
) -> bool {
    &&& kss.len() == chains.len()
    &&& forall|i: int|
        0 <= i < chains.len() ==> {
            &&& is_trail(segs, #[trigger] chains[i].0@, kss[i])
            &&& chains[i].0@.len() >= 2
            &&& chains[i].1 == closes(chains[i].0@)
        }
    &&& lists_each_once(kss.flatten(), segs.len() as int)
}

/// Every list in the incidence map names segments that touch its vertex.
pub open spec fn incidence_sound(m: Map<u64, Vec<usize>>, segs: Seq<(u64, u64)>) -> bool {
    forall|e: u64, t: int|
        m.contains_key(e) && 0 <= t < m[e]@.len() ==> (#[trigger] m[e]@[t] as int) < segs.len()
            && touches(segs[m[e]@[t] as int], e)
}

/// Number of entries still `false`.
pub open spec fn unused_count(s: Seq<bool>) -> nat
    decreases s.len(),
{
    if s.len() == 0 {
        0
    } else {
        unused_count(s.drop_last()) + if s.last() {
            0nat
        } else {
            1nat
        }
    }
}

/// Marking an unused entry leaves one fewer unused.
pub proof fn lemma_mark_used(s: Seq<bool>, k: int)
    requires
        0 <= k < s.len(),
        !s[k],
    ensures
        unused_count(s.update(k, true)) + 1 == unused_count(s),
    decreases s.len(),
{
    if k == s.len() - 1 {
        assert(s.update(k, true).drop_last() =~= s.drop_last());
    } else {
        lemma_mark_used(s.drop_last(), k);
        assert(s.update(k, true).drop_last() =~= s.drop_last().update(k, true));
    }
}

/// The numbers of the segments among the first `m` that touch `e`, in the order
/// the incidence map lists them: segment by segment, once for its first end and
/// once for its second (twice for a segment whose two ends are both `e`).
pub open spec fn touching_upto(segs: Seq<(u64, u64)>, e: u64, m: int) -> Seq<usize>
    decreases m,
{
    if m <= 0 {
        Seq::empty()
    } else {
        let prev = touching_upto(segs, e, m - 1);
        let k = (m - 1) as usize;
        let a = if segs[m - 1].0 == e {
            prev.push(k)
        } else {
            prev
        };
        if segs[m - 1].1 == e {
            a.push(k)
        } else {
            a
        }
    }
}

/// The numbers of all segments that touch `e`, in incidence order.
pub open spec fn touching(segs: Seq<(u64, u64)>, e: u64) -> Seq<usize> {
    touching_upto(segs, e, segs.len() as int)
}

/// The incidence map lists, for every vertex, exactly the segments touching it.
pub open spec fn incidence_exact(m: Map<u64, Vec<usize>>, segs: Seq<(u64, u64)>) -> bool {
    &&& forall|e: u64| #[trigger] m.contains_key(e) ==> m[e]@ == touching(segs, e)
    &&& forall|e: u64| #[trigger] touching(segs, e).len() > 0 ==> m.contains_key(e)
}

/// The first entry of `list` that `used` does not mark.
pub open spec fn first_unused_in(list: Seq<usize>, used: Seq<bool>) -> Option<usize>
    decreases list.len(),
{
    if list.len() == 0 {
        None
    } else if !used[list[0] as int] {
        Some(list[0])
    } else {
        first_unused_in(list.drop_first(), used)
    }
}

/// The walk that continues `path`: at its last vertex take the first unused
/// segment touching it, mark it used and step to its other end; stop where no
/// unused segment is left or on coming back to the first vertex of `path`.
/// Gives the grown path and the marks after the walk.
pub open spec fn walk_from(segs: Seq<(u64, u64)>, used: Seq<bool>, path: Seq<u64>) -> (
    Seq<u64>,
    Seq<bool>,
)
    decreases unused_count(used),
{
    if path.len() == 0 {
        (path, used)
    } else {
        match first_unused_in(touching(segs, path.last()), used) {
            None => (path, used),
            Some(k) => {
                if (k as int) < used.len() && (k as int) < segs.len() && !used[k as int] {
                    proof {
                        lemma_mark_used(used, k as int);
                    }
                    let next = if segs[k as int].0 == path.last() {
                        segs[k as int].1
                    } else {
                        segs[k as int].0
                    };
                    let grown = path.push(next);
                    let marked = used.update(k as int, true);
                    if next == path[0] {
                        (grown, marked)
                    } else {
                        walk_from(segs, marked, grown)
                    }
                } else {
                    (path, used)
                }
            },
        }
    }
}

/// The state of linking: which segments are used, and the chains so far.
pub type LinkState = (Seq<bool>, Seq<(Seq<u64>, bool)>);

/// The open chain walked from vertex `e`, kept when it took at least one segment.
pub open spec fn open_step(segs: Seq<(u64, u64)>, st: LinkState, e: u64) -> LinkState {
    let w = walk_from(segs, st.0, seq![e]);
    if w.0.len() > 1 {
        (w.1, st.1.push((w.0, closes(w.0))))
    } else {
        (w.1, st.1)
    }
}

/// Open chains from the first `i` vertices of `odd`, all segments unused at first.
pub open spec fn open_upto(segs: Seq<(u64, u64)>, odd: Seq<u64>, i: int) -> LinkState
    decreases i,
{
    if i <= 0 {
        (Seq::new(segs.len(), |x: int| false), Seq::empty())
    } else {
        open_step(segs, open_upto(segs, odd, i - 1), odd[i - 1])
    }
}

/// The loop started from segment `k` when it is still unused: mark it, walk on
/// from its second end, and keep the chain.
pub open spec fn loop_step(segs: Seq<(u64, u64)>, st: LinkState, k: int) -> LinkState {
    if 0 <= k < st.0.len() && k < segs.len() && !st.0[k] {
        let w = walk_from(segs, st.0.update(k, true), seq![segs[k].0, segs[k].1]);
        (w.1, st.1.push((w.0, closes(w.0))))
    } else {
        st
    }
}

/// Loops started from the first `k` segments, from state `st`.
pub open spec fn loop_upto(segs: Seq<(u64, u64)>, st: LinkState, k: int) -> LinkState
    decreases k,
{
    if k <= 0 {
        st
    } else {
        loop_step(segs, loop_upto(segs, st, k - 1), k - 1)
    }
}

/// The chains linking makes: open chains from the vertices of `odd` in turn,
/// then loops from the segments left unused, in segment order.
pub open spec fn linked(segs: Seq<(u64, u64)>, odd: Seq<u64>) -> Seq<(Seq<u64>, bool)> {
    loop_upto(segs, open_upto(segs, odd, odd.len() as int), segs.len() as int).1
}

/// `odd` lists, in increasing order, the vertices touched by exactly one segment.
pub open spec fn is_odd_order(segs: Seq<(u64, u64)>, odd: Seq<u64>) -> bool {
    &&& forall|i: int, j: int| 0 <= i < j < odd.len() ==> odd[i] < odd[j]
    &&& forall|e: u64| #[trigger] odd.contains(e) <==> touching(segs, e).len() == 1
}

/// The chains as vertex sequences with their flags.
pub open spec fn chains_view(chains: Seq<(Vec<u64>, bool)>) -> Seq<(Seq<u64>, bool)> {
    chains.map_values(|c: (Vec<u64>, bool)| (c.0@, c.1))
}

/// Edge identities are totally ordered as the map needs.
proof fn lemma_edge_keys_ordered()
    ensures
        vstd::laws_cmp::obeys_cmp::<u64>(),
{
    broadcast use vstd::laws_cmp::group_laws_cmp;

}

/// Two trails that meet end to start make one trail.
proof fn lemma_trail_concat(
    segs: Seq<(u64, u64)>,
    p1: Seq<u64>,
    k1: Seq<int>,
    p2: Seq<u64>,
    k2: Seq<int>,
)
    requires
        is_trail(segs, p1, k1),
        is_trail(segs, p2, k2),
        p1[p1.len() - 1] == p2[0],
    ensures
        is_trail(segs, p1 + p2.drop_first(), k1 + k2),
{
    let p = p1 + p2.drop_first();
    let k = k1 + k2;
    assert forall|t: int| 0 <= t < k.len() implies 0 <= #[trigger] k[t] < segs.len() && joins(
        segs[k[t]],
        p[t],
        p[t + 1],
    ) by {
        if t < k1.len() {
            assert(k[t] == k1[t]);
            assert(p[t] == p1[t]);
            if t + 1 < p1.len() {
                assert(p[t + 1] == p1[t + 1]);
            } else {
                assert(p[t + 1] == p2[0]);
            }
        } else {
            let u = t - k1.len();
            assert(k[t] == k2[u]);
            assert(p[t + 1] == p2[u + 1]);
            if u == 0 {
                assert(p[t] == p1[p1.len() - 1]);
            } else {
                assert(p[t] == p2[u]);
            }
        }
    }
}

/// Appending a list that shares nothing with another keeps both duplicate-free.
proof fn lemma_append_disjoint(a: Seq<int>, b: Seq<int>)
    requires
        a.no_duplicates(),
        b.no_duplicates(),
        forall|t: int| 0 <= t < b.len() ==> !a.contains(#[trigger] b[t]),
    ensures
        (a + b).no_duplicates(),
        forall|x: int| #[trigger] (a + b).contains(x) <==> a.contains(x) || b.contains(x),
{
    let c = a + b;
    assert forall|i: int, j: int| 0 <= i < c.len() && 0 <= j < c.len() && i != j implies c[i]
        != c[j] by {
        if i < a.len() && j >= a.len() {
            assert(b[j - a.len()] == c[j]);
            assert(a.contains(c[i]));
        } else if j < a.len() && i >= a.len() {
            assert(b[i - a.len()] == c[i]);
            assert(a.contains(c[j]));
        } else if i >= a.len() && j >= a.len() {
            assert(c[i] == b[i - a.len()] && c[j] == b[j - a.len()]);
        }
    }
    assert forall|x: int| #[trigger] c.contains(x) implies a.contains(x) || b.contains(x) by {
        let i = choose|i: int| 0 <= i < c.len() && c[i] == x;
        if i >= a.len() {
            assert(b[i - a.len()] == x);
        }
    }
    assert forall|x: int| a.contains(x) || b.contains(x) implies #[trigger] c.contains(x) by {
        if a.contains(x) {
            let i = choose|i: int| 0 <= i < a.len() && a[i] == x;
            assert(c[i] == x);
        } else {
            let i = choose|i: int| 0 <= i < b.len() && b[i] == x;
            assert(c[a.len() + i] == x);
        }
    }
}

/// Adding the steps of one more chain, none of them taken before, keeps every
/// segment taken at most once.
proof fn note_chain(kss: Seq<Seq<int>>, ks: Seq<int>, n: int)
    requires
        kss.flatten().no_duplicates(),
        forall|t: int| 0 <= t < kss.flatten().len() ==> 0 <= #[trigger] kss.flatten()[t] < n,
        ks.no_duplicates(),
        forall|t: int| 0 <= t < ks.len() ==> 0 <= #[trigger] ks[t] < n,
        forall|t: int| 0 <= t < ks.len() ==> !kss.flatten().contains(#[trigger] ks[t]),
    ensures
        kss.push(ks).flatten() == kss.flatten() + ks,
        kss.push(ks).flatten().no_duplicates(),
        forall|t: int|
            0 <= t < kss.push(ks).flatten().len() ==> 0 <= #[trigger] kss.push(ks).flatten()[t] < n,
        forall|x: int| #[trigger]
            kss.push(ks).flatten().contains(x) <==> kss.flatten().contains(x) || ks.contains(x),
{
    kss.lemma_flatten_push(ks);
    lemma_append_disjoint(kss.flatten(), ks);
    let f = kss.flatten() + ks;
    assert forall|t: int| 0 <= t < f.len() implies 0 <= #[trigger] f[t] < n by {
        if t >= kss.flatten().len() {
            assert(f[t] == ks[t - kss.flatten().len()]);
        }
    }
}

/// Note that segment `k` touches vertex `e`.
fn record(incident: &mut BTreeMap<u64, Vec<usize>>, segments: &Vec<(u64, u64)>, e: u64, k: usize)
    requires
        incidence_sound(old(incident)@, segments@),
        k < segments@.len(),
        touches(segments@[k as int], e),
    ensures
        incidence_sound(final(incident)@, segments@),
        final(incident)@.dom() == old(incident)@.dom().insert(e),
        final(incident)@[e]@ == (if old(incident)@.contains_key(e) {
            old(incident)@[e]@
        } else {
            Seq::<usize>::empty()
        }).push(k),
        forall|x: u64| #[trigger]
            old(incident)@.contains_key(x) && x != e ==> final(incident)@[x] == old(incident)@[x],
{
    proof {
        lemma_edge_keys_ordered();
    }
    let ghost before = incident@;
    let mut list = match incident.remove(&e) {
        Some(v) => v,
        None => Vec::new(),
    };
    assert(before.contains_key(e) ==> list@ == before[e]@);
    let ghost old_list = list@;
    list.push(k);
    incident.insert(e, list);
    assert forall|x: u64, t: int|
        incident@.contains_key(x) && 0 <= t < incident@[x]@.len() implies (
        #[trigger] incident@[x]@[t] as int) < segments@.len() && touches(
        segments@[incident@[x]@[t] as int],
        x,
    ) by {
        if x == e {
            if t < old_list.len() {
                assert(incident@[x]@[t] == before[e]@[t]);
            }
        } else {
            assert(incident@[x] == before[x]);
        }
    }
}

/// The first segment in the incidence list of `current` that is still unused.
fn first_unused(
    incident: &BTreeMap<u64, Vec<usize>>,
    segments: &Vec<(u64, u64)>,
    used: &Vec<bool>,
    current: u64,
) -> (r: Option<usize>)
    requires
        incidence_sound(incident@, segments@),
        used@.len() == segments@.len(),
    ensures
        r matches Some(k) ==> k < used@.len() && !used@[k as int] && touches(
            segments@[k as int],
            current,
        ),
        r matches Some(k) ==> incident@.contains_key(current) && exists|t: int|
            0 <= t < incident@[current]@.len() && #[trigger] incident@[current]@[t] == k
                && forall|u: int| 0 <= u < t ==> used@[incident@[current]@[u] as int],
        r is None <==> (!incident@.contains_key(current) || forall|t: int|
            0 <= t < incident@[current]@.len() ==> used@[#[trigger] incident@[current]@[t] as int]),
        r == (if incident@.contains_key(current) {
            first_unused_in(incident@[current]@, used@)
        } else {
            None
        }),
{
    proof {
        lemma_edge_keys_ordered();
    }
    match incident.get(&current) {
        None => None,
        Some(list) => {
            let mut t: usize = 0;
            assert(list@.subrange(0, list@.len() as int) =~= list@);
            while t < list.len()
                invariant
                    incidence_sound(incident@, segments@),
                    used@.len() == segments@.len(),
                    incident@.contains_key(current),
                    incident@[current] == *list,
                    t <= list@.len(),
                    forall|u: int| 0 <= u < t ==> used@[incident@[current]@[u] as int],
                    first_unused_in(list@, used@) == first_unused_in(
                        list@.subrange(t as int, list@.len() as int),
                        used@,
                    ),
                decreases list.len() - t,
            {
                let k = list[t];
                assert(k == incident@[current]@[t as int]);
                let ghost rest = list@.subrange(t as int, list@.len() as int);
                assert(rest[0] == k);
                if !used[k] {
                    return Some(k);
                }
                assert(rest.drop_first() =~= list@.subrange(t + 1, list@.len() as int));
                t = t + 1;
            }
            assert(list@.subrange(t as int, list@.len() as int) =~= Seq::<usize>::empty());
            None
        },
    }
}

/// Walk on from the last vertex of `path`, taking the first unused segment at each
/// vertex, until none is left or the walk is back at the first vertex of `path`.
/// Returns the numbers of the segments taken, in order.
fn walk(
    incident: &BTreeMap<u64, Vec<usize>>,
    segments: &Vec<(u64, u64)>,
    used: &mut Vec<bool>,
    path: &mut Vec<u64>,
) -> (ks: Ghost<Seq<int>>)
    requires
        incidence_sound(incident@, segments@),
        incidence_exact(incident@, segments@),
        old(used)@.len() == segments@.len(),
        old(path)@.len() >= 1,
    ensures
        final(path)@ == walk_from(segments@, old(used)@, old(path)@).0,
        final(used)@ == walk_from(segments@, old(used)@, old(path)@).1,
        final(used)@.len() == segments@.len(),
        final(path)@.len() == old(path)@.len() + ks@.len(),
        final(path)@.subrange(0, old(path)@.len() as int) == old(path)@,
        is_trail(
            segments@,
            final(path)@.subrange(old(path)@.len() - 1, final(path)@.len() as int),
            ks@,
        ),
        ks@.no_duplicates(),
        forall|t: int| 0 <= t < ks@.len() ==> !old(used)@[#[trigger] ks@[t]],
        forall|k: int|
            0 <= k < segments@.len() ==> (#[trigger] final(used)@[k] <==> (old(used)@[k]
                || ks@.contains(k))),
{
    let ghost used0 = used@;
    let ghost path0 = path@;
    let ghost start = path@.len() - 1;
    let ghost mut ks: Seq<int> = Seq::empty();
    let mut current = path[path.len() - 1];
    proof {
        assert(path@.subrange(start, path@.len() as int) =~= seq![current]);
        assert(path@.subrange(0, path0.len() as int) =~= path0);
    }
    loop
        invariant_except_break
            walk_from(segments@, used0, path0) == walk_from(segments@, used@, path@),
        invariant
            incidence_sound(incident@, segments@),
            incidence_exact(incident@, segments@),
            path@.len() >= 1,
            path@[0] == path0[0],
            used@.len() == segments@.len(),
            used0.len() == segments@.len(),
            path0.len() >= 1,
            start == path0.len() - 1,
            path@.len() == path0.len() + ks.len(),
            path@.subrange(0, path0.len() as int) == path0,
            path@[path@.len() - 1] == current,
            is_trail(segments@, path@.subrange(start, path@.len() as int), ks),
            ks.no_duplicates(),
            forall|t: int| 0 <= t < ks.len() ==> !used0[#[trigger] ks[t]],
            forall|k: int|
                0 <= k < segments@.len() ==> (used@[k] <==> (used0[k] || ks.contains(k))),
        ensures
            walk_from(segments@, used0, path0) == (path@, used@),
        decreases unused_count(used@),
    {
        let next = first_unused(incident, segments, used, current);
        proof {
            if touching(segments@, current).len() > 0 {
                assert(incident@.contains_key(current));
            }
            assert(next == first_unused_in(touching(segments@, current), used@));
        }
        let ghost used_b = used@;
        let ghost path_b = path@;
        match next {
            None => {
                break ;
            },
            Some(k) => {
                proof {
                    lemma_mark_used(used@, k as int);
                }
                let ghost before_path = path@;
                let ghost before_ks = ks;
                used.set(k, true);
                let (a, b) = segments[k];
                current = if a == current {
                    b
                } else {
                    a
                };
                path.push(current);
                proof {
                    ks = ks.push(k as int);
                    assert(!before_ks.contains(k as int));
                    assert forall|i: int, j: int|
                        0 <= i < ks.len() && 0 <= j < ks.len() && i != j implies ks[i]
                        != ks[j] by {
                        if i < before_ks.len() && j < before_ks.len() {
                        } else if i < before_ks.len() {
                            assert(before_ks.contains(ks[i]));
                        } else if j < before_ks.len() {
                            assert(before_ks.contains(ks[j]));
                        }
                    }
                    assert forall|x: int| 0 <= x < segments@.len() implies (used@[x] <==> (
                    used0[x] || ks.contains(x))) by {
                        if ks.contains(x) && x != k {
                            let i = choose|i: int| 0 <= i < ks.len() && ks[i] == x;
                            assert(before_ks.contains(x)) by {
                                assert(before_ks[i] == x);
                            }
                        }
                        if x == k {
                            assert(ks[ks.len() - 1] == x);
                        } else if before_ks.contains(x) {
                            let i = choose|i: int| 0 <= i < before_ks.len() && before_ks[i] == x;
                            assert(ks[i] == x);
                        }
                    }
                    let tail = path@.subrange(start, path@.len() as int);
                    let tail0 = before_path.subrange(start, before_path.len() as int);
                    assert(tail =~= tail0.push(current));
                    assert forall|t: int| 0 <= t < ks.len() implies 0 <= #[trigger] ks[t]
                        < segments@.len() && joins(segments@[ks[t]], tail[t], tail[t + 1]) by {
                        if t < before_ks.len() {
                            assert(ks[t] == before_ks[t]);
                            assert(tail[t] == tail0[t]);
                            assert(tail[t + 1] == tail0[t + 1]);
                        } else {
                            assert(tail[t] == tail0[tail0.len() - 1]);
                            assert(tail0[tail0.len() - 1] == before_path[before_path.len() - 1]);
                        }
                    }
                    assert(path@.subrange(0, path0.len() as int) =~= before_path.subrange(
                        0,
                        path0.len() as int,
                    ));
                }
                proof {
                    assert(used@ == used_b.update(k as int, true));
                    assert(path@ == path_b.push(current));
                    assert(path_b.last() == path_b[path_b.len() - 1]);
                }
                if current == path[0] {
                    break ;
                }
            },
        }
    }
    Ghost(ks)
}

/// The incidence map of `segments`: every vertex, with the numbers of the segments
/// touching it in segment order.
fn build_incidence(segments: &Vec<(u64, u64)>) -> (incident: BTreeMap<u64, Vec<usize>>)
    ensures
        incidence_sound(incident@, segments@),
        incidence_exact(incident@, segments@),
{
    proof {
        lemma_edge_keys_ordered();
    }
    let n = segments.len();
    let mut incident: BTreeMap<u64, Vec<usize>> = BTreeMap::new();
    let mut k: usize = 0;
    while k < n
        invariant
            n == segments@.len(),
            k <= n,
            incidence_sound(incident@, segments@),
            forall|e: u64| #[trigger]
                incident@.contains_key(e) ==> incident@[e]@ == touching_upto(
                    segments@,
                    e,
                    k as int,
                ),
            forall|e: u64| #[trigger]
                touching_upto(segments@, e, k as int).len() > 0 ==> incident@.contains_key(e),
        decreases n - k,
    {
        let (a, b) = segments[k];
        let ghost m0 = incident@;
        record(&mut incident, segments, a, k);
        let ghost m1 = incident@;
        record(&mut incident, segments, b, k);
        proof {
            assert forall|e: u64| #[trigger]
                incident@.contains_key(e) implies incident@[e]@ == touching_upto(
                segments@,
                e,
                k + 1,
            ) by {
                let before = touching_upto(segments@, e, k as int);
                if !m0.contains_key(e) {
                    assert(before =~= Seq::<usize>::empty());
                }
            }
            assert forall|e: u64| #[trigger]
                touching_upto(segments@, e, k + 1).len() > 0 implies incident@.contains_key(e) by {
                let before = touching_upto(segments@, e, k as int);
                if e != a && e != b {
                    assert(touching_upto(segments@, e, k + 1) == before);
                }
            }
        }
        k = k + 1;
    }
    incident
}

/// Keys handed out by the map's key iterator come in increasing order.
proof fn lemma_keys_increasing(rs: Seq<&u64>)
    requires
        vstd::std_specs::btree::increasing_seq(rs),
    ensures
        forall|i: int, j: int| 0 <= i < j < rs.len() ==> *rs[i] < *rs[j],
{
    broadcast use vstd::laws_cmp::group_laws_cmp;
    broadcast use vstd::std_specs::btree::axiom_increasing_seq_meaning;

    assert forall|i: int, j: int| 0 <= i < j < rs.len() implies *rs[i] < *rs[j] by {
        assert(vstd::std_specs::cmp::OrdSpec::cmp_spec(&rs[i], &rs[j]) is Less);
    }
}

/// The vertices touched by exactly one segment, in increasing order.
fn odd_vertices(incident: &BTreeMap<u64, Vec<usize>>, segments: &Vec<(u64, u64)>) -> (odd: Vec<
    u64,
>)
    requires
        incidence_exact(incident@, segments@),
    ensures
        is_odd_order(segments@, odd@),
{
    proof {
        lemma_edge_keys_ordered();
    }
    let ghost rs = vstd::std_specs::btree::spec_keys_iter(incident).remaining();
    let ghost ks = rs.unref();
    proof {
        vstd::std_specs::btree::axiom_spec_keys_iter(incident);
        lemma_keys_increasing(rs);
    }
    let ghost mut cnt: int = 0;
    let mut odd: Vec<u64> = Vec::new();
    for e in it: incident.keys()
        invariant
            incidence_exact(incident@, segments@),
            rs == vstd::std_specs::btree::spec_keys_iter(incident).remaining(),
            ks == rs.unref(),
            it.seq() == rs,
            cnt == it.index(),
            ks.to_set() == incident@.dom(),
            forall|i: int, j: int| 0 <= i < j < rs.len() ==> *rs[i] < *rs[j],
            forall|x: u64| #[trigger]
                odd@.contains(x) <==> (ks.take(cnt).contains(x) && incident@[x]@.len() == 1),
            forall|i: int| 0 <= i < odd@.len() ==> ks.take(cnt).contains(#[trigger] odd@[i]),
            forall|i: int, j: int| 0 <= i < j < odd@.len() ==> odd@[i] < odd@[j],
    {
        let ghost odd0 = odd@;
        assert(*e == ks[cnt]);
        assert(ks.to_set().contains(*e));
        match incident.get(e) {
            Some(list) => {
                if list.len() == 1 {
                    odd.push(*e);
                }
            },
            None => {},
        }
        proof {
            let t0 = ks.take(cnt);
            let t1 = ks.take(cnt + 1);
            assert(t1 =~= t0.push(ks[cnt]));
            assert forall|x: u64| t0.contains(x) implies x < ks[cnt] by {
                let u = choose|u: int| 0 <= u < t0.len() && t0[u] == x;
                assert(*rs[u] < *rs[cnt]);
            }
            assert forall|i: int| 0 <= i < odd@.len() implies t1.contains(#[trigger] odd@[i]) by {
                if i < odd0.len() {
                    assert(t0.contains(odd0[i]));
                    let u = choose|u: int| 0 <= u < t0.len() && t0[u] == odd0[i];
                    assert(t1[u] == odd0[i]);
                } else {
                    assert(t1[cnt] == ks[cnt]);
                }
            }
            assert forall|x: u64| #[trigger]
                odd@.contains(x) <==> (t1.contains(x) && incident@[x]@.len() == 1) by {
                if odd@.contains(x) {
                    let i = choose|i: int| 0 <= i < odd@.len() && odd@[i] == x;
                    if i < odd0.len() {
                        assert(odd0.contains(x));
                    }
                }
                if t1.contains(x) && incident@[x]@.len() == 1 {
                    let u = choose|u: int| 0 <= u < t1.len() && t1[u] == x;
                    if u < cnt {
                        assert(t0[u] == x);
                        assert(odd0.contains(x));
                        let i = choose|i: int| 0 <= i < odd0.len() && odd0[i] == x;
                        assert(odd@[i] == x);
                    } else {
                        assert(odd@[odd@.len() - 1] == x);
                    }
                }
            }
            cnt = cnt + 1;
        }
    }
    proof {
        assert(ks.take(cnt) =~= ks);
        assert forall|x: u64| #[trigger]
            odd@.contains(x) <==> touching(segments@, x).len() == 1 by {
            if touching(segments@, x).len() > 0 {
                assert(incident@.contains_key(x));
            }
            if incident@.contains_key(x) {
                assert(incident@.dom().contains(x));
                assert(ks.to_set().contains(x));
            }
        }
    }
    odd
}

/// Link segments into chains by vertex identity.
///
/// Open chains come first, one walked from each vertex touched by exactly one
/// segment (in increasing order of vertex) while it still has an unused segment;
/// then loops, one started from each segment still unused, in order. At every
/// vertex the walk takes the first unused segment in segment order, and it stops
/// where no unused segment is left or where it is back at its first vertex. A chain
/// is reported closed when it has more than two vertices and ends where it began.
/// For segments as marching squares makes them, every chain is closed or runs
/// between two free ends.
pub fn link_segments(segments: &Vec<(u64, u64)>) -> (chains: Vec<(Vec<u64>, bool)>)
    ensures
        exists|odd: Seq<u64>|
            is_odd_order(segments@, odd) && chains_view(chains@) == linked(segments@, odd),
        exists|kss: Seq<Seq<int>>| decomposes(segments@, chains@, kss),
        simple_segments(segments@) ==> forall|c: int|
            0 <= c < chains@.len() ==> ends_free_or_closed(
                segments@,
                #[trigger] chains_view(chains@)[c],
            ),
{
    let n = segments.len();
    let incident = build_incidence(segments);
    let mut used: Vec<bool> = Vec::new();
    while used.len() < n
        invariant
            n == segments@.len(),
            used@.len() <= n,
            forall|x: int| 0 <= x < used@.len() ==> !used@[x],
        decreases n - used.len(),
    {
        used.push(false);
    }
    // The ends of open chains: vertices touched by exactly one segment.
    let odd = odd_vertices(&incident, segments);
    let mut chains: Vec<(Vec<u64>, bool)> = Vec::new();
    proof {
        assert(used@ =~= open_upto(segments@, odd@, 0).0);
        assert(chains_view(chains@) =~= open_upto(segments@, odd@, 0).1);
    }
    let ghost mut kss: Seq<Seq<int>> = Seq::empty();
    let mut i: usize = 0;
    while i < odd.len()
        invariant
            n == segments@.len(),
            incidence_sound(incident@, segments@),
            incidence_exact(incident@, segments@),
            i <= odd@.len(),
            used@ == open_upto(segments@, odd@, i as int).0,
            chains_view(chains@) == open_upto(segments@, odd@, i as int).1,
            used@.len() == n,
            kss.len() == chains@.len(),
            forall|c: int|
                0 <= c < chains@.len() ==> {
                    &&& is_trail(segments@, #[trigger] chains@[c].0@, kss[c])
                    &&& chains@[c].0@.len() >= 2
                    &&& chains@[c].1 == closes(chains@[c].0@)
                },
            kss.flatten().no_duplicates(),
            forall|t: int| 0 <= t < kss.flatten().len() ==> 0 <= #[trigger] kss.flatten()[t] < n,
            forall|x: int| 0 <= x < n ==> (used@[x] <==> kss.flatten().contains(x)),
        decreases odd.len() - i,
    {
        let e = odd[i];
        let mut path: Vec<u64> = Vec::new();
        path.push(e);
        let ghost used_before = used@;
        let ghost chains_before = chains@;
        proof {
            assert(path@ =~= seq![e]);
        }
        let ks = walk(&incident, segments, &mut used, &mut path);
        proof {
            assert(path@.subrange(0, path@.len() as int) =~= path@);
            assert forall|t: int| 0 <= t < ks@.len() implies !kss.flatten().contains(
                #[trigger] ks@[t],
            ) by {
                assert(!used_before[ks@[t]]);
            }
        }
        let ghost kss_before = kss;
        let ghost grew = path@.len() > 1;
        if path.len() > 1 {
            let closed = path.len() > 2 && path[0] == path[path.len() - 1];
            proof {
                note_chain(kss, ks@, n as int);
            }
            let ghost pv = path@;
            chains.push((path, closed));
            proof {
                kss = kss.push(ks@);
                assert(chains_view(chains@) =~= chains_view(chains_before).push((pv, closes(pv))));
            }
        }
        proof {
            assert forall|x: int| 0 <= x < n implies (used@[x] <==> kss.flatten().contains(x)) by {
                if grew {
                    assert(kss.flatten().contains(x) <==> kss_before.flatten().contains(x)
                        || ks@.contains(x));
                } else {
                    assert(ks@.len() == 0);
                    assert(!ks@.contains(x));
                }
                assert(used@[x] <==> (used_before[x] || ks@.contains(x)));
            }
        }
        i = i + 1;
    }
    // The loops: every segment still unused starts one.
    let ghost opened = open_upto(segments@, odd@, odd@.len() as int);
    let mut k: usize = 0;
    while k < n
        invariant
            n == segments@.len(),
            incidence_sound(incident@, segments@),
            incidence_exact(incident@, segments@),
            opened == open_upto(segments@, odd@, odd@.len() as int),
            used@ == loop_upto(segments@, opened, k as int).0,
            chains_view(chains@) == loop_upto(segments@, opened, k as int).1,
            used@.len() == n,
            k <= n,
            forall|x: int| 0 <= x < k ==> used@[x],
            kss.len() == chains@.len(),
            forall|c: int|
                0 <= c < chains@.len() ==> {
                    &&& is_trail(segments@, #[trigger] chains@[c].0@, kss[c])
                    &&& chains@[c].0@.len() >= 2
                    &&& chains@[c].1 == closes(chains@[c].0@)
                },
            kss.flatten().no_duplicates(),
            forall|t: int| 0 <= t < kss.flatten().len() ==> 0 <= #[trigger] kss.flatten()[t] < n,
            forall|x: int| 0 <= x < n ==> (used@[x] <==> kss.flatten().contains(x)),
        decreases n - k,
    {
        if !used[k] {
            let ghost used_before = used@;
            let ghost chains_before = chains@;
            used.set(k, true);
            let ghost used_mid = used@;
            let (a, b) = segments[k];
            let mut path: Vec<u64> = Vec::new();
            path.push(a);
            path.push(b);
            let ghost first = path@;
            proof {
                assert(first =~= seq![segments@[k as int].0, segments@[k as int].1]);
            }
            let ks = walk(&incident, segments, &mut used, &mut path);
            let closed = path.len() > 2 && path[0] == path[path.len() - 1];
            proof {
                let whole = seq![k as int] + ks@;
                let tail = path@.subrange(1, path@.len() as int);
                assert(is_trail(segments@, first, seq![k as int]));
                lemma_trail_concat(segments@, first, seq![k as int], tail, ks@);
                assert(first + tail.drop_first() =~= path@);
                assert(!ks@.contains(k as int));
                lemma_append_disjoint(seq![k as int], ks@);
                assert forall|t: int| 0 <= t < whole.len() implies !used_before[#[trigger] whole[t]]
                    by {
                    if t > 0 {
                        assert(whole[t] == ks@[t - 1]);
                    }
                }
                assert forall|x: int| 0 <= x < n implies (used@[x] <==> (used_before[x]
                    || whole.contains(x))) by {
                    if x == k {
                        assert(whole[0] == x);
                    }
                    assert(used_mid[x] == (used_before[x] || x == k));
                    assert(used@[x] <==> (used_mid[x] || ks@.contains(x)));
                    assert(whole.contains(x) <==> (seq![k as int].contains(x) || ks@.contains(x)));
                    if seq![k as int].contains(x) {
                        assert(seq![k as int][0] == x);
                    }
                }
                assert forall|t: int| 0 <= t < whole.len() implies !kss.flatten().contains(
                    #[trigger] whole[t],
                ) by {
                    assert(!used_before[whole[t]]);
                }
                note_chain(kss, whole, n as int);
            }
            let ghost pv = path@;
            chains.push((path, closed));
            proof {
                kss = kss.push(seq![k as int] + ks@);
                assert(chains_view(chains@) =~= chains_view(chains_before).push((pv, closes(pv))));
            }
        }
        k = k + 1;
    }
    proof {
        assert(decomposes(segments@, chains@, kss));
        assert(chains_view(chains@) == linked(segments@, odd@));
        if simple_segments(segments@) {
            lemma_open_chains_end_at_free_ends(segments@, odd@);
        }
    }
    chains
}

/// How many entries of `list` are still unused.
pub open spec fn unused_in(list: Seq<usize>, used: Seq<bool>) -> int
    decreases list.len(),
{
    if list.len() == 0 {
        0
    } else {
        (if !used[list[0] as int] {
            1int
        } else {
            0int
        }) + unused_in(list.drop_first(), used)
    }
}

/// How many times `k` occurs in `list`.
pub open spec fn occurrences(list: Seq<usize>, k: usize) -> int
    decreases list.len(),
{
    if list.len() == 0 {
        0
    } else {
        (if list[0] == k {
            1int
        } else {
            0int
        }) + occurrences(list.drop_first(), k)
    }
}

/// The segments still unused at vertex `v`, counted as the incidence map lists them.
pub open spec fn unused_at(segs: Seq<(u64, u64)>, used: Seq<bool>, v: u64) -> int {
    unused_in(touching(segs, v), used)
}

/// Every vertex has all of its segments unused or none.
pub open spec fn all_or_none(segs: Seq<(u64, u64)>, used: Seq<bool>) -> bool {
    forall|u: u64| #[trigger]
        unused_at(segs, used, u) == 0 || unused_at(segs, used, u) == touching(segs, u).len()
}

/// Every vertex touched by exactly one segment has it used.
pub open spec fn free_ends_used(segs: Seq<(u64, u64)>, used: Seq<bool>) -> bool {
    forall|u: u64| touching(segs, u).len() == 1 ==> #[trigger] unused_at(segs, used, u) == 0
}

/// The shape marching squares gives: no segment joins a vertex to itself, and no
/// vertex is touched by more than two segments.
pub open spec fn simple_segments(segs: Seq<(u64, u64)>) -> bool {
    &&& segs.len() <= usize::MAX
    &&& forall|k: int| 0 <= k < segs.len() ==> #[trigger] segs[k].0 != segs[k].1
    &&& forall|v: u64| #[trigger] touching(segs, v).len() <= 2
}

proof fn lemma_touching_range(segs: Seq<(u64, u64)>, e: u64, m: int)
    requires
        0 <= m <= segs.len(),
        segs.len() <= usize::MAX,
    ensures
        forall|t: int|
            0 <= t < touching_upto(segs, e, m).len() ==> (#[trigger] touching_upto(segs, e, m)[t]
                as int) < m,
    decreases m,
{
    if m > 0 {
        lemma_touching_range(segs, e, m - 1);
        let prev = touching_upto(segs, e, m - 1);
        let j = (m - 1) as usize;
        assert(j as int == m - 1);
        let a = if segs[m - 1].0 == e {
            prev.push(j)
        } else {
            prev
        };
        assert forall|t: int| 0 <= t < a.len() implies (#[trigger] a[t] as int) < m by {
            if t < prev.len() {
                assert(a[t] == prev[t]);
            }
        }
        let b = if segs[m - 1].1 == e {
            a.push(j)
        } else {
            a
        };
        assert(touching_upto(segs, e, m) == b);
        assert forall|t: int| 0 <= t < b.len() implies (#[trigger] b[t] as int) < m by {
            if t < a.len() {
                assert(b[t] == a[t]);
            }
        }
    }
}

proof fn lemma_occurrences_push(s: Seq<usize>, x: usize, k: usize)
    ensures
        occurrences(s.push(x), k) == occurrences(s, k) + (if x == k {
            1int
        } else {
            0int
        }),
    decreases s.len(),
{
    let t = s.push(x);
    assert(t.len() > 0);
    assert(occurrences(t, k) == (if t[0] == k {
        1int
    } else {
        0int
    }) + occurrences(t.drop_first(), k));
    if s.len() > 0 {
        lemma_occurrences_push(s.drop_first(), x, k);
        assert(t[0] == s[0]);
        assert(t.drop_first() =~= s.drop_first().push(x));
    } else {
        assert(t[0] == x);
        assert(t.drop_first() =~= Seq::<usize>::empty());
        assert(occurrences(Seq::<usize>::empty(), k) == 0);
    }
}

proof fn lemma_touching_occurrences(segs: Seq<(u64, u64)>, e: u64, m: int, k: usize)
    requires
        0 <= m <= segs.len(),
        segs.len() <= usize::MAX,
    ensures
        occurrences(touching_upto(segs, e, m), k) == (if (k as int) < m {
            (if segs[k as int].0 == e {
                1int
            } else {
                0int
            }) + (if segs[k as int].1 == e {
                1int
            } else {
                0int
            })
        } else {
            0int
        }),
    decreases m,
{
    if m > 0 {
        lemma_touching_occurrences(segs, e, m - 1, k);
        let prev = touching_upto(segs, e, m - 1);
        let j = (m - 1) as usize;
        assert(j as int == m - 1);
        lemma_occurrences_push(prev, j, k);
        lemma_occurrences_push(prev.push(j), j, k);
    }
}

proof fn lemma_occurrences_contains(list: Seq<usize>, k: usize)
    requires
        list.contains(k),
    ensures
        occurrences(list, k) >= 1,
    decreases list.len(),
{
    lemma_occurrences_nonneg(list.drop_first(), k);
    if list[0] != k {
        let t = choose|t: int| 0 <= t < list.len() && list[t] == k;
        assert(list.drop_first()[t - 1] == k);
        lemma_occurrences_contains(list.drop_first(), k);
    }
}

proof fn lemma_occurrences_nonneg(list: Seq<usize>, k: usize)
    ensures
        occurrences(list, k) >= 0,
    decreases list.len(),
{
    if list.len() > 0 {
        lemma_occurrences_nonneg(list.drop_first(), k);
    }
}

proof fn lemma_unused_bounds(list: Seq<usize>, used: Seq<bool>)
    ensures
        0 <= unused_in(list, used) <= list.len(),
        (forall|t: int| 0 <= t < list.len() ==> !used[#[trigger] list[t] as int]) ==> unused_in(
            list,
            used,
        ) == list.len(),
    decreases list.len(),
{
    if list.len() > 0 {
        lemma_unused_bounds(list.drop_first(), used);
        if forall|t: int| 0 <= t < list.len() ==> !used[#[trigger] list[t] as int] {
            assert forall|t: int| 0 <= t < list.drop_first().len() implies !used[
                #[trigger] list.drop_first()[t] as int] by {
                assert(list.drop_first()[t] == list[t + 1]);
            }
        }
    }
}

proof fn lemma_unused_update(list: Seq<usize>, used: Seq<bool>, k: usize)
    requires
        (k as int) < used.len(),
        !used[k as int],
        forall|t: int| 0 <= t < list.len() ==> (#[trigger] list[t] as int) < used.len(),
    ensures
        unused_in(list, used.update(k as int, true)) == unused_in(list, used) - occurrences(list, k),
    decreases list.len(),
{
    if list.len() > 0 {
        assert forall|t: int| 0 <= t < list.drop_first().len() implies (
        #[trigger] list.drop_first()[t] as int) < used.len() by {
            assert(list.drop_first()[t] == list[t + 1]);
        }
        lemma_unused_update(list.drop_first(), used, k);
        assert((list[0] as int) < used.len());
    }
}

proof fn lemma_first_unused(list: Seq<usize>, used: Seq<bool>)
    requires
        forall|t: int| 0 <= t < list.len() ==> (#[trigger] list[t] as int) < used.len(),
    ensures
        first_unused_in(list, used) is None <==> unused_in(list, used) == 0,
        first_unused_in(list, used) matches Some(k) ==> list.contains(k) && (k as int)
            < used.len() && !used[k as int],
    decreases list.len(),
{
    if list.len() > 0 {
        assert forall|t: int| 0 <= t < list.drop_first().len() implies (
        #[trigger] list.drop_first()[t] as int) < used.len() by {
            assert(list.drop_first()[t] == list[t + 1]);
        }
        lemma_first_unused(list.drop_first(), used);
        lemma_unused_bounds(list.drop_first(), used);
        assert((list[0] as int) < used.len());
        if first_unused_in(list, used) is Some && used[list[0] as int] {
            let k = first_unused_in(list, used)->0;
            assert(list.drop_first().contains(k));
            let t = choose|t: int| 0 <= t < list.drop_first().len() && list.drop_first()[t] == k;
            assert(list[t + 1] == k);
        }
        if first_unused_in(list, used) is Some && !used[list[0] as int] {
            assert(list[0] == first_unused_in(list, used)->0);
        }
    }
}

/// Marking segment `k` used takes one unused segment off each of its two ends.
proof fn lemma_mark_ends(segs: Seq<(u64, u64)>, used: Seq<bool>, k: usize)
    requires
        used.len() == segs.len(),
        segs.len() <= usize::MAX,
        (k as int) < segs.len(),
        !used[k as int],
    ensures
        forall|u: u64| #[trigger]
            unused_at(segs, used.update(k as int, true), u) == unused_at(segs, used, u) - ((
            if segs[k as int].0 == u {
                1int
            } else {
                0int
            }) + (if segs[k as int].1 == u {
                1int
            } else {
                0int
            })),
        forall|u: u64| 0 <= #[trigger] unused_at(segs, used.update(k as int, true), u),
{
    assert forall|u: u64| #[trigger]
        unused_at(segs, used.update(k as int, true), u) == unused_at(segs, used, u) - ((
        if segs[k as int].0 == u {
            1int
        } else {
            0int
        }) + (if segs[k as int].1 == u {
            1int
        } else {
            0int
        })) by {
        lemma_touching_range(segs, u, segs.len() as int);
        lemma_unused_update(touching(segs, u), used, k);
        lemma_touching_occurrences(segs, u, segs.len() as int, k);
    }
    assert forall|u: u64| 0 <= #[trigger] unused_at(segs, used.update(k as int, true), u) by {
        lemma_unused_bounds(touching(segs, u), used.update(k as int, true));
    }
}

/// What the first unused segment at `v` is: unused, and touching `v`.
proof fn lemma_step_at(segs: Seq<(u64, u64)>, used: Seq<bool>, v: u64)
    requires
        used.len() == segs.len(),
        segs.len() <= usize::MAX,
    ensures
        first_unused_in(touching(segs, v), used) is None <==> unused_at(segs, used, v) == 0,
        first_unused_in(touching(segs, v), used) matches Some(k) ==> (k as int) < segs.len()
            && !used[k as int] && touches(segs[k as int], v),
        0 <= unused_at(segs, used, v) <= touching(segs, v).len(),
{
    lemma_touching_range(segs, v, segs.len() as int);
    lemma_first_unused(touching(segs, v), used);
    lemma_unused_bounds(touching(segs, v), used);
    if first_unused_in(touching(segs, v), used) is Some {
        let k = first_unused_in(touching(segs, v), used)->0;
        lemma_occurrences_contains(touching(segs, v), k);
        lemma_touching_occurrences(segs, v, segs.len() as int, k);
    }
}

/// A walk from a vertex touched by one segment, where every other vertex has all
/// its segments unused or none, ends at another vertex touched by one segment.
proof fn lemma_open_walk(segs: Seq<(u64, u64)>, used: Seq<bool>, path: Seq<u64>)
    requires
        simple_segments(segs),
        used.len() == segs.len(),
        path.len() >= 1,
        touching(segs, path[0]).len() == 1,
        path.len() == 1 ==> all_or_none(segs, used),
        path.len() >= 2 ==> {
            &&& unused_at(segs, used, path[0]) == 0
            &&& path.last() != path[0]
            &&& unused_at(segs, used, path.last()) == touching(segs, path.last()).len() - 1
            &&& forall|u: u64|
                u != path.last() ==> #[trigger] unused_at(segs, used, u) == 0 || unused_at(
                    segs,
                    used,
                    u,
                ) == touching(segs, u).len()
        },
    ensures
        ({
            let w = walk_from(segs, used, path);
            &&& w.0.len() >= path.len()
            &&& w.0[0] == path[0]
            &&& w.1.len() == used.len()
            &&& w.0.len() >= 2 ==> touching(segs, w.0.last()).len() == 1 && w.0.last() != path[0]
            &&& all_or_none(segs, w.1)
            &&& unused_at(segs, w.1, path[0]) == 0
            &&& forall|u: u64| #[trigger] unused_at(segs, w.1, u) <= unused_at(segs, used, u)
        }),
    decreases unused_count(used),
{
    let v = path.last();
    let s = path[0];
    lemma_step_at(segs, used, v);
    match first_unused_in(touching(segs, v), used) {
        None => {
            if path.len() >= 2 {
                assert(touching(segs, v).len() == 1);
                assert forall|u: u64| #[trigger]
                    unused_at(segs, used, u) == 0 || unused_at(segs, used, u) == touching(
                        segs,
                        u,
                    ).len() by {
                    if u != v {
                    }
                }
            }
        },
        Some(k) => {
            lemma_mark_used(used, k as int);
            lemma_mark_ends(segs, used, k);
            let x = if segs[k as int].0 == v {
                segs[k as int].1
            } else {
                segs[k as int].0
            };
            let grown = path.push(x);
            let marked = used.update(k as int, true);
            assert(x != v);
            // `x` had the segment unused, so all of its segments.
            assert(unused_at(segs, marked, x) >= 0);
            assert(unused_at(segs, used, x) >= 1);
            assert(x != s);
            lemma_step_at(segs, used, x);
            assert(unused_at(segs, used, x) == touching(segs, x).len()) by {
                if path.len() == 1 {
                    assert(all_or_none(segs, used));
                }
            }
            assert(touching(segs, v).len() <= 2);
            assert(unused_at(segs, marked, v) == 0) by {
                if path.len() == 1 {
                    assert(v == s);
                }
            }
            assert(grown.last() == x);
            assert(grown[0] == s);
            assert forall|u: u64| u != grown.last() implies #[trigger] unused_at(segs, marked, u)
                == 0 || unused_at(segs, marked, u) == touching(segs, u).len() by {
                if u != v {
                    if path.len() == 1 {
                        assert(all_or_none(segs, used));
                    }
                }
            }
            lemma_open_walk(segs, marked, grown);
        },
    }
}

/// A walk that started with a segment from `path[0]`, where every vertex touched by
/// one segment has it used and every other vertex but the two ends has all its
/// segments unused or none, comes back to where it started.
proof fn lemma_loop_walk(segs: Seq<(u64, u64)>, used: Seq<bool>, path: Seq<u64>)
    requires
        simple_segments(segs),
        used.len() == segs.len(),
        path.len() >= 2,
        path.last() != path[0],
        unused_at(segs, used, path[0]) == 1,
        unused_at(segs, used, path.last()) == 1,
        free_ends_used(segs, used),
        forall|u: u64|
            u != path.last() && u != path[0] ==> #[trigger] unused_at(segs, used, u) == 0
                || unused_at(segs, used, u) == touching(segs, u).len(),
    ensures
        ({
            let w = walk_from(segs, used, path);
            &&& w.0.len() >= 3
            &&& w.0[0] == path[0]
            &&& w.0.last() == path[0]
            &&& w.1.len() == used.len()
            &&& all_or_none(segs, w.1)
            &&& free_ends_used(segs, w.1)
        }),
    decreases unused_count(used),
{
    let v = path.last();
    let s = path[0];
    lemma_step_at(segs, used, v);
    let k = first_unused_in(touching(segs, v), used)->0;
    lemma_mark_used(used, k as int);
    lemma_mark_ends(segs, used, k);
    let x = if segs[k as int].0 == v {
        segs[k as int].1
    } else {
        segs[k as int].0
    };
    let grown = path.push(x);
    let marked = used.update(k as int, true);
    assert(x != v);
    assert(grown.last() == x);
    assert(grown[0] == s);
    lemma_step_at(segs, used, x);
    if x == s {
        assert(unused_at(segs, marked, s) == 0);
        assert forall|u: u64| #[trigger]
            unused_at(segs, marked, u) == 0 || unused_at(segs, marked, u) == touching(segs, u).len() by {
        }
        assert forall|u: u64| touching(segs, u).len() == 1 implies #[trigger] unused_at(
            segs,
            marked,
            u,
        ) == 0 by {
            if u != v && u != s {
                assert(unused_at(segs, used, u) == 0);
            }
        }
    } else {
        assert(unused_at(segs, marked, x) >= 0);
        assert(unused_at(segs, used, x) >= 1);
        assert(unused_at(segs, used, x) == touching(segs, x).len());
        assert(touching(segs, x).len() == 2) by {
            assert(touching(segs, x).len() <= 2);
            if touching(segs, x).len() == 1 {
                assert(unused_at(segs, used, x) == 0);
            }
        }
        assert forall|u: u64| touching(segs, u).len() == 1 implies #[trigger] unused_at(
            segs,
            marked,
            u,
        ) == 0 by {
            if u != v && u != s && u != x {
                assert(unused_at(segs, used, u) == 0);
            }
        }
        lemma_loop_walk(segs, marked, grown);
    }
}

/// The chain is closed, or runs between two distinct vertices each touched by
/// exactly one segment.
pub open spec fn ends_free_or_closed(segs: Seq<(u64, u64)>, c: (Seq<u64>, bool)) -> bool {
    ||| c.1
    ||| {
        &&& c.0.len() >= 2
        &&& touching(segs, c.0[0]).len() == 1
        &&& touching(segs, c.0.last()).len() == 1
        &&& c.0[0] != c.0.last()
    }
}

proof fn lemma_open_phase(segs: Seq<(u64, u64)>, odd: Seq<u64>, i: int)
    requires
        simple_segments(segs),
        is_odd_order(segs, odd),
        0 <= i <= odd.len(),
    ensures
        open_upto(segs, odd, i).0.len() == segs.len(),
        all_or_none(segs, open_upto(segs, odd, i).0),
        forall|j: int| 0 <= j < i ==> #[trigger] unused_at(segs, open_upto(segs, odd, i).0, odd[j]) == 0,
        forall|c: int|
            0 <= c < open_upto(segs, odd, i).1.len() ==> ends_free_or_closed(
                segs,
                #[trigger] open_upto(segs, odd, i).1[c],
            ),
    decreases i,
{
    if i == 0 {
        let used = Seq::new(segs.len(), |x: int| false);
        assert forall|u: u64| #[trigger]
            unused_at(segs, used, u) == 0 || unused_at(segs, used, u) == touching(segs, u).len() by {
            lemma_touching_range(segs, u, segs.len() as int);
            lemma_unused_bounds(touching(segs, u), used);
        }
    } else {
        lemma_open_phase(segs, odd, i - 1);
        let st = open_upto(segs, odd, i - 1);
        let e = odd[i - 1];
        assert(odd.contains(e));
        let path = seq![e];
        assert(path.last() == e && path[0] == e);
        lemma_open_walk(segs, st.0, path);
        let w = walk_from(segs, st.0, path);
        let next = open_upto(segs, odd, i);
        assert(next == open_step(segs, st, e));
        assert forall|j: int| 0 <= j < i implies #[trigger] unused_at(segs, next.0, odd[j]) == 0 by {
            lemma_touching_range(segs, odd[j], segs.len() as int);
            lemma_unused_bounds(touching(segs, odd[j]), next.0);
            if j < i - 1 {
                assert(unused_at(segs, st.0, odd[j]) == 0);
                assert(unused_at(segs, w.1, odd[j]) <= unused_at(segs, st.0, odd[j]));
            }
        }
        assert forall|c: int| 0 <= c < next.1.len() implies ends_free_or_closed(
            segs,
            #[trigger] next.1[c],
        ) by {
            if c < st.1.len() {
                assert(next.1[c] == st.1[c]);
            }
        }
    }
}

proof fn lemma_loop_phase(segs: Seq<(u64, u64)>, st0: LinkState, k: int)
    requires
        simple_segments(segs),
        st0.0.len() == segs.len(),
        all_or_none(segs, st0.0),
        free_ends_used(segs, st0.0),
        forall|c: int| 0 <= c < st0.1.len() ==> ends_free_or_closed(segs, #[trigger] st0.1[c]),
        0 <= k <= segs.len(),
    ensures
        loop_upto(segs, st0, k).0.len() == segs.len(),
        all_or_none(segs, loop_upto(segs, st0, k).0),
        free_ends_used(segs, loop_upto(segs, st0, k).0),
        forall|c: int|
            0 <= c < loop_upto(segs, st0, k).1.len() ==> ends_free_or_closed(
                segs,
                #[trigger] loop_upto(segs, st0, k).1[c],
            ),
    decreases k,
{
    if k > 0 {
        lemma_loop_phase(segs, st0, k - 1);
        let st = loop_upto(segs, st0, k - 1);
        let j = k - 1;
        let next = loop_upto(segs, st0, k);
        assert(next == loop_step(segs, st, j));
        if !st.0[j] {
            let used = st.0;
            let q = j as usize;
            assert(q as int == j);
            lemma_mark_ends(segs, used, q);
            let marked = used.update(j, true);
            let a = segs[j].0;
            let b = segs[j].1;
            assert(a != b);
            assert(unused_at(segs, marked, a) >= 0);
            assert(unused_at(segs, marked, b) >= 0);
            assert(touching(segs, a).len() <= 2);
            assert(touching(segs, b).len() <= 2);
            assert(unused_at(segs, used, a) == touching(segs, a).len());
            assert(unused_at(segs, used, b) == touching(segs, b).len());
            assert(unused_at(segs, marked, a) == 1) by {
                if touching(segs, a).len() == 1 {
                    assert(unused_at(segs, used, a) == 0);
                }
            }
            assert(unused_at(segs, marked, b) == 1) by {
                if touching(segs, b).len() == 1 {
                    assert(unused_at(segs, used, b) == 0);
                }
            }
            let path = seq![a, b];
            assert(path[0] == a && path.last() == b);
            assert forall|u: u64|
                u != path.last() && u != path[0] implies #[trigger] unused_at(segs, marked, u) == 0
                    || unused_at(segs, marked, u) == touching(segs, u).len() by {
                assert(unused_at(segs, used, u) == 0 || unused_at(segs, used, u) == touching(
                    segs,
                    u,
                ).len());
            }
            assert forall|u: u64| touching(segs, u).len() == 1 implies #[trigger] unused_at(
                segs,
                marked,
                u,
            ) == 0 by {
                assert(unused_at(segs, used, u) == 0);
            }
            lemma_loop_walk(segs, marked, path);
            let w = walk_from(segs, marked, path);
            assert(closes(w.0));
            assert forall|c: int| 0 <= c < next.1.len() implies ends_free_or_closed(
                segs,
                #[trigger] next.1[c],
            ) by {
                if c < st.1.len() {
                    assert(next.1[c] == st.1[c]);
                }
            }
        }
    }
}

/// For segments of the shape marching squares gives (no segment from a vertex to
/// itself, no vertex touched by more than two), every chain that linking makes is
/// closed or runs between two distinct vertices each touched by exactly one
/// segment: open chains end at the free ends of the level set.
pub proof fn lemma_open_chains_end_at_free_ends(segs: Seq<(u64, u64)>, odd: Seq<u64>)
    requires
        simple_segments(segs),
        is_odd_order(segs, odd),
    ensures
        forall|c: int|
            0 <= c < linked(segs, odd).len() ==> ends_free_or_closed(
                segs,
                #[trigger] linked(segs, odd)[c],
            ),
{
    lemma_open_phase(segs, odd, odd.len() as int);
    let st0 = open_upto(segs, odd, odd.len() as int);
    assert forall|u: u64| touching(segs, u).len() == 1 implies #[trigger] unused_at(segs, st0.0, u)
        == 0 by {
        assert(odd.contains(u));
        let j = choose|j: int| 0 <= j < odd.len() && odd[j] == u;
        assert(unused_at(segs, st0.0, odd[j]) == 0);
    }
    lemma_loop_phase(segs, st0, segs.len() as int);
}

} // verus!
