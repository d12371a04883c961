//! Forced edges: edges of which no two may lie in one biclique.
//!
//! Every cover has a biclique for each of them, so their number is a lower
//! bound on the size of a cover, and each of them seeds a biclique of its own
//! when the search starts.

use crate::bitset::{
    members, set_add, set_clone, set_count, set_eq, set_intersection, set_last, set_new,
    set_remove,
};
use crate::graph::{Bigraph, Edge};
use tindex::TBitSet;
use vstd::prelude::*;

verus! {

/// Whether no two members of `s` may lie in one biclique.
pub open spec fn pairwise_apart(g: &Bigraph, s: Seq<Edge>) -> bool {
    forall|i: int, j: int| 0 <= i < j < s.len() ==> !g.spec_may_share(s[i], s[j])
}

/// Whether `s` holds edges of which no two may lie in one biclique, and as
/// many of them as can be had.
pub open spec fn largest_apart(g: &Bigraph, s: Seq<Edge>) -> bool {
    &&& forall|i: int| 0 <= i < s.len() ==> g.has_edge(#[trigger] s[i])
    &&& pairwise_apart(g, s)
    &&& forall|o: Seq<Edge>|
        #[trigger] pairwise_apart(g, o) && (forall|i: int| 0 <= i < o.len() ==> g.has_edge(o[i]))
            ==> o.len() <= s.len()
}

/// Whether `e` may not lie in one biclique with any member of `s`.
pub open spec fn apart_from(g: &Bigraph, e: Edge, s: Seq<Edge>) -> bool {
    forall|i: int| 0 <= i < s.len() ==> !g.spec_may_share(e, #[trigger] s[i])
}

/// Whether member `i` of `m` is the only member at its left vertex.
pub open spec fn alone_in_row(m: Seq<Edge>, i: int) -> bool {
    forall|j: int| 0 <= j < m.len() && j != i ==> (#[trigger] m[j]).0 != m[i].0
}

/// Whether member `i` of `m` is the only member at its right vertex.
pub open spec fn alone_in_column(m: Seq<Edge>, i: int) -> bool {
    forall|j: int| 0 <= j < m.len() && j != i ==> (#[trigger] m[j]).1 != m[i].1
}

/// Whether `e` has neither end in common with any member of `s`.
pub open spec fn shares_no_end(e: Edge, s: Seq<Edge>) -> bool {
    forall|j: int| 0 <= j < s.len() ==> e.0 != (#[trigger] s[j]).0 && e.1 != s[j].1
}

/// The edges among the first `n` of `m` that are taken without a search:
/// each is alone in its row or in its column, and has neither end in common
/// with one that was taken before it.
pub open spec fn guaranteed(m: Seq<Edge>, n: int) -> Seq<Edge>
    decreases n,
{
    if n <= 0 {
        Seq::empty()
    } else {
        let before = guaranteed(m, n - 1);
        if (alone_in_row(m, n - 1) || alone_in_column(m, n - 1)) && shares_no_end(
            m[n - 1],
            before,
        ) {
            before.push(m[n - 1])
        } else {
            before
        }
    }
}

/// The number of the first `n` members of `m` that may lie in one biclique
/// with `e`.
pub open spec fn share_count(g: &Bigraph, m: Seq<Edge>, e: Edge, n: int) -> nat
    decreases n,
{
    if n <= 0 {
        0
    } else {
        share_count(g, m, e, n - 1) + (if g.spec_may_share(e, m[n - 1]) {
            1nat
        } else {
            0nat
        })
    }
}

/// Whether `a` does not come after `b`: by the first parts, and by the
/// second parts where the first parts are the same.
pub open spec fn pair_le(a: (usize, usize), b: (usize, usize)) -> bool {
    a.0 < b.0 || (a.0 == b.0 && a.1 <= b.1)
}

/// `slice::sort` on pairs of integers: the pairs are rearranged into
/// ascending order.
#[verifier::external_body]
fn sort_pairs(v: &mut Vec<(usize, usize)>)
    ensures
        final(v)@.to_multiset() == old(v)@.to_multiset(),
        forall|i: int, j: int| 0 <= i < j < final(v)@.len() ==> pair_le(final(v)@[i], final(v)@[j]),
{
    v.sort()
}

/// A set of numbers below `limit` has at most `limit` members.
pub proof fn lemma_count_below(s: Set<usize>, limit: usize)
    requires
        forall|x: usize| s.contains(x) ==> x < limit,
    ensures
        s.finite(),
        s.len() <= limit,
    decreases limit,
{
    if limit == 0 {
        assert(s =~= Set::<usize>::empty());
    } else {
        let top = (limit - 1) as usize;
        let rest = s.remove(top);
        lemma_count_below(rest, top);
        if s.contains(top) {
            assert(s =~= rest.insert(top));
        } else {
            assert(s =~= rest);
        }
    }
}

/// The edges that are taken without a search, where every edge of the graph
/// is a member of `m`, may not lie in one biclique with each other.
pub proof fn lemma_guaranteed_apart(g: &Bigraph, m: Seq<Edge>, n: int)
    requires
        0 <= n <= m.len(),
        forall|i: int| 0 <= i < m.len() ==> g.has_edge(#[trigger] m[i]),
        forall|e: Edge| g.has_edge(e) ==> m.contains(e),
    ensures
        pairwise_apart(g, guaranteed(m, n)),
        forall|i: int|
            0 <= i < guaranteed(m, n).len() ==> exists|j: int|
                0 <= j < n && m[j] == #[trigger] guaranteed(m, n)[i] && (alone_in_row(m, j)
                    || alone_in_column(m, j)),
    decreases n,
{
    if n > 0 {
        lemma_guaranteed_apart(g, m, n - 1);
        let before = guaranteed(m, n - 1);
        let now = guaranteed(m, n);
        let e = m[n - 1];
        if now != before {
            assert(now == before.push(e));
            assert forall|i: int, j: int| 0 <= i < j < now.len() implies !g.spec_may_share(
                now[i],
                now[j],
            ) by {
                if j == now.len() - 1 {
                    let o = before[i];
                    assert(now[i] == o);
                    assert(e.0 != o.0 && e.1 != o.1);
                    let p = choose|p: int|
                        0 <= p < n - 1 && m[p] == before[i] && (alone_in_row(m, p)
                            || alone_in_column(m, p));
                    lemma_solo_apart(g, m, n - 1, e, o);
                    lemma_solo_apart(g, m, p, o, e);
                } else {
                    assert(now[i] == before[i] && now[j] == before[j]);
                }
            }
            assert forall|i: int| 0 <= i < now.len() implies exists|j: int|
                0 <= j < n && m[j] == #[trigger] now[i] && (alone_in_row(m, j) || alone_in_column(
                    m,
                    j,
                )) by {
                if i == now.len() - 1 {
                    assert(m[n - 1] == now[i]);
                } else {
                    assert(now[i] == before[i]);
                    let j = choose|j: int|
                        0 <= j < n - 1 && m[j] == before[i] && (alone_in_row(m, j)
                            || alone_in_column(m, j));
                    assert(m[j] == now[i]);
                }
            }
        }
    }
}

/// An edge that is alone in its row or in its column may not lie in one
/// biclique with an edge that has neither end in common with it.
pub proof fn lemma_solo_apart(g: &Bigraph, m: Seq<Edge>, i: int, e: Edge, o: Edge)
    requires
        0 <= i < m.len(),
        m[i] == e,
        e.0 != o.0,
        e.1 != o.1,
        forall|e: Edge| g.has_edge(e) ==> m.contains(e),
    ensures
        alone_in_row(m, i) ==> !g.has_edge(Edge(e.0, o.1)),
        alone_in_column(m, i) ==> !g.has_edge(Edge(o.0, e.1)),
{
    if alone_in_row(m, i) && g.has_edge(Edge(e.0, o.1)) {
        let j = choose|j: int| 0 <= j < m.len() && m[j] == Edge(e.0, o.1);
        assert(m[j].0 == m[i].0);
    }
    if alone_in_column(m, i) && g.has_edge(Edge(o.0, e.1)) {
        let j = choose|j: int| 0 <= j < m.len() && m[j] == Edge(o.0, e.1);
        assert(m[j].1 == m[i].1);
    }
}

/// Different places below `k` are at most `k` places.
pub proof fn lemma_pigeonhole(h: Seq<int>, k: int)
    requires
        0 <= k,
        forall|i: int| 0 <= i < h.len() ==> 0 <= #[trigger] h[i] < k,
        forall|i: int, j: int| 0 <= i < j < h.len() ==> h[i] != h[j],
    ensures
        h.len() <= k,
    decreases h.len(),
{
    if h.len() > 0 {
        assert(0 <= h[0] < k);
        let last = h.last();
        let rest = h.drop_last();
        // The places of `rest`, with `k - 1` in the place of `last`, lie
        // below `k - 1`.
        let moved = Seq::new(
            rest.len(),
            |i: int|
                if rest[i] == k - 1 {
                    last
                } else {
                    rest[i]
                },
        );
        assert forall|i: int| 0 <= i < moved.len() implies 0 <= #[trigger] moved[i] < k - 1 by {
            assert(h[i] == rest[i]);
            assert(h[i] != h[h.len() - 1]);
        }
        assert forall|i: int, j: int| 0 <= i < j < moved.len() implies moved[i] != moved[j] by {
            assert(h[i] != h[j]);
            assert(h[i] != h[h.len() - 1]);
            assert(h[j] != h[h.len() - 1]);
        }
        lemma_pigeonhole(moved, k - 1);
        assert(moved.len() == h.len() - 1);
    }
}

/// The number of forced edges is a lower bound on the size of a cover: a
/// cover has a biclique for each of any edges of which no two may lie in
/// one biclique.
pub proof fn lemma_forced_lower_bound(g: &Bigraph, forced: Seq<Edge>, cs: Seq<crate::biclique::Sides>)
    requires
        forall|i: int| 0 <= i < forced.len() ==> g.has_edge(#[trigger] forced[i]),
        pairwise_apart(g, forced),
        g.is_cover(cs),
    ensures
        forced.len() <= cs.len(),
{
    let h = Seq::new(
        forced.len(),
        |i: int| choose|c: int| 0 <= c < cs.len() && (#[trigger] cs[c]).contains(forced[i]),
    );
    assert forall|i: int| 0 <= i < h.len() implies 0 <= #[trigger] h[i] < cs.len() && cs[h[i]].contains(
        forced[i],
    ) by {
        assert(g.has_edge(forced[i]));
    }
    assert forall|i: int, j: int| 0 <= i < j < h.len() implies h[i] != h[j] by {
        if h[i] == h[j] {
            let c = cs[h[i]];
            assert(cs[h[i]].contains(forced[i]));
            assert(cs[h[j]].contains(forced[j]));
            assert(g.is_biclique(c));
            assert(c.left.contains(forced[i].0) && c.right.contains(forced[j].1));
            assert(c.left.contains(forced[j].0) && c.right.contains(forced[i].1));
            assert(g.spec_may_share(forced[i], forced[j]));
        }
    }
    lemma_pigeonhole(h, cs.len() as int);
}

/// The edges of `mapping` that are taken without a search.
///
/// An edge that is alone in its row stands in the way of edges of its
/// column only, and those stand in the way of it; so taking it is never
/// worse than taking one of them. The same holds of an edge that is alone
/// in its column.
pub fn optimal_forced_elements(mapping: &[Edge]) -> (taken: Vec<Edge>)
    ensures
        taken@ == guaranteed(mapping@, mapping@.len() as int),
{
    let mut taken: Vec<Edge> = Vec::new();
    let mut i: usize = 0;
    while i < mapping.len()
        invariant
            i <= mapping@.len(),
            taken@ == guaranteed(mapping@, i as int),
        decreases mapping@.len() - i,
    {
        let e = mapping[i];
        let mut x_ok = true;
        let mut y_ok = true;
        let mut j: usize = 0;
        while j < mapping.len()
            invariant
                i < mapping@.len(),
                e == mapping@[i as int],
                j <= mapping@.len(),
                x_ok == forall|p: int| 0 <= p < j && p != i ==> (#[trigger] mapping@[p]).0 != e.0,
                y_ok == forall|p: int| 0 <= p < j && p != i ==> (#[trigger] mapping@[p]).1 != e.1,
            decreases mapping@.len() - j,
        {
            if j != i {
                let o = mapping[j];
                if e.0 == o.0 {
                    x_ok = false;
                }
                if e.1 == o.1 {
                    y_ok = false;
                }
            }
            j = j + 1;
        }
        if y_ok || x_ok {
            let mut free = true;
            let mut q: usize = 0;
            while q < taken.len()
                invariant
                    q <= taken@.len(),
                    free == forall|p: int|
                        0 <= p < q ==> e.0 != (#[trigger] taken@[p]).0 && e.1 != taken@[p].1,
                decreases taken@.len() - q,
            {
                let o = taken[q];
                if !(e.0 != o.0 && e.1 != o.1) {
                    free = false;
                }
                q = q + 1;
            }
            if free {
                taken.push(e);
            }
        }
        i = i + 1;
    }
    taken
}

/// The candidates that are dropped because another candidate is never
/// worse. None is dropped: the search finds a largest choice without it.
pub fn dominated_entries(g: &Bigraph, mapping: &[Edge]) -> (dropped: Vec<Edge>)
    ensures
        dropped@.len() == 0,
{
    Vec::new()
}

/// The number of edges of the graph that may lie in one biclique with `e`.
fn sharing(g: &Bigraph, entries: &Vec<Edge>, e: Edge) -> (n: usize)
    requires
        g.wf(),
        g.in_range(e),
        forall|i: int| 0 <= i < entries@.len() ==> g.has_edge(#[trigger] entries@[i]),
    ensures
        n == share_count(g, entries@, e, entries@.len() as int),
{
    let mut n: usize = 0;
    let mut i: usize = 0;
    while i < entries.len()
        invariant
            g.wf(),
            g.in_range(e),
            forall|i: int| 0 <= i < entries@.len() ==> g.has_edge(#[trigger] entries@[i]),
            i <= entries@.len(),
            n <= i,
            n == share_count(g, entries@, e, i as int),
        decreases entries@.len() - i,
    {
        proof {
            g.lemma_edge_in_range(entries@[i as int]);
        }
        if g.may_share(e, entries[i]) {
            n = n + 1;
        }
        i = i + 1;
    }
    n
}

/// What the search for a largest choice among the candidates works on.
pub struct Cx<'x> {
    /// The candidates, up to the one that the search starts from.
    pub mapping: &'x Vec<Edge>,
    /// For each candidate, the candidates before it that may not lie in one
    /// biclique with it.
    pub visibility: &'x Vec<TBitSet<usize>>,
    /// For each candidate, the size of a largest choice among the
    /// candidates before it.
    pub best_possible_improvement: &'x Vec<usize>,
}

impl<'x> Cx<'x> {
    /// Whether the tables say of the candidates what they should: a
    /// candidate sees exactly the candidates before it that may not lie in
    /// one biclique with it; and the size that is noted for a candidate is
    /// not above the number of candidates before it, nor below the size of
    /// any choice among them.
    pub open spec fn wf(&self, g: &Bigraph) -> bool {
        &&& self.mapping@.len() <= usize::MAX
        &&& self.visibility@.len() == self.mapping@.len()
        &&& self.best_possible_improvement@.len() <= self.mapping@.len()
        &&& forall|i: int| 0 <= i < self.mapping@.len() ==> g.has_edge(#[trigger] self.mapping@[i])
        &&& forall|i: int, o: usize|
            #![trigger members(self.visibility@[i]).contains(o)]
            0 <= i < self.mapping@.len() ==> (members(self.visibility@[i]).contains(o) <==> o < i
                && !g.spec_may_share(self.mapping@[i], self.mapping@[o as int]))
        &&& forall|i: int|
            0 <= i < self.best_possible_improvement@.len()
                ==> #[trigger] self.best_possible_improvement@[i] <= i && tops(
                g,
                self.mapping@,
                i,
                self.best_possible_improvement@[i] as int,
            )
    }
}

/// Whether the candidates at the places `possible` may each be added to
/// `chosen`.
pub open spec fn open_to(g: &Bigraph, m: Seq<Edge>, chosen: Seq<Edge>, possible: Set<usize>) -> bool {
    forall|p: usize, i: int|
        #![trigger possible.contains(p), chosen[i]]
        possible.contains(p) && 0 <= i < chosen.len() ==> !g.spec_may_share(m[p as int], chosen[i])
}

/// Whether `q` holds places of candidates of which no two may lie in one
/// biclique.
pub open spec fn apart_places(g: &Bigraph, m: Seq<Edge>, q: Set<usize>) -> bool {
    &&& q.finite()
    &&& forall|a: usize| q.contains(a) ==> a < m.len()
    &&& forall|a: usize, b: usize|
        q.contains(a) && q.contains(b) && a != b ==> !g.spec_may_share(m[a as int], m[b as int])
}

/// Whether no choice among the first `n` candidates, of which no two may lie
/// in one biclique, has more than `size` members.
pub open spec fn tops(g: &Bigraph, m: Seq<Edge>, n: int, size: int) -> bool {
    forall|q: Set<usize>|
        #[trigger] apart_places(g, m, q) && (forall|a: usize| q.contains(a) ==> a < n) ==> q.len()
            <= size
}

/// A choice below `first`, with or without `first` itself, has at most one
/// member more than a largest choice below `first`.
pub proof fn lemma_tops_with(g: &Bigraph, m: Seq<Edge>, first: usize, size: int, q: Set<usize>)
    requires
        tops(g, m, first as int, size),
        apart_places(g, m, q),
        forall|a: usize| q.contains(a) ==> a <= first,
    ensures
        q.len() <= size + 1,
        !q.contains(first) ==> q.len() <= size,
{
    let rest = q.remove(first);
    assert(apart_places(g, m, rest));
    assert forall|a: usize| rest.contains(a) implies a < first by {
        assert(q.contains(a));
    }
    if !q.contains(first) {
        assert(rest =~= q);
    }
}

/// Whether every member of `s` is one of `m`.
pub open spec fn drawn_from(s: Seq<Edge>, m: Seq<Edge>) -> bool {
    forall|i: int| 0 <= i < s.len() ==> m.contains(#[trigger] s[i])
}

/// Looks for a choice of candidates that is larger than `best`: `chosen`
/// with some of the candidates at the places `possible`, of which no two
/// may lie in one biclique. What it finds is left in `best`, which then is
/// no smaller than `chosen` with any such choice.
///
/// The search gives up where `chosen` with all of `possible` would not beat
/// `best`, and where it would not with a largest choice among the
/// candidates before the last of `possible`.
pub fn recur(
    g: &Bigraph,
    cx: &Cx<'_>,
    chosen: &mut Vec<Edge>,
    best: &mut Vec<Edge>,
    possible: TBitSet<usize>,
    limit: Ghost<usize>,
)
    requires
        g.wf(),
        cx.wf(g),
        forall|p: usize| members(possible).contains(p) ==> p < limit@,
        limit@ <= cx.best_possible_improvement@.len(),
        old(chosen)@.len() + limit@ <= cx.mapping@.len(),
        pairwise_apart(g, old(chosen)@),
        pairwise_apart(g, old(best)@),
        drawn_from(old(chosen)@, cx.mapping@),
        drawn_from(old(best)@, cx.mapping@),
        open_to(g, cx.mapping@, old(chosen)@, members(possible)),
    ensures
        final(chosen)@ == old(chosen)@,
        pairwise_apart(g, final(best)@),
        drawn_from(final(best)@, cx.mapping@),
        final(best)@.len() >= old(best)@.len(),
        final(best)@.len() >= old(chosen)@.len(),
        final(best)@.len() <= old(best)@.len() || final(best)@.len() <= old(chosen)@.len() + limit@,
        forall|q: Set<usize>|
            #[trigger] apart_places(g, cx.mapping@, q) && q.subset_of(members(possible))
                ==> final(best)@.len() >= old(chosen)@.len() + q.len(),
    decreases limit@,
{
    let ghost all = members(possible);
    let ghost m = cx.mapping@;
    let mut possible = possible;
    let count = set_count(&possible);
    proof {
        lemma_count_below(all, limit@);
    }
    if best.len() >= chosen.len() + count {
        proof {
            assert forall|q: Set<usize>|
                #[trigger] apart_places(g, m, q) && q.subset_of(all) implies q.len() <= count by {
                vstd::set_lib::lemma_len_subset(q, all);
            }
        }
        return ;
    }
    match set_last(&possible) {
        Some(first) => {
            let bound = cx.best_possible_improvement[first];
            proof {
                assert(tops(g, m, first as int, bound as int));
                assert forall|q: Set<usize>|
                    #[trigger] apart_places(g, m, q) && q.subset_of(all) implies q.len() <= bound
                    + 1 && (!q.contains(first) ==> q.len() <= bound) by {
                    assert forall|a: usize| q.contains(a) implies a <= first by {
                        assert(all.contains(a));
                    }
                    lemma_tops_with(g, m, first, bound as int, q);
                }
            }
            if best.len() > chosen.len() + bound {
                return ;
            }
            let f = cx.mapping[first];
            let ghost picked = chosen@;
            chosen.push(f);
            let new_possible = set_intersection(&possible, &cx.visibility[first]);
            let ghost narrow = members(new_possible);
            let ignore_check_without = set_eq(&new_possible, &possible);
            proof {
                assert forall|i: int, j: int| 0 <= i < j < chosen@.len() implies !g.spec_may_share(
                    chosen@[i],
                    chosen@[j],
                ) by {
                    if j == chosen@.len() - 1 {
                        assert(chosen@[i] == picked[i]);
                        assert(all.contains(first));
                        assert(!g.spec_may_share(m[first as int], picked[i]));
                    } else {
                        assert(chosen@[i] == picked[i] && chosen@[j] == picked[j]);
                    }
                }
                assert forall|i: int| 0 <= i < chosen@.len() implies m.contains(
                    #[trigger] chosen@[i],
                ) by {
                    if i < picked.len() {
                        assert(chosen@[i] == picked[i]);
                    } else {
                        assert(m[first as int] == chosen@[i]);
                    }
                }
                assert forall|p: usize, i: int|
                    #![trigger narrow.contains(p), chosen@[i]]
                    narrow.contains(p) && 0 <= i < chosen@.len() implies !g.spec_may_share(
                    m[p as int],
                    chosen@[i],
                ) by {
                    assert(all.contains(p));
                    assert(members(cx.visibility@[first as int]).contains(p));
                    if i < picked.len() {
                        assert(chosen@[i] == picked[i]);
                    }
                }
                assert forall|p: usize| narrow.contains(p) implies p < first by {
                    assert(members(cx.visibility@[first as int]).contains(p));
                }
                // Taking `first` is never all there is to do: `first` is
                // possible, and no candidate sees itself.
                if ignore_check_without {
                    assert(narrow.contains(first));
                    assert(members(cx.visibility@[first as int]).contains(first));
                }
            }
            recur(g, cx, chosen, best, new_possible, Ghost(first));
            chosen.pop();
            proof {
                assert(chosen@ =~= picked);
                // A choice with `first` is `first` and a choice among what
                // `first` sees.
                assert forall|q: Set<usize>|
                    #[trigger] apart_places(g, m, q) && q.subset_of(all) && q.contains(
                        first,
                    ) implies best@.len() >= picked.len() + q.len() by {
                    let rest = q.remove(first);
                    assert(apart_places(g, m, rest));
                    assert forall|a: usize| rest.contains(a) implies narrow.contains(a) by {
                        assert(q.contains(a) && all.contains(a));
                        assert(a <= first);
                        g.lemma_may_share_symmetric(m[a as int], m[first as int]);
                        assert(members(cx.visibility@[first as int]).contains(a));
                    }
                    assert(rest.subset_of(narrow));
                }
            }
            if ignore_check_without {
                return ;
            }
            if best.len() >= chosen.len() + bound {
                return ;
            }
            set_remove(&mut possible, first);
            proof {
                assert forall|p: usize| members(possible).contains(p) implies p < first by {
                    assert(all.contains(p));
                }
                assert forall|p: usize, i: int|
                    #![trigger members(possible).contains(p), chosen@[i]]
                    members(possible).contains(p) && 0 <= i < chosen@.len()
                    implies !g.spec_may_share(m[p as int], chosen@[i]) by {
                    assert(all.contains(p));
                }
            }
            let ghost fewer = members(possible);
            recur(g, cx, chosen, best, possible, Ghost(first));
            proof {
                assert forall|q: Set<usize>|
                    #[trigger] apart_places(g, m, q) && q.subset_of(all) && !q.contains(
                        first,
                    ) implies best@.len() >= picked.len() + q.len() by {
                    assert(q.subset_of(fewer));
                }
            }
        },
        None => {
            proof {
                assert forall|q: Set<usize>|
                    #[trigger] apart_places(g, m, q) && q.subset_of(all) implies q.len() == 0 by {
                    assert(q =~= Set::<usize>::empty());
                }
            }
            if chosen.len() > best.len() {
                best.clear();
                let mut i: usize = 0;
                while i < chosen.len()
                    invariant
                        i <= chosen@.len(),
                        best@ == chosen@.take(i as int),
                    decreases chosen@.len() - i,
                {
                    best.push(chosen[i]);
                    proof {
                        assert(chosen@.take(i + 1) =~= chosen@.take(i as int).push(chosen@[i as int]));
                    }
                    i = i + 1;
                }
                proof {
                    assert(chosen@.take(i as int) =~= chosen@);
                }
            }
        },
    }
}

/// Whether `forced` begins with the edges of `m` that are taken without a
/// search, and goes on with a largest choice among the other edges that may
/// not lie in one biclique with any of those: no edges of that kind, of
/// which no two may lie in one biclique, are more than the rest of
/// `forced`.
pub open spec fn largest_choice(g: &Bigraph, m: Seq<Edge>, forced: Seq<Edge>) -> bool {
    let head = guaranteed(m, m.len() as int);
    &&& head.len() <= forced.len()
    &&& forced.take(head.len() as int) == head
    &&& forall|s: Seq<Edge>|
        #[trigger] pairwise_apart(g, s) && (forall|i: int|
            0 <= i < s.len() ==> g.has_edge(s[i]) && apart_from(g, s[i], head)) ==> s.len()
            <= forced.len() - head.len()
}

/// Edges of which no two may lie in one biclique, each at a place of its
/// own in `m`, have as many places as they are.
pub proof fn lemma_places(g: &Bigraph, m: Seq<Edge>, s: Seq<Edge>) -> (q: Set<usize>)
    requires
        m.len() <= usize::MAX,
        pairwise_apart(g, s),
        forall|i: int| 0 <= i < s.len() ==> g.has_edge(#[trigger] s[i]) && m.contains(s[i]),
    ensures
        apart_places(g, m, q),
        q.len() == s.len(),
        forall|a: usize| q.contains(a) ==> s.contains(m[a as int]),
    decreases s.len(),
{
    if s.len() == 0 {
        Set::<usize>::empty()
    } else {
        let rest = s.drop_last();
        let e = s.last();
        assert forall|i: int| 0 <= i < rest.len() implies g.has_edge(#[trigger] rest[i])
            && m.contains(rest[i]) by {
            assert(rest[i] == s[i]);
        }
        assert forall|i: int, j: int| 0 <= i < j < rest.len() implies !g.spec_may_share(
            rest[i],
            rest[j],
        ) by {
            assert(rest[i] == s[i] && rest[j] == s[j]);
        }
        let before = lemma_places(g, m, rest);
        assert(m.contains(s[s.len() - 1]));
        let p = choose|p: int| 0 <= p < m.len() && m[p] == e;
        let place = p as usize;
        assert forall|a: usize| before.contains(a) implies a != place && !g.spec_may_share(
            m[a as int],
            e,
        ) && !g.spec_may_share(e, m[a as int]) by {
            assert(rest.contains(m[a as int]));
            let j = choose|j: int| 0 <= j < rest.len() && rest[j] == m[a as int];
            assert(s[j] == m[a as int]);
            assert(!g.spec_may_share(s[j], s[s.len() - 1]));
            g.lemma_may_share_symmetric(s[j], e);
            if a == place {
                assert(g.has_edge(s[j]));
                g.lemma_may_share_reflexive(e);
            }
        }
        let q = before.insert(place);
        assert forall|a: usize| q.contains(a) implies s.contains(m[a as int]) by {
            if a == place {
                assert(s[s.len() - 1] == m[a as int]);
            } else {
                assert(rest.contains(m[a as int]));
                let j = choose|j: int| 0 <= j < rest.len() && rest[j] == m[a as int];
                assert(s[j] == m[a as int]);
            }
        }
        q
    }
}

/// The edges of `entries` that may not lie in one biclique with any edge of
/// `taken`, in the order that they have in `entries`.
fn candidates(g: &Bigraph, entries: &Vec<Edge>, taken: &Vec<Edge>) -> (mapping: Vec<Edge>)
    requires
        g.wf(),
        forall|i: int| 0 <= i < entries@.len() ==> g.has_edge(#[trigger] entries@[i]),
        forall|i: int| 0 <= i < taken@.len() ==> g.has_edge(#[trigger] taken@[i]),
    ensures
        forall|i: int|
            0 <= i < mapping@.len() ==> g.has_edge(#[trigger] mapping@[i]) && apart_from(
                g,
                mapping@[i],
                taken@,
            ),
        forall|i: int|
            0 <= i < entries@.len() && apart_from(g, #[trigger] entries@[i], taken@)
                ==> mapping@.contains(entries@[i]),
        taken@.len() == 0 ==> mapping@.len() == entries@.len(),
{
    let mut mapping: Vec<Edge> = Vec::new();
    let mut n: usize = 0;
    while n < entries.len()
        invariant
            g.wf(),
            n <= entries@.len(),
            forall|i: int| 0 <= i < entries@.len() ==> g.has_edge(#[trigger] entries@[i]),
            forall|i: int| 0 <= i < taken@.len() ==> g.has_edge(#[trigger] taken@[i]),
            forall|i: int|
                0 <= i < mapping@.len() ==> g.has_edge(#[trigger] mapping@[i]) && apart_from(
                    g,
                    mapping@[i],
                    taken@,
                ),
            forall|i: int|
                0 <= i < n && apart_from(g, #[trigger] entries@[i], taken@) ==> mapping@.contains(
                    entries@[i],
                ),
            taken@.len() == 0 ==> mapping@.len() == n,
        decreases entries@.len() - n,
    {
        let e = entries[n];
        let mut keep = true;
        let mut q: usize = 0;
        proof {
            g.lemma_edge_in_range(e);
        }
        while q < taken.len()
            invariant
                g.wf(),
                g.in_range(e),
                q <= taken@.len(),
                forall|i: int| 0 <= i < taken@.len() ==> g.has_edge(#[trigger] taken@[i]),
                keep == forall|i: int| 0 <= i < q ==> !g.spec_may_share(e, #[trigger] taken@[i]),
            decreases taken@.len() - q,
        {
            proof {
                g.lemma_edge_in_range(taken@[q as int]);
            }
            if g.may_share(e, taken[q]) {
                keep = false;
            }
            q = q + 1;
        }
        let ghost before = mapping@;
        if keep {
            mapping.push(e);
        }
        proof {
            assert forall|i: int|
                0 <= i < n + 1 && apart_from(g, #[trigger] entries@[i], taken@)
                implies mapping@.contains(entries@[i]) by {
                if i < n {
                    assert(before.contains(entries@[i]));
                    let j = choose|j: int| 0 <= j < before.len() && before[j] == entries@[i];
                    assert(mapping@[j] == entries@[i]);
                } else {
                    assert(mapping@[mapping@.len() - 1] == e);
                }
            }
        }
        n = n + 1;
    }
    mapping
}

/// For each candidate, the candidates before it that may not lie in one
/// biclique with it.
fn visibility_table(g: &Bigraph, mapping: &Vec<Edge>) -> (visibility: Vec<TBitSet<usize>>)
    requires
        g.wf(),
        forall|j: int| 0 <= j < mapping@.len() ==> g.has_edge(#[trigger] mapping@[j]),
    ensures
        visibility@.len() == mapping@.len(),
        forall|j: int, o: usize|
            #![trigger members(visibility@[j]).contains(o)]
            0 <= j < mapping@.len() ==> (members(visibility@[j]).contains(o) <==> o < j
                && !g.spec_may_share(mapping@[j], mapping@[o as int])),
{
    let mut visibility: Vec<TBitSet<usize>> = Vec::new();
    let mut i: usize = 0;
    while i < mapping.len()
        invariant
            g.wf(),
            i <= mapping@.len(),
            visibility@.len() == i,
            forall|j: int| 0 <= j < mapping@.len() ==> g.has_edge(#[trigger] mapping@[j]),
            forall|j: int, o: usize|
                #![trigger members(visibility@[j]).contains(o)]
                0 <= j < i ==> (members(visibility@[j]).contains(o) <==> o < j
                    && !g.spec_may_share(mapping@[j], mapping@[o as int])),
        decreases mapping@.len() - i,
    {
        let e = mapping[i];
        let mut others = set_new();
        let mut o: usize = 0;
        proof {
            g.lemma_edge_in_range(e);
        }
        while o < i
            invariant
                g.wf(),
                g.in_range(e),
                e == mapping@[i as int],
                o <= i < mapping@.len(),
                forall|j: int| 0 <= j < mapping@.len() ==> g.has_edge(#[trigger] mapping@[j]),
                forall|p: usize|
                    members(others).contains(p) <==> p < o && !g.spec_may_share(
                        e,
                        mapping@[p as int],
                    ),
            decreases i - o,
        {
            proof {
                g.lemma_edge_in_range(mapping@[o as int]);
            }
            if !g.may_share(e, mapping[o]) {
                set_add(&mut others, o);
            }
            o = o + 1;
        }
        visibility.push(others);
        i = i + 1;
    }
    visibility
}

/// A largest choice among the candidates `mapping`, of which no two may lie
/// in one biclique: each candidate in turn is taken as the last member of
/// the choice, and the search goes through the candidates that it sees.
fn largest_among(g: &Bigraph, mapping: &Vec<Edge>, visibility: &Vec<TBitSet<usize>>) -> (best: Vec<
    Edge,
>)
    requires
        g.wf(),
        visibility@.len() == mapping@.len(),
        forall|j: int| 0 <= j < mapping@.len() ==> g.has_edge(#[trigger] mapping@[j]),
        forall|j: int, o: usize|
            #![trigger members(visibility@[j]).contains(o)]
            0 <= j < mapping@.len() ==> (members(visibility@[j]).contains(o) <==> o < j
                && !g.spec_may_share(mapping@[j], mapping@[o as int])),
    ensures
        mapping@.len() <= usize::MAX,
        tops(g, mapping@, mapping@.len() as int, best@.len() as int),
        mapping@.len() > 0 ==> best@.len() > 0,
        pairwise_apart(g, best@),
        drawn_from(best@, mapping@),
{
    let mut best: Vec<Edge> = Vec::new();
    let mut best_possible_improvement: Vec<usize> = Vec::new();
    let mut first: usize = 0;
    proof {
        assert forall|q: Set<usize>|
            #[trigger] apart_places(g, mapping@, q) && (forall|a: usize|
                q.contains(a) ==> a < 0) implies q.len() <= 0 by {
            assert(q =~= Set::<usize>::empty());
        }
    }
    while first < mapping.len()
        invariant
            g.wf(),
            first <= mapping@.len(),
            visibility@.len() == mapping@.len(),
            best_possible_improvement@.len() == first,
            forall|j: int| 0 <= j < mapping@.len() ==> g.has_edge(#[trigger] mapping@[j]),
            forall|j: int, o: usize|
                #![trigger members(visibility@[j]).contains(o)]
                0 <= j < mapping@.len() ==> (members(visibility@[j]).contains(o) <==> o < j
                    && !g.spec_may_share(mapping@[j], mapping@[o as int])),
            forall|j: int|
                0 <= j < first ==> #[trigger] best_possible_improvement@[j] <= j && tops(
                    g,
                    mapping@,
                    j,
                    best_possible_improvement@[j] as int,
                ),
            tops(g, mapping@, first as int, best@.len() as int),
            best@.len() <= first,
            first > 0 ==> best@.len() > 0,
            pairwise_apart(g, best@),
            drawn_from(best@, mapping@),
        decreases mapping@.len() - first,
    {
        best_possible_improvement.push(best.len());
        let cx = anchored(mapping, visibility, &best_possible_improvement);
        let possible = set_clone(&visibility[first]);
        let mut chosen: Vec<Edge> = Vec::new();
        chosen.push(mapping[first]);
        let ghost seen = members(possible);
        let ghost before = best@.len();
        proof {
            assert(cx.mapping@ == mapping@);
            assert(mapping@.contains(chosen@[0]));
            assert forall|p: usize, i: int|
                #![trigger members(possible).contains(p), chosen@[i]]
                members(possible).contains(p) && 0 <= i < chosen@.len() implies !g.spec_may_share(
                mapping@[p as int],
                chosen@[i],
            ) by {
                assert(members(visibility@[first as int]).contains(p));
            }
            assert forall|p: usize| members(possible).contains(p) implies p < first by {
                assert(members(visibility@[first as int]).contains(p));
            }
        }
        recur(g, &cx, &mut chosen, &mut best, possible, Ghost(first));
        proof {
            lemma_tops_next(g, mapping@, first, seen, before as int, best@.len() as int);
        }
        first = first + 1;
    }
    best
}

/// Where no choice among the first `first` candidates has more than
/// `before` members, and none among what candidate `first` sees has `after`
/// members or more, no choice among the first `first + 1` candidates has
/// more than `after` members.
proof fn lemma_tops_next(
    g: &Bigraph,
    m: Seq<Edge>,
    first: usize,
    seen: Set<usize>,
    before: int,
    after: int,
)
    requires
        first < m.len(),
        before <= after,
        tops(g, m, first as int, before),
        forall|o: usize| seen.contains(o) <==> o < first && !g.spec_may_share(
            m[first as int],
            m[o as int],
        ),
        forall|q: Set<usize>|
            #[trigger] apart_places(g, m, q) && q.subset_of(seen) ==> after >= 1 + q.len(),
    ensures
        tops(g, m, first + 1, after),
{
    assert forall|q: Set<usize>|
        #[trigger] apart_places(g, m, q) && (forall|a: usize|
            q.contains(a) ==> a < first + 1) implies q.len() <= after by {
        if q.contains(first) {
            let rest = q.remove(first);
            assert(apart_places(g, m, rest));
            assert forall|a: usize| rest.contains(a) implies seen.contains(a) by {
                assert(q.contains(a));
                g.lemma_may_share_symmetric(m[a as int], m[first as int]);
            }
            assert(rest.subset_of(seen));
        } else {
            assert forall|a: usize| q.contains(a) implies a < first by {}
            assert(q.len() <= before);
        }
    }
}

/// What is taken without a search, followed by a largest choice among the
/// candidates, is what the forced edges should be.
proof fn lemma_forced_result(
    g: &Bigraph,
    entries: Seq<Edge>,
    head: Seq<Edge>,
    mapping: Seq<Edge>,
    best: Seq<Edge>,
)
    requires
        mapping.len() <= usize::MAX,
        g.lists_edges(entries),
        head == guaranteed(entries, entries.len() as int),
        forall|i: int|
            0 <= i < mapping.len() ==> g.has_edge(#[trigger] mapping[i]) && apart_from(
                g,
                mapping[i],
                head,
            ),
        forall|e: Edge| g.has_edge(e) && apart_from(g, e, head) ==> mapping.contains(e),
        tops(g, mapping, mapping.len() as int, best.len() as int),
        mapping.len() > 0 ==> best.len() > 0,
        pairwise_apart(g, best),
        drawn_from(best, mapping),
    ensures
        forall|i: int| 0 <= i < (head + best).len() ==> g.has_edge(#[trigger] (head + best)[i]),
        pairwise_apart(g, head + best),
        ((head + best).len() == 0) == (forall|e: Edge| !g.has_edge(e)),
        largest_choice(g, entries, head + best),
{
    let all = head + best;
    lemma_guaranteed_apart(g, entries, entries.len() as int);
    assert forall|i: int| 0 <= i < head.len() implies g.has_edge(#[trigger] head[i]) by {
        let j = choose|j: int| 0 <= j < entries.len() && entries[j] == head[i];
        assert(g.has_edge(entries[j]));
    }
    assert forall|i: int| 0 <= i < all.len() implies g.has_edge(#[trigger] all[i]) by {
        if i >= head.len() {
            let j = choose|j: int| 0 <= j < mapping.len() && mapping[j] == best[i - head.len()];
            assert(g.has_edge(mapping[j]));
        } else {
            assert(all[i] == head[i]);
        }
    }
    assert forall|i: int, j: int| 0 <= i < j < all.len() implies !g.spec_may_share(
        all[i],
        all[j],
    ) by {
        if j < head.len() {
            assert(all[i] == head[i] && all[j] == head[j]);
        } else if i >= head.len() {
            assert(!g.spec_may_share(best[i - head.len()], best[j - head.len()]));
        } else {
            let b = best[j - head.len()];
            let p = choose|p: int| 0 <= p < mapping.len() && mapping[p] == b;
            assert(apart_from(g, mapping[p], head));
            assert(!g.spec_may_share(b, head[i]));
            g.lemma_may_share_symmetric(b, head[i]);
        }
    }
    if all.len() == 0 {
        assert forall|e: Edge| !g.has_edge(e) by {
            if g.has_edge(e) {
                // Nothing was taken, so every edge is a candidate.
                assert(apart_from(g, e, head));
                assert(mapping.contains(e));
            }
        }
    } else {
        assert(g.has_edge(all[0]));
    }
    assert(all.take(head.len() as int) =~= head);
    assert forall|s: Seq<Edge>|
        #[trigger] pairwise_apart(g, s) && (forall|i: int|
            0 <= i < s.len() ==> g.has_edge(s[i]) && apart_from(g, s[i], head)) implies s.len()
        <= all.len() - head.len() by {
        assert forall|i: int| 0 <= i < s.len() implies g.has_edge(#[trigger] s[i])
            && mapping.contains(s[i]) by {}
        let q = lemma_places(g, mapping, s);
        assert(apart_places(g, mapping, q));
    }
}

/// Whether no two edges of the graph may lie in one biclique.
pub open spec fn all_apart(g: &Bigraph) -> bool {
    forall|a: Edge, b: Edge|
        g.has_edge(a) && g.has_edge(b) && a != b ==> !g.spec_may_share(a, b)
}

/// Where no two edges may lie in one biclique, every edge is forced.
pub proof fn lemma_all_forced(g: &Bigraph, m: Seq<Edge>, forced: Seq<Edge>, e: Edge)
    requires
        all_apart(g),
        largest_choice(g, m, forced),
        pairwise_apart(g, forced),
        forall|i: int| 0 <= i < forced.len() ==> g.has_edge(#[trigger] forced[i]),
        g.has_edge(e),
    ensures
        forced.contains(e),
{
    if !forced.contains(e) {
        let head = guaranteed(m, m.len() as int);
        let h = head.len() as int;
        let rest = forced.skip(h);
        let s = rest.push(e);
        assert forall|i: int| 0 <= i < h implies head[i] == forced[i] by {
            assert(forced.take(h)[i] == forced[i]);
        }
        assert forall|i: int, j: int| 0 <= i < j < s.len() implies !g.spec_may_share(s[i], s[j]) by {
            assert(s[i] == forced[h + i]);
            if j == s.len() - 1 {
                assert(g.has_edge(forced[h + i]));
            } else {
                assert(s[j] == forced[h + j]);
            }
        }
        assert forall|i: int| 0 <= i < s.len() implies g.has_edge(s[i]) && apart_from(
            g,
            s[i],
            head,
        ) by {
            if i == s.len() - 1 {
                assert forall|j: int| 0 <= j < head.len() implies !g.spec_may_share(
                    s[i],
                    #[trigger] head[j],
                ) by {
                    assert(g.has_edge(forced[j]));
                }
            } else {
                assert(s[i] == forced[h + i]);
                assert(g.has_edge(forced[h + i]));
                assert forall|j: int| 0 <= j < head.len() implies !g.spec_may_share(
                    s[i],
                    #[trigger] head[j],
                ) by {
                    assert(!g.spec_may_share(forced[j], forced[h + i]));
                    g.lemma_may_share_symmetric(forced[j], forced[h + i]);
                }
            }
        }
        assert(pairwise_apart(g, s));
        assert(s.len() <= forced.len() - head.len());
    }
}

/// Whether the edges that may lie in one biclique with `e` may all lie in
/// one with each other.
pub open spec fn neighbours_agree(g: &Bigraph, e: Edge) -> bool {
    forall|a: Edge, b: Edge|
        #![trigger g.spec_may_share(e, a), g.spec_may_share(e, b)]
        g.has_edge(a) && g.has_edge(b) && g.spec_may_share(e, a) && g.spec_may_share(e, b)
            ==> g.spec_may_share(a, b)
}

/// The edges that may lie in one biclique with an edge that is alone in its
/// row share its column, and those of one that is alone in its column share
/// its row: either way they may lie in one biclique with each other.
pub proof fn lemma_solo_agrees(g: &Bigraph, m: Seq<Edge>, i: int)
    requires
        0 <= i < m.len(),
        alone_in_row(m, i) || alone_in_column(m, i),
        forall|e: Edge| g.has_edge(e) ==> m.contains(e),
    ensures
        neighbours_agree(g, m[i]),
{
    let e = m[i];
    assert forall|a: Edge, b: Edge|
        #![trigger g.spec_may_share(e, a), g.spec_may_share(e, b)]
        g.has_edge(a) && g.has_edge(b) && g.spec_may_share(e, a) && g.spec_may_share(
            e,
            b,
        ) implies g.spec_may_share(a, b) by {
        if alone_in_row(m, i) {
            let j = choose|j: int| 0 <= j < m.len() && m[j] == Edge(e.0, a.1);
            assert(m[j].0 == m[i].0);
            let k = choose|k: int| 0 <= k < m.len() && m[k] == Edge(e.0, b.1);
            assert(m[k].0 == m[i].0);
            assert(Edge(a.0, b.1) == a && Edge(b.0, a.1) == b);
        } else {
            let j = choose|j: int| 0 <= j < m.len() && m[j] == Edge(a.0, e.1);
            assert(m[j].1 == m[i].1);
            let k = choose|k: int| 0 <= k < m.len() && m[k] == Edge(b.0, e.1);
            assert(m[k].1 == m[i].1);
            assert(Edge(a.0, b.1) == b && Edge(b.0, a.1) == a);
        }
    }
}

/// Edges of which no two may lie in one biclique can take in an edge whose
/// neighbours agree without becoming fewer: at most one of them gives way
/// to it.
pub proof fn lemma_exchange(g: &Bigraph, s: Seq<Edge>, e: Edge) -> (t: Seq<Edge>)
    requires
        pairwise_apart(g, s),
        forall|i: int| 0 <= i < s.len() ==> g.has_edge(#[trigger] s[i]),
        g.has_edge(e),
        neighbours_agree(g, e),
    ensures
        pairwise_apart(g, t),
        forall|i: int| 0 <= i < t.len() ==> g.has_edge(#[trigger] t[i]),
        t.contains(e),
        s.len() <= t.len(),
        forall|o: Edge| s.contains(o) && !g.spec_may_share(e, o) ==> t.contains(o),
{
    if s.contains(e) {
        s
    } else if exists|i: int| 0 <= i < s.len() && g.spec_may_share(e, s[i]) {
        let i = choose|i: int| 0 <= i < s.len() && g.spec_may_share(e, s[i]);
        let t = s.update(i, e);
        assert forall|a: int, b: int| 0 <= a < b < t.len() implies !g.spec_may_share(
            t[a],
            t[b],
        ) by {
            if a == i {
                if g.spec_may_share(e, s[b]) {
                    assert(g.spec_may_share(s[i], s[b]));
                }
            } else if b == i {
                g.lemma_may_share_symmetric(s[a], e);
                if g.spec_may_share(e, s[a]) {
                    assert(g.spec_may_share(s[a], s[i]));
                }
            }
        }
        assert(t[i] == e);
        assert forall|o: Edge| s.contains(o) && !g.spec_may_share(e, o) implies t.contains(o) by {
            let j = choose|j: int| 0 <= j < s.len() && s[j] == o;
            assert(t[j] == o);
        }
        t
    } else {
        let t = s.push(e);
        assert forall|a: int, b: int| 0 <= a < b < t.len() implies !g.spec_may_share(
            t[a],
            t[b],
        ) by {
            if b == s.len() {
                g.lemma_may_share_symmetric(s[a], e);
            }
        }
        assert(t[s.len() as int] == e);
        assert forall|o: Edge| s.contains(o) implies t.contains(o) by {
            let j = choose|j: int| 0 <= j < s.len() && s[j] == o;
            assert(t[j] == o);
        }
        t
    }
}

/// Edges of which no two may lie in one biclique can take in the edges that
/// are taken without a search, and be no fewer for it.
pub proof fn lemma_with_taken(g: &Bigraph, m: Seq<Edge>, s: Seq<Edge>, n: int) -> (t: Seq<Edge>)
    requires
        0 <= n <= m.len(),
        forall|i: int| 0 <= i < m.len() ==> g.has_edge(#[trigger] m[i]),
        forall|e: Edge| g.has_edge(e) ==> m.contains(e),
        pairwise_apart(g, s),
        forall|i: int| 0 <= i < s.len() ==> g.has_edge(#[trigger] s[i]),
    ensures
        pairwise_apart(g, t),
        forall|i: int| 0 <= i < t.len() ==> g.has_edge(#[trigger] t[i]),
        s.len() <= t.len(),
        forall|i: int| 0 <= i < guaranteed(m, n).len() ==> t.contains(#[trigger] guaranteed(m, n)[i]),
    decreases n,
{
    if n <= 0 {
        s
    } else {
        let before = guaranteed(m, n - 1);
        let now = guaranteed(m, n);
        let among = lemma_with_taken(g, m, s, n - 1);
        if now == before {
            among
        } else {
            let e = m[n - 1];
            assert(now == before.push(e));
            lemma_solo_agrees(g, m, n - 1);
            lemma_guaranteed_apart(g, m, n);
            let t = lemma_exchange(g, among, e);
            assert forall|i: int| 0 <= i < now.len() implies t.contains(#[trigger] now[i]) by {
                if i < before.len() {
                    assert(now[i] == before[i]);
                    assert(among.contains(before[i]));
                    assert(!g.spec_may_share(now[i], now[now.len() - 1]));
                    g.lemma_may_share_symmetric(now[i], e);
                }
            }
            t
        }
    }
}

/// The members among the first `n` of `s` that are no members of `head`.
pub open spec fn outside(s: Seq<Edge>, head: Seq<Edge>, n: int) -> Seq<Edge>
    decreases n,
{
    if n <= 0 {
        Seq::empty()
    } else if head.contains(s[n - 1]) {
        outside(s, head, n - 1)
    } else {
        outside(s, head, n - 1).push(s[n - 1])
    }
}

/// The members of `head` among the first `n` of `s`.
pub open spec fn inside(s: Seq<Edge>, head: Seq<Edge>, n: int) -> Set<Edge> {
    Set::new(|e: Edge| head.contains(e) && exists|j: int| 0 <= j < n && s[j] == e)
}

/// Of edges of which no two may lie in one biclique, those outside `head`
/// are again such edges, and with those inside `head` they are all.
pub proof fn lemma_outside(g: &Bigraph, s: Seq<Edge>, head: Seq<Edge>, n: int)
    requires
        0 <= n <= s.len(),
        pairwise_apart(g, s),
        forall|i: int| 0 <= i < s.len() ==> g.has_edge(#[trigger] s[i]),
    ensures
        pairwise_apart(g, outside(s, head, n)),
        forall|i: int|
            0 <= i < outside(s, head, n).len() ==> !head.contains(
                #[trigger] outside(s, head, n)[i],
            ) && exists|j: int| 0 <= j < n && s[j] == outside(s, head, n)[i],
        inside(s, head, n).finite(),
        n == outside(s, head, n).len() + inside(s, head, n).len(),
    decreases n,
{
    if n <= 0 {
        assert(inside(s, head, n) =~= Set::<Edge>::empty());
    } else {
        lemma_outside(g, s, head, n - 1);
        let e = s[n - 1];
        let before = outside(s, head, n - 1);
        let now = outside(s, head, n);
        if head.contains(e) {
            assert(!inside(s, head, n - 1).contains(e)) by {
                if inside(s, head, n - 1).contains(e) {
                    let j = choose|j: int| 0 <= j < n - 1 && s[j] == e;
                    assert(!g.spec_may_share(s[j], s[n - 1]));
                    assert(g.has_edge(s[j]));
                    assert(Edge(e.0, e.1) == e);
                }
            }
            assert(inside(s, head, n) =~= inside(s, head, n - 1).insert(e));
            assert forall|i: int| 0 <= i < now.len() implies !head.contains(#[trigger] now[i])
                && exists|j: int| 0 <= j < n && s[j] == now[i] by {
                let j = choose|j: int| 0 <= j < n - 1 && s[j] == before[i];
                assert(s[j] == now[i]);
            }
        } else {
            assert(inside(s, head, n) =~= inside(s, head, n - 1));
            assert forall|i: int| 0 <= i < now.len() implies !head.contains(#[trigger] now[i])
                && exists|j: int| 0 <= j < n && s[j] == now[i] by {
                if i < before.len() {
                    let j = choose|j: int| 0 <= j < n - 1 && s[j] == before[i];
                    assert(s[j] == now[i]);
                } else {
                    assert(s[n - 1] == now[i]);
                }
            }
            assert forall|a: int, b: int| 0 <= a < b < now.len() implies !g.spec_may_share(
                now[a],
                now[b],
            ) by {
                if b == before.len() {
                    let j = choose|j: int| 0 <= j < n - 1 && s[j] == before[a];
                    assert(!g.spec_may_share(s[j], s[n - 1]));
                } else {
                    assert(now[a] == before[a] && now[b] == before[b]);
                }
            }
        }
    }
}

/// The forced edges are as many as any edges of which no two may lie in one
/// biclique: the edges that are taken without a search cost nothing.
pub proof fn lemma_forced_is_largest(g: &Bigraph, m: Seq<Edge>, forced: Seq<Edge>, s: Seq<Edge>)
    requires
        g.lists_edges(m),
        largest_choice(g, m, forced),
        pairwise_apart(g, s),
        forall|i: int| 0 <= i < s.len() ==> g.has_edge(#[trigger] s[i]),
    ensures
        s.len() <= forced.len(),
{
    let head = guaranteed(m, m.len() as int);
    let t = lemma_with_taken(g, m, s, m.len() as int);
    lemma_outside(g, t, head, t.len() as int);
    let rest = outside(t, head, t.len() as int);
    let hits = inside(t, head, t.len() as int);
    assert(hits.len() <= head.len()) by {
        assert(hits.subset_of(head.to_set()));
        vstd::seq_lib::seq_to_set_is_finite(head);
        vstd::set_lib::lemma_len_subset(hits, head.to_set());
        head.lemma_cardinality_of_set();
    }
    assert forall|i: int| 0 <= i < rest.len() implies g.has_edge(rest[i]) && apart_from(
        g,
        rest[i],
        head,
    ) by {
        let j = choose|j: int| 0 <= j < t.len() && t[j] == rest[i];
        assert(g.has_edge(t[j]));
        assert forall|k: int| 0 <= k < head.len() implies !g.spec_may_share(
            rest[i],
            #[trigger] head[k],
        ) by {
            assert(t.contains(head[k]));
            let at = choose|at: int| 0 <= at < t.len() && t[at] == head[k];
            assert(head.contains(head[k]));
            assert(at != j);
            if at < j {
                assert(!g.spec_may_share(t[at], t[j]));
                g.lemma_may_share_symmetric(t[at], t[j]);
            } else {
                assert(!g.spec_may_share(t[j], t[at]));
            }
        }
    }
    assert(pairwise_apart(g, rest));
    assert(rest.len() <= forced.len() - head.len());
}

/// Two largest choices of edges of which no two may lie in one biclique
/// have the same size.
pub proof fn lemma_largest_same_size(g: &Bigraph, a: Seq<Edge>, b: Seq<Edge>)
    requires
        largest_apart(g, a),
        largest_apart(g, b),
    ensures
        a.len() == b.len(),
{
    assert(pairwise_apart(g, a));
    assert(pairwise_apart(g, b));
}

/// Forced edges that are all the edges cover the graph, each as a biclique
/// of its own.
pub proof fn lemma_seeds_cover(g: &Bigraph, forced: Seq<Edge>)
    requires
        forall|i: int| 0 <= i < forced.len() ==> g.has_edge(#[trigger] forced[i]),
        forall|e: Edge| g.has_edge(e) ==> forced.contains(e),
    ensures
        g.is_cover(crate::covers::layer::seeds(forced, forced.len())),
{
    let cs = crate::covers::layer::seeds(forced, forced.len());
    assert forall|i: int| 0 <= i < cs.len() implies g.bounds(#[trigger] cs[i]) && g.is_biclique(
        cs[i],
    ) by {
        assert(g.has_edge(forced[i]));
        g.lemma_edge_in_range(forced[i]);
    }
    assert forall|e: Edge| g.has_edge(e) implies exists|i: int|
        0 <= i < cs.len() && (#[trigger] cs[i]).contains(e) by {
        let i = choose|i: int| 0 <= i < forced.len() && forced[i] == e;
        assert(cs[i].contains(e));
    }
}

/// Edges of which no two may lie in one biclique, as many as can be had:
/// first the edges that are taken without a search, then a largest choice
/// among the other edges that may not lie in one biclique with any of
/// those.
pub fn forced_elements(g: &Bigraph) -> (forced: Vec<Edge>)
    requires
        g.wf(),
    ensures
        forall|i: int| 0 <= i < forced@.len() ==> g.has_edge(#[trigger] forced@[i]),
        pairwise_apart(g, forced@),
        (forced@.len() == 0) == (forall|e: Edge| !g.has_edge(e)),
        exists|m: Seq<Edge>| #[trigger] g.lists_edges(m) && largest_choice(g, m, forced@),
        largest_apart(g, forced@),
{
    let entries = g.entries();
    let mut guaranteed = optimal_forced_elements(entries.as_slice());
    proof {
        lemma_guaranteed_apart(g, entries@, entries@.len() as int);
        assert forall|i: int| 0 <= i < guaranteed@.len() implies g.has_edge(
            #[trigger] guaranteed@[i],
        ) by {
            let j = choose|j: int| 0 <= j < entries@.len() && entries@[j] == guaranteed@[i];
            assert(g.has_edge(entries@[j]));
        }
    }
    let mapping = candidates(g, &entries, &guaranteed);
    let dominated = dominated_entries(g, mapping.as_slice());
    let mapping = without_all(g, mapping, &dominated, Ghost(guaranteed@));
    let ghost unsorted = mapping@;
    let mapping = sorted_by_sharing(g, &entries, mapping);
    proof {
        lemma_same_members(g, guaranteed@, unsorted, mapping@);
        assert forall|e: Edge| g.has_edge(e) && apart_from(g, e, guaranteed@) implies mapping@.contains(
            e,
        ) by {
            let i = choose|i: int| 0 <= i < entries@.len() && entries@[i] == e;
            assert(unsorted.contains(entries@[i]));
        }
    }
    let visibility = visibility_table(g, &mapping);
    let best = largest_among(g, &mapping, &visibility);
    let ghost head = guaranteed@;
    let mut i: usize = 0;
    while i < best.len()
        invariant
            i <= best@.len(),
            guaranteed@ == head + best@.take(i as int),
        decreases best@.len() - i,
    {
        guaranteed.push(best[i]);
        proof {
            assert(best@.take(i + 1) =~= best@.take(i as int).push(best@[i as int]));
            assert(guaranteed@ =~= head + best@.take(i + 1));
        }
        i = i + 1;
    }
    proof {
        assert(best@.take(i as int) =~= best@);
        lemma_forced_result(g, entries@, head, mapping@, best@);
        assert(largest_choice(g, entries@, guaranteed@));
        assert forall|o: Seq<Edge>|
            #[trigger] pairwise_apart(g, o) && (forall|i: int|
                0 <= i < o.len() ==> g.has_edge(o[i])) implies o.len() <= guaranteed@.len() by {
            lemma_forced_is_largest(g, entries@, guaranteed@, o);
        }
    }
    guaranteed
}

/// A list that has the members of another, each as often as the other has
/// it, has candidates for members if the other has, and every candidate
/// that the other has.
proof fn lemma_same_members(g: &Bigraph, taken: Seq<Edge>, before: Seq<Edge>, after: Seq<Edge>)
    requires
        after.to_multiset() == before.to_multiset(),
        forall|i: int|
            0 <= i < before.len() ==> g.has_edge(#[trigger] before[i]) && apart_from(
                g,
                before[i],
                taken,
            ),
    ensures
        after.len() == before.len(),
        forall|i: int|
            0 <= i < after.len() ==> g.has_edge(#[trigger] after[i]) && apart_from(
                g,
                after[i],
                taken,
            ),
        forall|e: Edge| before.contains(e) ==> after.contains(e),
{
    vstd::seq_lib::to_multiset_len(after);
    vstd::seq_lib::to_multiset_len(before);
    assert forall|i: int| 0 <= i < after.len() implies g.has_edge(#[trigger] after[i])
        && apart_from(g, after[i], taken) by {
        vstd::seq_lib::to_multiset_contains(after, after[i]);
        vstd::seq_lib::to_multiset_contains(before, after[i]);
        assert(after.contains(after[i]));
        let j = choose|j: int| 0 <= j < before.len() && before[j] == after[i];
        assert(g.has_edge(before[j]));
    }
    assert forall|e: Edge| before.contains(e) implies after.contains(e) by {
        vstd::seq_lib::to_multiset_contains(after, e);
        vstd::seq_lib::to_multiset_contains(before, e);
    }
}

/// The tables of the search that starts from the last candidate of
/// `mapping`.
fn anchored<'x>(
    mapping: &'x Vec<Edge>,
    visibility: &'x Vec<TBitSet<usize>>,
    best_possible_improvement: &'x Vec<usize>,
) -> (cx: Cx<'x>)
    ensures
        cx.mapping == mapping,
        cx.visibility == visibility,
        cx.best_possible_improvement == best_possible_improvement,
{
    Cx { mapping, visibility, best_possible_improvement }
}

/// The members of `m` that are not members of `dropped`, in the order that
/// they have in `m`.
pub open spec fn remaining(m: Seq<Edge>, dropped: Seq<Edge>) -> Seq<Edge>
    decreases m.len(),
{
    if m.len() == 0 {
        m
    } else if dropped.contains(m.last()) {
        remaining(m.drop_last(), dropped)
    } else {
        remaining(m.drop_last(), dropped).push(m.last())
    }
}

/// Where nothing is dropped, everything remains.
pub proof fn lemma_remaining_all(m: Seq<Edge>)
    ensures
        remaining(m, Seq::<Edge>::empty()) == m,
    decreases m.len(),
{
    if m.len() > 0 {
        lemma_remaining_all(m.drop_last());
        assert(!Seq::<Edge>::empty().contains(m.last()));
        assert(m.drop_last().push(m.last()) =~= m);
    }
}

/// To drop the members of `dropped` and then `e` is to drop the members of
/// `dropped` with `e`.
pub proof fn lemma_remaining_step(m: Seq<Edge>, dropped: Seq<Edge>, e: Edge)
    ensures
        remaining(remaining(m, dropped), seq![e]) == remaining(m, dropped.push(e)),
    decreases m.len(),
{
    let more = dropped.push(e);
    if m.len() > 0 {
        let x = m.last();
        let rest = remaining(m.drop_last(), dropped);
        lemma_remaining_step(m.drop_last(), dropped, e);
        assert(seq![e].contains(x) == (x == e)) by {
            if x == e {
                assert(seq![e][0] == x);
            }
        }
        assert(more.contains(x) == (dropped.contains(x) || x == e)) by {
            if dropped.contains(x) {
                let i = choose|i: int| 0 <= i < dropped.len() && dropped[i] == x;
                assert(more[i] == x);
            }
            if x == e {
                assert(more[dropped.len() as int] == x);
            }
            if more.contains(x) {
                let i = choose|i: int| 0 <= i < more.len() && more[i] == x;
                if i < dropped.len() {
                    assert(dropped[i] == x);
                }
            }
        }
        if !dropped.contains(x) {
            assert(rest.push(x).drop_last() =~= rest);
            assert(rest.push(x).last() == x);
        }
    }
}

/// The candidates `mapping` without those that `dropped` lists.
fn without_all(
    g: &Bigraph,
    mapping: Vec<Edge>,
    dropped: &Vec<Edge>,
    taken: Ghost<Seq<Edge>>,
) -> (kept: Vec<Edge>)
    requires
        forall|i: int|
            0 <= i < mapping@.len() ==> g.has_edge(#[trigger] mapping@[i]) && apart_from(
                g,
                mapping@[i],
                taken@,
            ),
    ensures
        forall|i: int|
            0 <= i < kept@.len() ==> g.has_edge(#[trigger] kept@[i]) && apart_from(
                g,
                kept@[i],
                taken@,
            ),
        dropped@.len() == 0 ==> kept@ == mapping@,
        kept@ == remaining(mapping@, dropped@),
{
    let ghost given = mapping@;
    let mut kept = mapping;
    let mut n: usize = 0;
    proof {
        lemma_remaining_all(given);
        assert(dropped@.take(0) =~= Seq::<Edge>::empty());
    }
    while n < dropped.len()
        invariant
            n <= dropped@.len(),
            n == 0 ==> kept@ == given,
            kept@ == remaining(given, dropped@.take(n as int)),
            forall|i: int|
                0 <= i < kept@.len() ==> g.has_edge(#[trigger] kept@[i]) && apart_from(
                    g,
                    kept@[i],
                    taken@,
                ),
        decreases dropped@.len() - n,
    {
        let e = dropped[n];
        let mut next: Vec<Edge> = Vec::new();
        let mut i: usize = 0;
        proof {
            assert(kept@.take(0) =~= Seq::<Edge>::empty());
        }
        while i < kept.len()
            invariant
                i <= kept@.len(),
                next@ == remaining(kept@.take(i as int), seq![e]),
                forall|i: int|
                    0 <= i < kept@.len() ==> g.has_edge(#[trigger] kept@[i]) && apart_from(
                        g,
                        kept@[i],
                        taken@,
                    ),
                forall|i: int|
                    0 <= i < next@.len() ==> g.has_edge(#[trigger] next@[i]) && apart_from(
                        g,
                        next@[i],
                        taken@,
                    ),
            decreases kept@.len() - i,
        {
            let o = kept[i];
            proof {
                let upto = kept@.take(i + 1);
                assert(upto.drop_last() =~= kept@.take(i as int));
                assert(upto.last() == o);
                assert(seq![e].contains(o) == (o == e)) by {
                    if o == e {
                        assert(seq![e][0] == o);
                    }
                }
            }
            if o != e {
                next.push(o);
            }
            i = i + 1;
        }
        proof {
            assert(kept@.take(i as int) =~= kept@);
            lemma_remaining_step(given, dropped@.take(n as int), e);
            assert(dropped@.take(n + 1) =~= dropped@.take(n as int).push(e));
        }
        kept = next;
        n = n + 1;
    }
    proof {
        assert(dropped@.take(n as int) =~= dropped@);
    }
    kept
}

/// The candidates `mapping` by the number of edges that each may lie in one
/// biclique with, fewest first; candidates with the same number stay in the
/// order that they had.
fn sorted_by_sharing(g: &Bigraph, entries: &Vec<Edge>, mapping: Vec<Edge>) -> (sorted: Vec<Edge>)
    requires
        g.wf(),
        forall|i: int| 0 <= i < entries@.len() ==> g.has_edge(#[trigger] entries@[i]),
        forall|i: int| 0 <= i < mapping@.len() ==> g.has_edge(#[trigger] mapping@[i]),
    ensures
        sorted@.len() == mapping@.len(),
        sorted@.to_multiset() == mapping@.to_multiset(),
        forall|i: int, j: int|
            0 <= i < j < sorted@.len() ==> share_count(
                g,
                entries@,
                sorted@[i],
                entries@.len() as int,
            ) <= share_count(g, entries@, sorted@[j], entries@.len() as int),
{
    let mut keys: Vec<(usize, usize)> = Vec::new();
    let mut i: usize = 0;
    while i < mapping.len()
        invariant
            g.wf(),
            i <= mapping@.len(),
            keys@.len() == i,
            forall|i: int| 0 <= i < entries@.len() ==> g.has_edge(#[trigger] entries@[i]),
            forall|i: int| 0 <= i < mapping@.len() ==> g.has_edge(#[trigger] mapping@[i]),
            forall|j: int|
                0 <= j < i ==> (#[trigger] keys@[j]).0 == share_count(
                    g,
                    entries@,
                    mapping@[j],
                    entries@.len() as int,
                ) && keys@[j].1 == j,
        decreases mapping@.len() - i,
    {
        proof {
            g.lemma_edge_in_range(mapping@[i as int]);
        }
        keys.push((sharing(g, entries, mapping[i]), i));
        i = i + 1;
    }
    let ghost given = keys@;
    sort_pairs(&mut keys);
    proof {
        vstd::seq_lib::to_multiset_len(keys@);
        vstd::seq_lib::to_multiset_len(given);
        assert forall|j: int| 0 <= j < keys@.len() implies given.contains(#[trigger] keys@[j]) by {
            vstd::seq_lib::to_multiset_contains(keys@, keys@[j]);
            vstd::seq_lib::to_multiset_contains(given, keys@[j]);
            assert(keys@.contains(keys@[j]));
        }
    }
    let mut sorted: Vec<Edge> = Vec::new();
    let mut i: usize = 0;
    while i < keys.len()
        invariant
            i <= keys@.len(),
            keys@.len() == mapping@.len(),
            given.len() == mapping@.len(),
            sorted@.len() == i,
            forall|j: int|
                0 <= j < given.len() ==> (#[trigger] given[j]).0 == share_count(
                    g,
                    entries@,
                    mapping@[j],
                    entries@.len() as int,
                ) && given[j].1 == j,
            forall|j: int| 0 <= j < keys@.len() ==> given.contains(#[trigger] keys@[j]),
            forall|j: int| 0 <= j < i ==> keys@[j].1 < mapping@.len() && (#[trigger] sorted@[j])
                == mapping@[keys@[j].1 as int],
        decreases keys@.len() - i,
    {
        let place = keys[i].1;
        proof {
            assert(given.contains(keys@[i as int]));
            let j = choose|j: int| 0 <= j < given.len() && given[j] == keys@[i as int];
            assert(given[j].1 == j);
        }
        sorted.push(mapping[place]);
        i = i + 1;
    }
    proof {
        lemma_rearranged(g, entries@, mapping@, given, keys@, sorted@);
    }
    sorted
}

/// What is read off a sorted list of keys and places is the list that the
/// keys were made from, rearranged by key.
proof fn lemma_rearranged(
    g: &Bigraph,
    entries: Seq<Edge>,
    mapping: Seq<Edge>,
    given: Seq<(usize, usize)>,
    keys: Seq<(usize, usize)>,
    sorted: Seq<Edge>,
)
    requires
        given.len() == mapping.len(),
        keys.len() == mapping.len(),
        sorted.len() == mapping.len(),
        keys.to_multiset() == given.to_multiset(),
        forall|j: int|
            0 <= j < given.len() ==> (#[trigger] given[j]).0 == share_count(
                g,
                entries,
                mapping[j],
                entries.len() as int,
            ) && given[j].1 == j,
        forall|i: int, j: int| 0 <= i < j < keys.len() ==> pair_le(keys[i], keys[j]),
        forall|j: int|
            0 <= j < keys.len() ==> keys[j].1 < mapping.len() && (#[trigger] sorted[j])
                == mapping[keys[j].1 as int],
        forall|j: int| 0 <= j < keys.len() ==> given.contains(#[trigger] keys[j]),
    ensures
        sorted.to_multiset() == mapping.to_multiset(),
        forall|i: int, j: int|
            0 <= i < j < sorted.len() ==> share_count(g, entries, sorted[i], entries.len() as int)
                <= share_count(g, entries, sorted[j], entries.len() as int),
{
    let edge_of = |p: (usize, usize)| mapping[p.1 as int];
    assert(given.map_values(edge_of) =~= mapping) by {
        assert forall|j: int| 0 <= j < given.len() implies given.map_values(edge_of)[j]
            == mapping[j] by {
            assert(given[j].1 == j);
        }
    }
    assert(keys.map_values(edge_of) =~= sorted);
    lemma_map_multiset(given, keys, edge_of);
    assert forall|i: int, j: int| 0 <= i < j < sorted.len() implies share_count(
        g,
        entries,
        sorted[i],
        entries.len() as int,
    ) <= share_count(g, entries, sorted[j], entries.len() as int) by {
        assert(pair_le(keys[i], keys[j]));
        assert(given.contains(keys[i]));
        assert(given.contains(keys[j]));
        let a = choose|a: int| 0 <= a < given.len() && given[a] == keys[i];
        let b = choose|b: int| 0 <= b < given.len() && given[b] == keys[j];
        assert(given[a].1 == a && given[b].1 == b);
        assert(sorted[i] == mapping[a] && sorted[j] == mapping[b]);
    }
}

/// Two lists with the same members, each as often in the one as in the
/// other, still have the same members after the same change to each member.
pub proof fn lemma_map_multiset<A, B>(a: Seq<A>, b: Seq<A>, change: spec_fn(A) -> B)
    requires
        a.to_multiset() == b.to_multiset(),
    ensures
        a.map_values(change).to_multiset() == b.map_values(change).to_multiset(),
    decreases a.len(),
{
    broadcast use vstd::seq_lib::group_to_multiset_ensures;

    vstd::seq_lib::to_multiset_len(a);
    vstd::seq_lib::to_multiset_len(b);
    if a.len() == 0 {
        assert(a.map_values(change) =~= b.map_values(change));
    } else {
        let x = a.last();
        assert(a.contains(x));
        assert(a.to_multiset().count(x) > 0);
        assert(b.contains(x));
        let j = choose|j: int| 0 <= j < b.len() && b[j] == x;
        let a2 = a.drop_last();
        let b2 = b.remove(j);
        assert(a2 =~= a.remove(a.len() - 1));
        vstd::seq_lib::to_multiset_remove(a, a.len() - 1);
        vstd::seq_lib::to_multiset_remove(b, j);
        assert(a2.to_multiset() =~= b2.to_multiset());
        lemma_map_multiset(a2, b2, change);
        let ma = a.map_values(change);
        let mb = b.map_values(change);
        assert(a2.map_values(change) =~= ma.remove(ma.len() - 1));
        assert(b2.map_values(change) =~= mb.remove(j));
        vstd::seq_lib::to_multiset_remove(ma, ma.len() - 1);
        vstd::seq_lib::to_multiset_remove(mb, j);
        assert(ma[ma.len() - 1] == mb[j]);
        assert(ma.to_multiset() =~= ma.remove(ma.len() - 1).to_multiset().insert(change(x)));
        assert(mb.to_multiset() =~= mb.remove(j).to_multiset().insert(change(x)));
    }
}

} // verus!
