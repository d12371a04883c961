//! Forced edges by a plain search.
//!
//! The search of [`crate::forced`] starts from each candidate in turn and
//! knows how far the earlier starts have come. The search of this module
//! goes through the choices among all edges in one sweep. It is kept for
//! comparison.

use crate::bitset::{members, set_add, set_count, set_intersection, set_last, set_new, set_remove};
use crate::forced::{
    apart_places, drawn_from, largest_apart, lemma_count_below, lemma_places, open_to,
    pairwise_apart,
};
use crate::graph::{Bigraph, Edge};
use tindex::TBitSet;
use vstd::prelude::*;

verus! {

/// What the search works on.
pub struct Cx<'x> {
    /// The edges of the graph.
    pub mapping: &'x Vec<Edge>,
    /// For each edge, the edges before it that may not lie in one biclique
    /// with it.
    pub visibility: &'x Vec<TBitSet<usize>>,
}

impl<'x> Cx<'x> {
    /// Whether the table says of the edges what it should: an edge sees
    /// exactly the edges before it that may not lie in one biclique with it.
    pub open spec fn wf(&self, g: &Bigraph) -> bool {
        &&& self.mapping@.len() <= usize::MAX
        &&& self.visibility@.len() == self.mapping@.len()
        &&& forall|i: int| 0 <= i < self.mapping@.len() ==> g.has_edge(#[trigger] self.mapping@[i])
        &&& forall|i: int, o: usize|
            #![trigger members(self.visibility@[i]).contains(o)]
            0 <= i < self.mapping@.len() ==> (members(self.visibility@[i]).contains(o) <==> o < i
                && !g.spec_may_share(self.mapping@[i], self.mapping@[o as int]))
    }
}

/// Looks for a choice of edges that is larger than `best`: `chosen` with
/// some of the edges at the places `possible`, of which no two may lie in
/// one biclique. What it finds is left in `best`, which then is no smaller
/// than `chosen` with any such choice.
///
/// The last of `possible` is first taken and then left out. The search
/// gives up where `chosen` with all of `possible` would not beat `best`.
pub fn recur(
    g: &Bigraph,
    cx: &Cx<'_>,
    chosen: &mut Vec<Edge>,
    best: &mut Vec<Edge>,
    possible: TBitSet<usize>,
    limit: Ghost<usize>,
)
    requires
        g.wf(),
        cx.wf(g),
        forall|p: usize| members(possible).contains(p) ==> p < limit@,
        old(chosen)@.len() + limit@ <= cx.mapping@.len(),
        pairwise_apart(g, old(chosen)@),
        pairwise_apart(g, old(best)@),
        drawn_from(old(chosen)@, cx.mapping@),
        drawn_from(old(best)@, cx.mapping@),
        open_to(g, cx.mapping@, old(chosen)@, members(possible)),
    ensures
        final(chosen)@ == old(chosen)@,
        pairwise_apart(g, final(best)@),
        drawn_from(final(best)@, cx.mapping@),
        final(best)@.len() >= old(best)@.len(),
        final(best)@.len() >= old(chosen)@.len(),
        members(possible) != Set::<usize>::empty() ==> final(best)@.len() > old(chosen)@.len(),
        forall|q: Set<usize>|
            #[trigger] apart_places(g, cx.mapping@, q) && q.subset_of(members(possible))
                ==> final(best)@.len() >= old(chosen)@.len() + q.len(),
    decreases limit@,
{
    let ghost all = members(possible);
    let ghost m = cx.mapping@;
    let mut possible = possible;
    let count = set_count(&possible);
    proof {
        lemma_count_below(members(possible), limit@);
        if members(possible) != Set::<usize>::empty() {
            assert(members(possible).len() > 0) by {
                if members(possible).len() == 0 {
                    members(possible).lemma_len0_is_empty();
                    assert(members(possible) =~= Set::<usize>::empty());
                }
            }
        }
    }
    if best.len() >= chosen.len() + count {
        proof {
            assert forall|q: Set<usize>|
                #[trigger] apart_places(g, m, q) && q.subset_of(all) implies q.len() <= count by {
                vstd::set_lib::lemma_len_subset(q, all);
            }
        }
        return ;
    }
    match set_last(&possible) {
        Some(first) => {
            let ghost wide = members(possible);
            set_remove(&mut possible, first);
            let f = cx.mapping[first];
            let ghost picked = chosen@;
            chosen.push(f);
            let new_possible = set_intersection(&possible, &cx.visibility[first]);
            proof {
                assert forall|i: int, j: int| 0 <= i < j < chosen@.len() implies !g.spec_may_share(
                    chosen@[i],
                    chosen@[j],
                ) by {
                    if j == chosen@.len() - 1 {
                        assert(chosen@[i] == picked[i]);
                        assert(wide.contains(first));
                        assert(!g.spec_may_share(cx.mapping@[first as int], picked[i]));
                    } else {
                        assert(chosen@[i] == picked[i] && chosen@[j] == picked[j]);
                    }
                }
                assert forall|i: int| 0 <= i < chosen@.len() implies cx.mapping@.contains(
                    #[trigger] chosen@[i],
                ) by {
                    if i < picked.len() {
                        assert(chosen@[i] == picked[i]);
                    } else {
                        assert(cx.mapping@[first as int] == chosen@[i]);
                    }
                }
                assert forall|p: usize, i: int|
                    #![trigger members(new_possible).contains(p), chosen@[i]]
                    members(new_possible).contains(p) && 0 <= i < chosen@.len()
                    implies !g.spec_may_share(cx.mapping@[p as int], chosen@[i]) by {
                    assert(wide.contains(p));
                    assert(members(cx.visibility@[first as int]).contains(p));
                    if i < picked.len() {
                        assert(chosen@[i] == picked[i]);
                    }
                }
                assert forall|p: usize| members(new_possible).contains(p) implies p < first by {
                    assert(members(cx.visibility@[first as int]).contains(p));
                }
                assert forall|p: usize| members(possible).contains(p) implies p < first by {
                    assert(wide.contains(p));
                }
            }
            let ghost narrow = members(new_possible);
            let ghost fewer = members(possible);
            recur(g, cx, chosen, best, new_possible, Ghost(first));
            chosen.pop();
            proof {
                assert(chosen@ =~= picked);
                assert forall|p: usize, i: int|
                    #![trigger members(possible).contains(p), chosen@[i]]
                    members(possible).contains(p) && 0 <= i < chosen@.len()
                    implies !g.spec_may_share(cx.mapping@[p as int], chosen@[i]) by {
                    assert(wide.contains(p));
                }
                // A choice with `first` is `first` and a choice among what
                // `first` sees.
                assert forall|q: Set<usize>|
                    #[trigger] apart_places(g, m, q) && q.subset_of(all) && q.contains(
                        first,
                    ) implies best@.len() >= picked.len() + q.len() by {
                    let rest = q.remove(first);
                    assert(apart_places(g, m, rest));
                    assert forall|a: usize| rest.contains(a) implies narrow.contains(a) by {
                        assert(q.contains(a) && all.contains(a));
                        assert(a <= first);
                        g.lemma_may_share_symmetric(m[a as int], m[first as int]);
                        assert(members(cx.visibility@[first as int]).contains(a));
                    }
                    assert(rest.subset_of(narrow));
                }
            }
            recur(g, cx, chosen, best, possible, Ghost(first));
            proof {
                assert forall|q: Set<usize>|
                    #[trigger] apart_places(g, m, q) && q.subset_of(all) && !q.contains(
                        first,
                    ) implies best@.len() >= picked.len() + q.len() by {
                    assert(q.subset_of(fewer));
                }
            }
        },
        None => {
            proof {
                assert forall|q: Set<usize>|
                    #[trigger] apart_places(g, m, q) && q.subset_of(all) implies q.len() == 0 by {
                    assert(q =~= Set::<usize>::empty());
                }
            }
            if chosen.len() > best.len() {
                best.clear();
                let mut i: usize = 0;
                while i < chosen.len()
                    invariant
                        i <= chosen@.len(),
                        best@ == chosen@.take(i as int),
                    decreases chosen@.len() - i,
                {
                    best.push(chosen[i]);
                    proof {
                        assert(chosen@.take(i + 1) =~= chosen@.take(i as int).push(chosen@[i as int]));
                    }
                    i = i + 1;
                }
                proof {
                    assert(chosen@.take(i as int) =~= chosen@);
                }
            }
        },
    }
}

/// As many edges as can be had of which no two may lie in one biclique,
/// found by a plain search through the choices among all edges.
pub fn forced_elements(g: &Bigraph) -> (forced: Vec<Edge>)
    requires
        g.wf(),
    ensures
        forall|i: int| 0 <= i < forced@.len() ==> g.has_edge(#[trigger] forced@[i]),
        pairwise_apart(g, forced@),
        (forced@.len() == 0) == (forall|e: Edge| !g.has_edge(e)),
        largest_apart(g, forced@),
{
    let mut best: Vec<Edge> = Vec::new();
    let mapping = g.entries();
    let mut visibility: Vec<TBitSet<usize>> = Vec::new();
    let mut all = set_new();
    let mut i: usize = 0;
    while i < mapping.len()
        invariant
            g.wf(),
            i <= mapping@.len(),
            visibility@.len() == i,
            forall|j: int| 0 <= j < mapping@.len() ==> g.has_edge(#[trigger] mapping@[j]),
            forall|j: int, o: usize|
                #![trigger members(visibility@[j]).contains(o)]
                0 <= j < i ==> (members(visibility@[j]).contains(o) <==> o < j
                    && !g.spec_may_share(mapping@[j], mapping@[o as int])),
            members(all) == Set::new(|p: usize| p < i),
        decreases mapping@.len() - i,
    {
        let e = mapping[i];
        let mut others = set_new();
        let mut o: usize = 0;
        proof {
            g.lemma_edge_in_range(e);
        }
        while o < i
            invariant
                g.wf(),
                g.in_range(e),
                e == mapping@[i as int],
                o <= i < mapping@.len(),
                forall|j: int| 0 <= j < mapping@.len() ==> g.has_edge(#[trigger] mapping@[j]),
                forall|p: usize|
                    members(others).contains(p) <==> p < o && !g.spec_may_share(
                        e,
                        mapping@[p as int],
                    ),
            decreases i - o,
        {
            proof {
                g.lemma_edge_in_range(mapping@[o as int]);
            }
            if !g.may_share(e, mapping[o]) {
                set_add(&mut others, o);
            }
            o = o + 1;
        }
        visibility.push(others);
        set_add(&mut all, i);
        proof {
            assert(members(all) =~= Set::new(|p: usize| p < i + 1));
        }
        i = i + 1;
    }
    let cx = Cx { mapping: &mapping, visibility: &visibility };
    let mut chosen: Vec<Edge> = Vec::new();
    proof {
        if mapping@.len() > 0 {
            assert(members(all).contains(0usize));
        }
    }
    let ghost places = members(all);
    recur(g, &cx, &mut chosen, &mut best, all, Ghost(mapping.len()));
    proof {
        assert forall|s: Seq<Edge>|
            #[trigger] pairwise_apart(g, s) && (forall|i: int|
                0 <= i < s.len() ==> g.has_edge(s[i])) implies s.len() <= best@.len() by {
            assert forall|i: int| 0 <= i < s.len() implies g.has_edge(#[trigger] s[i])
                && mapping@.contains(s[i]) by {}
            let q = lemma_places(g, mapping@, s);
            assert(apart_places(g, mapping@, q));
            assert(q.subset_of(places));
        }
        assert forall|i: int| 0 <= i < best@.len() implies g.has_edge(#[trigger] best@[i]) by {
            let j = choose|j: int| 0 <= j < mapping@.len() && mapping@[j] == best@[i];
            assert(g.has_edge(mapping@[j]));
        }
        if best@.len() == 0 {
            assert forall|e: Edge| !g.has_edge(e) by {
                if g.has_edge(e) {
                    assert(mapping@.contains(e));
                }
            }
        } else {
            assert(g.has_edge(best@[0]));
        }
    }
    best
}

} // verus!
