//! Graphs whose covers are known: what the search hands over for a graph
//! whose edges join each vertex to the vertex of the same number, and for a
//! graph in which every left vertex is joined to every right vertex.

use crate::biclique::Sides;
use crate::cover::BicliqueCover;
use crate::covers::{all_covers, one_suffices};
use crate::forced::{all_apart, lemma_forced_lower_bound, lemma_pigeonhole, pairwise_apart};
use crate::graph::{Bigraph, Edge};
use crate::order::{canonical, sides_below};
use crate::{searched, single};
use vstd::prelude::*;

verus! {

/// Whether `g` has `n` vertices on each side, and its edges join each left
/// vertex to the right vertex of the same number.
pub open spec fn is_identity(g: &Bigraph, n: u32) -> bool {
    &&& g.spec_left() == n
    &&& g.spec_right() == n
    &&& forall|e: Edge| #[trigger] g.has_edge(e) == (e.0 == e.1 && e.0 < n)
}

/// Whether `g` has a vertex on each side, and every left vertex is joined
/// to every right vertex.
pub open spec fn is_complete(g: &Bigraph) -> bool {
    &&& g.spec_left() >= 1
    &&& g.spec_right() >= 1
    &&& forall|e: Edge| g.in_range(e) ==> #[trigger] g.has_edge(e)
}

/// The biclique of left vertex `v` and right vertex `v`.
pub open spec fn only(v: u32) -> Sides {
    Sides { left: Set::<u32>::empty().insert(v), right: Set::<u32>::empty().insert(v) }
}

/// The biclique of all vertices of `g`.
pub open spec fn all_of(g: &Bigraph) -> Sides {
    Sides {
        left: Set::new(|x: u32| x < g.spec_left()),
        right: Set::new(|y: u32| y < g.spec_right()),
    }
}

/// Whether `p` is a member of `h`.
pub open spec fn among(h: Seq<int>, p: int) -> bool {
    exists|i: int| 0 <= i < h.len() && #[trigger] h[i] == p
}

/// Numbers that fall from place to place fall by one at least with each
/// place.
pub proof fn lemma_falling(d: Seq<int>, i: int, j: int)
    requires
        0 <= i <= j < d.len(),
        forall|p: int, q: int| 0 <= p < q < d.len() ==> d[p] > d[q],
    ensures
        d[i] - d[j] >= j - i,
    decreases j - i,
{
    if i < j {
        lemma_falling(d, i + 1, j);
    }
}

/// The search for the covers of a complete graph by one biclique hands
/// over one cover: the biclique of all vertices.
pub proof fn lemma_complete_graph(g: &Bigraph, log: Seq<BicliqueCover>)
    requires
        g.wf(),
        is_complete(g),
        searched(g, 1, log),
    ensures
        log.len() == 1,
        log[0]@ == seq![all_of(g)],
{
    let all = all_of(g);
    let one = seq![all];
    assert(g.is_cover(one)) by {
        assert forall|i: int| 0 <= i < one.len() implies g.bounds(#[trigger] one[i])
            && g.is_biclique(one[i]) by {
            assert forall|x: u32, y: u32|
                #![trigger all.left.contains(x), all.right.contains(y)]
                all.left.contains(x) && all.right.contains(y) implies g.has_edge(Edge(x, y)) by {
                assert(g.in_range(Edge(x, y)));
            }
        }
        assert forall|e: Edge| g.has_edge(e) implies exists|i: int|
            0 <= i < one.len() && (#[trigger] one[i]).contains(e) by {
            g.lemma_edge_in_range(e);
            assert(one[0].contains(e));
        }
    }
    assert(one_suffices(g));
    let corner = Edge(0, 0);
    assert(g.in_range(corner));
    assert(g.has_edge(corner));
    assert(single(g, 1));
    let c = log[0]@;
    assert(g.is_cover(c) && c.len() <= 1);
    let i = choose|i: int| 0 <= i < c.len() && (#[trigger] c[i]).contains(corner);
    assert(c.len() == 1);
    assert(c[0].left =~= all.left) by {
        assert forall|x: u32| x < g.spec_left() implies c[0].left.contains(x) by {
            let e = Edge(x, 0);
            assert(g.in_range(e));
            assert(g.has_edge(e));
            let i = choose|i: int| 0 <= i < c.len() && (#[trigger] c[i]).contains(e);
        }
        assert(g.bounds(c[0]));
    }
    assert(c[0].right =~= all.right) by {
        assert forall|y: u32| y < g.spec_right() implies c[0].right.contains(y) by {
            let e = Edge(0, y);
            assert(g.in_range(e));
            assert(g.has_edge(e));
            let i = choose|i: int| 0 <= i < c.len() && (#[trigger] c[i]).contains(e);
        }
        assert(g.bounds(c[0]));
    }
    assert(c =~= seq![all]);
}

/// The search for the covers of an identity graph of `n` edges by `n`
/// bicliques hands over one cover: for each vertex the biclique of that
/// left vertex and that right vertex, the largest vertex first.
pub proof fn lemma_identity_graph(g: &Bigraph, n: u32, log: Seq<BicliqueCover>)
    requires
        g.wf(),
        is_identity(g, n),
        searched(g, n as usize, log),
    ensures
        log.len() == 1,
        log[0]@.len() == n,
        forall|p: int| 0 <= p < n ==> #[trigger] log[0]@[p] == only((n - 1 - p) as u32),
{
    let m = Seq::new(n as nat, |i: int| Edge(i as u32, i as u32));
    let stride = g.stride();
    assert forall|i: int| 0 <= i < m.len() implies g.has_edge(#[trigger] m[i]) by {}
    assert forall|e: Edge| g.has_edge(e) implies m.contains(e) by {
        assert(m[e.0 as int] == e);
    }
    assert forall|i: int, j: int| 0 <= i < j < m.len() implies g.spec_edge_index(m[i])
        < g.spec_edge_index(m[j]) by {
        assert(i * stride <= j * stride) by (nonlinear_arith)
            requires
                0 <= i < j,
                0 <= stride,
        ;
    }
    assert(g.lists_edges(m));
    assert(all_apart(g));
    assert(single(g, n as usize));
    assert(pairwise_apart(g, m));
    let c = log[0]@;
    assert(g.is_cover(c) && c.len() <= n);
    lemma_forced_lower_bound(g, m, c);
    let h = Seq::new(
        n as nat,
        |i: int| choose|p: int| 0 <= p < c.len() && (#[trigger] c[p]).contains(m[i]),
    );
    assert forall|i: int| 0 <= i < n implies 0 <= #[trigger] h[i] < n && c[h[i]].contains(m[i]) by {
        assert(g.has_edge(m[i]));
    }
    assert forall|i: int, j: int| 0 <= i < j < n implies h[i] != h[j] by {
        if h[i] == h[j] {
            let b = c[h[i]];
            assert(b.contains(m[i]) && b.contains(m[j]));
            assert(g.is_biclique(b));
            assert(b.left.contains(i as u32) && b.right.contains(j as u32));
            assert(g.has_edge(Edge(i as u32, j as u32)));
        }
    }
    // Every biclique of the cover holds one of the edges.
    assert forall|p: int| 0 <= p < n implies #[trigger] among(h, p) by {
        if !among(h, p) {
            let less = Seq::new(
                n as nat,
                |i: int|
                    if h[i] > p {
                        h[i] - 1
                    } else {
                        h[i]
                    },
            );
            assert forall|i: int| 0 <= i < less.len() implies 0 <= #[trigger] less[i] < n - 1 by {
                assert(h[i] != p);
            }
            assert forall|i: int, j: int| 0 <= i < j < less.len() implies less[i] != less[j] by {
                assert(h[i] != h[j]);
                assert(h[i] != p && h[j] != p);
            }
            lemma_pigeonhole(less, n - 1);
        }
    }
    let at = Seq::new(n as nat, |p: int| choose|i: int| 0 <= i < h.len() && #[trigger] h[i] == p);
    assert forall|p: int| 0 <= p < n implies 0 <= #[trigger] at[p] < n && h[at[p]] == p && c[p]
        == only(at[p] as u32) by {
        assert(among(h, p));
        let i = at[p];
        assert(0 <= i < n && h[i] == p);
        let b = c[p];
        assert(b.contains(m[i]));
        assert(g.is_biclique(b));
        assert(b.left =~= only(i as u32).left) by {
            assert forall|x: u32| b.left.contains(x) implies x == i by {
                assert(b.left.contains(x) && b.right.contains(i as u32));
                assert(g.has_edge(Edge(x, i as u32)));
            }
        }
        assert(b.right =~= only(i as u32).right) by {
            assert forall|y: u32| b.right.contains(y) implies y == i by {
                assert(b.left.contains(i as u32) && b.right.contains(y));
                assert(g.has_edge(Edge(i as u32, y)));
            }
        }
    }
    assert(canonical(c));
    assert forall|p: int, q: int| 0 <= p < q < at.len() implies at[p] > at[q] by {
        assert(h[at[p]] == p && h[at[q]] == q);
        if at[p] < at[q] {
            let a = only(at[p] as u32);
            let b = only(at[q] as u32);
            let top = at[q] as u32;
            assert(b.left.contains(top) && !a.left.contains(top));
            assert(crate::order::set_below(a.left, b.left));
            assert(sides_below(c[p], c[q]));
        }
    }
    assert forall|p: int| 0 <= p < n implies #[trigger] log[0]@[p] == only((n - 1 - p) as u32) by {
        lemma_falling(at, 0, p);
        lemma_falling(at, p, n - 1);
        assert(0 <= at[0] < n && 0 <= at[n - 1] < n);
        assert(at[p] == n - 1 - p);
    }
}

} // verus!
