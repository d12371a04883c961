//! Minimum biclique covers of bipartite graphs.
//!
//! A biclique of a bipartite graph is a set of left vertices and a set of
//! right vertices with an edge between every pair across the two. A cover is
//! a list of bicliques that between them hold every edge of the graph.
//! [`biclique_covers`] searches for the covers of a graph with the fewest
//! bicliques, and with a few more where the caller asks for them.

pub mod biclique;
pub mod bitset;
pub mod cover;
pub mod covers;
pub mod exhaustive;
pub mod forced;
pub mod graph;
pub mod grid;
pub mod known;
pub mod order;

pub use biclique::Biclique;
pub use cover::BicliqueCover;
pub use graph::{Bigraph, Edge};

use biclique::Sides;
use covers::layer::fits;
use covers::{all_covers, by_size, handed, one_suffices};
use forced::{
    all_apart, largest_choice, lemma_all_forced, lemma_count_below, lemma_forced_lower_bound,
    lemma_places, lemma_seeds_cover,
};
use std::ops::ControlFlow;
use vstd::prelude::*;

verus! {

/// Whether the search for covers by at most `max_size` bicliques can be run
/// on `g`: the flags of a layer of that size have places that fit in a
/// `usize`.
pub fn can_search(g: &Bigraph, max_size: usize) -> (r: bool)
    requires
        g.wf(),
    ensures
        r == fits(g, max_size as nat),
{
    let bound = g.bound();
    if bound == 0 {
        return true;
    }
    if max_size == usize::MAX {
        proof {
            assert(bound * (max_size + 1) > usize::MAX) by (nonlinear_arith)
                requires
                    bound >= 1,
                    max_size == usize::MAX,
            ;
        }
        return false;
    }
    proof {
        let b = bound as int;
        let k = (max_size + 1) as int;
        let q = usize::MAX as int / b;
        vstd::arithmetic::div_mod::lemma_fundamental_div_mod(usize::MAX as int, b);
        assert((k <= q) == (b * k <= usize::MAX)) by (nonlinear_arith)
            requires
                b > 0,
                k >= 0,
                usize::MAX as int == b * q + usize::MAX as int % b,
                0 <= usize::MAX as int % b < b,
        ;
    }
    max_size + 1 <= usize::MAX / bound
}

/// Searches for the covers of `g` by at most `max_size` bicliques, and hands
/// each to `f`.
///
/// The search starts at the size that the forced edges of `g` give as a
/// lower bound, and goes on size by size up to `max_size`, which is at least
/// 1 for a graph with an edge. Whatever is handed to `f` is a cover of `g` in
/// canonical order, with no more than `max_size` bicliques, and has no
/// fewer bicliques than what was handed to `f` before. When `f` returns
/// `Break`, the search stops at once and returns what `f` returned; as long
/// as `f` returns `Continue`, the search goes on, and returns `Continue`
/// when it is over.
///
/// Where one biclique covers the graph, and where no two edges may lie in
/// one biclique, a cover is handed to `f` if there is one of at most
/// `max_size` bicliques, and the first one is a smallest cover. Of other
/// graphs no such thing is promised: the store of partial covers can keep
/// the search from every cover. Where no two edges may lie in one biclique
/// and `max_size` is the number of the edges, and where one biclique covers
/// the edges and `max_size` is 1, one cover is handed to `f` and no more.
pub fn biclique_covers<T, F: FnMut(BicliqueCover) -> ControlFlow<T>>(
    g: &Bigraph,
    max_size: usize,
    f: F,
) -> (r: ControlFlow<T>)
    requires
        g.wf(),
        max_size >= 1 || forall|e: Edge| !g.has_edge(e),
        fits(g, max_size as nat),
        forall|c: BicliqueCover|
            g.is_cover(c@) && c.wf() && c@.len() <= max_size ==> call_requires(f, (c,)),
    ensures
        exists|log: Seq<BicliqueCover>| #[trigger] handed(f, log, r) && searched(g, max_size, log),
{
    let forced_elements: Vec<Edge> = forced::forced_elements(g);
    let ghost forced = forced_elements@;
    let (r, Ghost(log)) = covers::iterate(g, max_size, forced_elements, f);
    proof {
        if (all_apart(g) || one_suffices(g)) && within_reach(g, max_size) {
            let some = choose|cs: Seq<Sides>| g.is_cover(cs) && cs.len() <= max_size;
            lemma_forced_lower_bound(g, forced, some);
            assert forall|cs: Seq<Sides>| #[trigger] g.is_cover(cs) implies forced.len()
                <= cs.len() by {
                lemma_forced_lower_bound(g, forced, cs);
            }
            if forced.len() == 0 {
                lemma_seeds_cover(g, forced);
            } else if all_apart(g) {
                let m = choose|m: Seq<Edge>| #[trigger] g.lists_edges(m) && largest_choice(
                    g,
                    m,
                    forced,
                );
                assert forall|e: Edge| g.has_edge(e) implies forced.contains(e) by {
                    lemma_all_forced(g, m, forced, e);
                }
                lemma_seeds_cover(g, forced);
            } else {
                let t = choose|t: Sides| g.is_cover(seq![t]);
                lemma_forced_lower_bound(g, forced, seq![t]);
                assert(g.has_edge(forced[0]));
                assert forall|cs: Seq<Sides>| #[trigger] g.is_cover(cs) implies 1 <= cs.len() by {
                    let i = choose|i: int|
                        0 <= i < cs.len() && (#[trigger] cs[i]).contains(forced[0]);
                }
                assert(1 <= some.len());
            }
            assert(smallest_first(g, log));
        }
        if single(g, max_size) {
            if all_apart(g) && exists|m: Seq<Edge>| #[trigger]
                g.lists_edges(m) && m.len() == max_size {
                let m = choose|m: Seq<Edge>| #[trigger] g.lists_edges(m) && m.len() == max_size;
                let n = choose|n: Seq<Edge>| #[trigger]
                    g.lists_edges(n) && largest_choice(g, n, forced);
                assert forall|e: Edge| g.has_edge(e) implies forced.contains(e) by {
                    lemma_all_forced(g, n, forced, e);
                }
                lemma_seeds_cover(g, forced);
                assert forall|i: int, j: int| 0 <= i < j < m.len() implies !g.spec_may_share(
                    m[i],
                    m[j],
                ) by {
                    assert(g.has_edge(m[i]) && g.has_edge(m[j]));
                }
                assert(forced::pairwise_apart(g, m));
                assert(m.len() <= forced.len());
                assert forall|i: int| 0 <= i < forced.len() implies g.has_edge(
                    #[trigger] forced[i],
                ) && m.contains(forced[i]) by {}
                let q = lemma_places(g, m, forced);
                lemma_count_below(q, m.len() as usize);
            } else {
                let t = choose|t: Sides| g.is_cover(seq![t]);
                lemma_forced_lower_bound(g, forced, seq![t]);
            }
            assert(covers::lone(g, forced, max_size));
        }
        assert(handed(f, log, r) && searched(g, max_size, log));
    }
    r
}

/// Whether `log` can be what a search of `g` for covers by at most
/// `max_size` bicliques hands over: covers of `g` in canonical order, none
/// with more bicliques than a later one; a smallest cover first where one
/// biclique covers the graph or no two edges may lie in one biclique, and a
/// cover is within reach; and a single cover where the search is over after
/// one.
pub open spec fn searched(g: &Bigraph, max_size: usize, log: Seq<BicliqueCover>) -> bool {
    &&& all_covers(g, log, 0, max_size as int)
    &&& by_size(log)
    &&& (all_apart(g) || one_suffices(g)) && within_reach(g, max_size) ==> smallest_first(g, log)
    &&& single(g, max_size) ==> log.len() == 1
}

/// Whether the search is over after one cover: no two edges may lie in one
/// biclique and `max_size` is the number of the edges, or one biclique
/// covers the edges, of which there is one at least, and `max_size` is 1.
pub open spec fn single(g: &Bigraph, max_size: usize) -> bool {
    ||| all_apart(g) && exists|m: Seq<Edge>| #[trigger] g.lists_edges(m) && m.len() == max_size
    ||| one_suffices(g) && max_size == 1 && exists|e: Edge| g.has_edge(e)
}

/// Whether the graph has a cover by at most `max_size` bicliques.
pub open spec fn within_reach(g: &Bigraph, max_size: usize) -> bool {
    exists|cs: Seq<Sides>| g.is_cover(cs) && cs.len() <= max_size
}

/// Whether a cover was handed over, and the first that was is a smallest
/// cover of the graph.
pub open spec fn smallest_first(g: &Bigraph, log: Seq<BicliqueCover>) -> bool {
    log.len() > 0 && forall|cs: Seq<Sides>| #[trigger] g.is_cover(cs) ==> log[0]@.len() <= cs.len()
}

} // verus!
