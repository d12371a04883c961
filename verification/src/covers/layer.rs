//! One state of the search: a partly built cover of fixed size, and for
//! every edge what is still open.

use crate::biclique::{sides_of, Biclique, Sides};
use crate::bitset::{
    members, set32_add, set32_get, set32_items, set_add, set_clone, set_get, set_items, set_new,
    set_remove,
};
use crate::graph::{Bigraph, Edge};
use tindex::TBitSet;
use vstd::arithmetic::div_mod::lemma_fundamental_div_mod_converse;
use vstd::prelude::*;
use vstd::set_lib::{lemma_int_range, lemma_len_subset, set_int_range};

verus! {

/// The data of one edge begin with the flag that the edge is covered.
pub const IN_BICLIQUE: usize = 0;

/// After that flag comes one flag per biclique: the edge may still join it.
pub const POSSIBILITY_OFFSET: usize = 1;

/// The position in a layer's data at which the flags of one edge begin.
#[derive(Clone, Copy)]
pub struct DataIndex(pub usize);

impl DataIndex {
    /// The position of the flag that the edge is covered.
    pub fn in_biclique(self) -> (index: usize)
        ensures
            index == self.0,
    {
        self.0 + IN_BICLIQUE
    }

    /// The position of the flag that the edge may still join biclique `i`.
    pub fn may_add(self, i: usize) -> (index: usize)
        requires
            self.0 + 1 + i <= usize::MAX,
        ensures
            index == self.0 + 1 + i,
    {
        self.0 + POSSIBILITY_OFFSET + i
    }
}

/// A partly built cover of `k` bicliques.
///
/// `data` holds `k + 1` flags for every edge index: whether the edge lies in
/// one of the bicliques, and for each biclique whether the edge may still be
/// added to it. `changed` holds the bicliques that have grown since they were
/// last extended to their full size.
#[derive(Debug)]
pub struct Layer {
    pub(crate) bicliques: Vec<Biclique>,
    pub(crate) data: TBitSet<usize>,
    pub(crate) changed: TBitSet<usize>,
}

/// The position of flag `s` of edge `e` in the data of a layer of size `k`.
pub open spec fn slot(g: &Bigraph, k: nat, e: Edge, s: int) -> int {
    g.spec_edge_index(e) * (k + 1) + s
}

/// Whether the data of every edge of `g` fit in a layer of size `k`.
pub open spec fn fits(g: &Bigraph, k: nat) -> bool {
    g.index_bound() * (k + 1) <= usize::MAX
}

/// Whether some member of `cs` contains `e`.
pub open spec fn in_some(cs: Seq<Sides>, e: Edge) -> bool {
    exists|c: int| 0 <= c < cs.len() && (#[trigger] cs[c]).contains(e)
}

/// A flag of an in-range edge has a place of its own below the bound.
pub proof fn lemma_slot(g: &Bigraph, k: nat, e: Edge, s: int)
    requires
        g.wf(),
        fits(g, k),
        g.in_range(e),
        0 <= s <= k,
    ensures
        0 <= slot(g, k, e, s) < g.index_bound() * (k + 1),
        slot(g, k, e, s) % (k + 1) as int == s,
        slot(g, k, e, s) / (k + 1) as int == g.spec_edge_index(e),
{
    g.lemma_index_bound(e);
    let i = g.spec_edge_index(e);
    let n = g.index_bound() as int;
    let w = (k + 1) as int;
    assert(0 <= i * w && i * w + w <= n * w) by (nonlinear_arith)
        requires
            0 <= i < n,
            w > 0,
    ;
    lemma_fundamental_div_mod_converse(slot(g, k, e, s), w, i, s);
}

/// Two flags share a place only if they are the same flag of the same edge.
pub proof fn lemma_slot_injective(g: &Bigraph, k: nat, a: Edge, s: int, b: Edge, t: int)
    requires
        g.wf(),
        fits(g, k),
        g.in_range(a),
        g.in_range(b),
        0 <= s <= k,
        0 <= t <= k,
        slot(g, k, a, s) == slot(g, k, b, t),
    ensures
        a == b,
        s == t,
{
    lemma_slot(g, k, a, s);
    lemma_slot(g, k, b, t);
    g.lemma_index_injective(a, b);
}

impl Layer {
    /// The size of the cover.
    pub open(crate) spec fn k(&self) -> nat {
        self.bicliques@.len()
    }

    /// The bicliques as they stand.
    pub open(crate) spec fn cliques(&self) -> Seq<Sides> {
        sides_of(self.bicliques@)
    }

    /// The bicliques that have grown since they were last extended.
    pub open(crate) spec fn changed(&self) -> Set<usize> {
        members(self.changed)
    }

    /// The positions of the flags that are set.
    pub open(crate) spec fn flags(&self) -> Set<usize> {
        members(self.data)
    }

    /// Whether the flag is set that says that `e` lies in a biclique.
    pub open(crate) spec fn covered(&self, g: &Bigraph, e: Edge) -> bool {
        members(self.data).contains(slot(g, self.k(), e, 0) as usize)
    }

    /// Whether the flag is set that says that `e` may join biclique `c`.
    pub open(crate) spec fn may(&self, g: &Bigraph, e: Edge, c: int) -> bool {
        members(self.data).contains(slot(g, self.k(), e, c + 1) as usize)
    }

    /// The pairs of an edge and a biclique that the edge may still join.
    pub open(crate) spec fn open_pairs(&self, g: &Bigraph) -> Set<(Edge, int)> {
        Set::new(|p: (Edge, int)| g.in_range(p.0) && 0 <= p.1 < self.k() && self.may(g, p.0, p.1))
    }

    /// The number of flags that say that some edge may join some biclique.
    pub open(crate) spec fn open_count(&self, g: &Bigraph) -> nat {
        self.open_pairs(g).len()
    }

    /// There are finitely many open flags.
    pub proof fn lemma_open_pairs_finite(&self, g: &Bigraph)
        requires
            g.wf(),
            fits(g, self.k()),
        ensures
            self.open_pairs(g).finite(),
    {
        let k = self.k();
        let n = (g.index_bound() * (k + 1)) as int;
        let range = set_int_range(0, n);
        lemma_int_range(0, n);
        let dec = |i: int| (g.spec_edge_from_index(i / (k + 1) as int), i % (k + 1) as int - 1);
        range.lemma_map_finite(dec);
        assert forall|p: (Edge, int)| self.open_pairs(g).contains(p) implies range.map(
            dec,
        ).contains(p) by {
            let i = slot(g, k, p.0, p.1 + 1);
            lemma_slot(g, k, p.0, p.1 + 1);
            g.lemma_index_round_trip(p.0);
            assert(range.contains(i));
            assert(dec(i) == p);
        }
        lemma_len_subset(self.open_pairs(g), range.map(dec));
    }

    /// A layer that has no open flag beyond those of another has no more of
    /// them.
    pub proof fn lemma_open_count_le(&self, before: &Layer, g: &Bigraph)
        requires
            g.wf(),
            fits(g, self.k()),
            self.k() == before.k(),
            forall|e: Edge, c: int|
                g.in_range(e) && 0 <= c < self.k() && #[trigger] self.may(g, e, c) ==> before.may(
                    g,
                    e,
                    c,
                ),
        ensures
            self.open_count(g) <= before.open_count(g),
    {
        before.lemma_open_pairs_finite(g);
        lemma_len_subset(self.open_pairs(g), before.open_pairs(g));
    }

    /// A layer that has lost an open flag of another, and gained none, has
    /// fewer of them.
    pub proof fn lemma_open_count_lt(&self, before: &Layer, g: &Bigraph, e: Edge, c: int)
        requires
            g.wf(),
            fits(g, self.k()),
            self.k() == before.k(),
            forall|e: Edge, c: int|
                g.in_range(e) && 0 <= c < self.k() && #[trigger] self.may(g, e, c) ==> before.may(
                    g,
                    e,
                    c,
                ),
            g.in_range(e),
            0 <= c < self.k(),
            before.may(g, e, c),
            !self.may(g, e, c),
        ensures
            self.open_count(g) < before.open_count(g),
    {
        before.lemma_open_pairs_finite(g);
        self.open_pairs(g).lemma_subset_not_in_lt(before.open_pairs(g), (e, c));
    }

    /// The invariant of a layer: its members are bicliques of `g`; an edge is
    /// flagged as covered exactly when one of them contains it; and an edge
    /// is flagged as open for a biclique only if it is an edge outside that
    /// biclique which the biclique can take in.
    pub open(crate) spec fn wf(&self, g: &Bigraph) -> bool {
        &&& g.wf()
        &&& fits(g, self.k())
        &&& forall|c: int|
            0 <= c < self.k() ==> g.bounds(#[trigger] self.cliques()[c]) && g.is_biclique(
                self.cliques()[c],
            )
        &&& forall|e: Edge|
            g.in_range(e) ==> (#[trigger] self.covered(g, e) <==> in_some(self.cliques(), e))
        &&& forall|e: Edge, c: int|
            g.in_range(e) && 0 <= c < self.k() && #[trigger] self.may(g, e, c) ==> g.has_edge(e)
                && !self.cliques()[c].contains(e) && g.spec_may_add(self.cliques()[c], e)
        &&& forall|c: usize| #[trigger] self.changed().contains(c) ==> c < self.k()
    }

    /// The bicliques as they stand.
    pub fn bicliques(&self) -> (cliques: &[Biclique])
        ensures
            sides_of(cliques@) == self.cliques(),
    {
        self.bicliques.as_slice()
    }

    /// The places of the bicliques that have grown since they were last
    /// extended, in ascending order.
    pub fn changed_cliques(&self) -> (places: Vec<usize>)
        ensures
            forall|i: int, j: int| 0 <= i < j < places@.len() ==> places@[i] < places@[j],
            forall|i: int| 0 <= i < places@.len() ==> self.changed().contains(#[trigger] places@[i]),
            forall|c: usize| self.changed().contains(c) ==> places@.contains(c),
    {
        set_items(&self.changed)
    }

    /// The position at which the flags of `e` begin.
    pub fn index(g: &Bigraph, k: usize, e: Edge) -> (index: DataIndex)
        requires
            g.wf(),
            fits(g, k as nat),
            g.in_range(e),
        ensures
            index.0 == slot(g, k as nat, e, 0),
            index.0 + k <= usize::MAX,
    {
        proof {
            lemma_slot(g, k as nat, e, 0);
            lemma_slot(g, k as nat, e, k as int);
        }
        DataIndex(g.edge_index(e) * (k + POSSIBILITY_OFFSET))
    }

    /// Sets the flag that says that `e` lies in a biclique.
    pub(crate) fn mark_covered(&mut self, g: &Bigraph, e: Edge)
        requires
            g.wf(),
            fits(g, old(self).k()),
            g.in_range(e),
        ensures
            final(self).bicliques == old(self).bicliques,
            final(self).changed == old(self).changed,
            forall|o: Edge|
                g.in_range(o) ==> #[trigger] final(self).covered(g, o) == (old(self).covered(g, o)
                    || o == e),
            forall|o: Edge, c: int|
                g.in_range(o) && 0 <= c < old(self).k() ==> #[trigger] final(self).may(g, o, c)
                    == old(self).may(g, o, c),
    {
        let index = Layer::index(g, self.bicliques.len(), e);
        set_add(&mut self.data, index.in_biclique());
        proof {
            let k = self.k();
            lemma_slot(g, k, e, 0);
            assert forall|o: Edge| g.in_range(o) implies #[trigger] self.covered(g, o) == (
            old(self).covered(g, o) || o == e) by {
                lemma_slot(g, k, o, 0);
                if slot(g, k, o, 0) == slot(g, k, e, 0) {
                    lemma_slot_injective(g, k, o, 0, e, 0);
                }
            }
            assert forall|o: Edge, c: int| g.in_range(o) && 0 <= c < k implies #[trigger] self.may(
                g,
                o,
                c,
            ) == old(self).may(g, o, c) by {
                lemma_slot(g, k, o, c + 1);
                if slot(g, k, o, c + 1) == slot(g, k, e, 0) {
                    lemma_slot_injective(g, k, o, c + 1, e, 0);
                }
            }
        }
    }

    /// Clears the flag that says that `e` may join biclique `c`.
    pub(crate) fn clear_may(&mut self, g: &Bigraph, c: usize, e: Edge)
        requires
            g.wf(),
            fits(g, old(self).k()),
            g.in_range(e),
            c < old(self).k(),
        ensures
            final(self).bicliques == old(self).bicliques,
            final(self).changed == old(self).changed,
            forall|o: Edge|
                g.in_range(o) ==> #[trigger] final(self).covered(g, o) == old(self).covered(g, o),
            forall|o: Edge, d: int|
                g.in_range(o) && 0 <= d < old(self).k() ==> #[trigger] final(self).may(g, o, d)
                    == (old(self).may(g, o, d) && !(o == e && d == c)),
    {
        let index = Layer::index(g, self.bicliques.len(), e);
        set_remove(&mut self.data, index.may_add(c));
        proof {
            let k = self.k();
            let place = slot(g, k, e, c + 1);
            lemma_slot(g, k, e, c + 1);
            assert forall|o: Edge| g.in_range(o) implies #[trigger] self.covered(g, o)
                == old(self).covered(g, o) by {
                lemma_slot(g, k, o, 0);
                if slot(g, k, o, 0) == place {
                    lemma_slot_injective(g, k, o, 0, e, c + 1);
                }
            }
            assert forall|o: Edge, d: int| g.in_range(o) && 0 <= d < k implies #[trigger] self.may(
                g,
                o,
                d,
            ) == (old(self).may(g, o, d) && !(o == e && d == c)) by {
                lemma_slot(g, k, o, d + 1);
                if slot(g, k, o, d + 1) == place {
                    lemma_slot_injective(g, k, o, d + 1, e, c + 1);
                }
            }
        }
    }

    /// Whether `self` is what `before` becomes when its bicliques grow: an
    /// open flag stays exactly when its edge is still outside its biclique
    /// and the biclique can still take the edge in.
    pub open(crate) spec fn grown_from(&self, before: &Layer, g: &Bigraph) -> bool {
        &&& self.k() == before.k()
        &&& forall|c: int|
            0 <= c < self.k() ==> (#[trigger] self.cliques()[c]).contains_clique(
                before.cliques()[c],
            )
        &&& forall|e: Edge, c: int|
            g.in_range(e) && 0 <= c < self.k() ==> #[trigger] self.may(g, e, c) == (before.may(
                g,
                e,
                c,
            ) && g.spec_may_add(self.cliques()[c], e) && !self.cliques()[c].contains(e))
    }

    /// Adds left vertex `x` to biclique `c`.
    ///
    /// The edges from `x` to the right side of the biclique become covered.
    /// Every edge at a right vertex that `x` is not joined to can no longer
    /// join the biclique.
    pub fn add_left(&mut self, g: &Bigraph, c: usize, x: u32)
        requires
            old(self).wf(g),
            c < old(self).k(),
            x < g.spec_left(),
            g.row_fits(old(self).cliques()[c as int], x),
        ensures
            final(self).wf(g),
            final(self).cliques() == old(self).cliques().update(
                c as int,
                old(self).cliques()[c as int].with_left(x),
            ),
            final(self).grown_from(old(self), g),
            final(self).changed() == old(self).changed().insert(c),
    {
        let ghost pre = *self;
        let ghost k = self.k();
        let ghost side = self.cliques()[c as int];
        let ys = set32_items(&self.bicliques[c].right);
        let mut n: usize = 0;
        while n < ys.len()
            invariant
                pre.wf(g),
                k == pre.k(),
                c < k,
                x < g.spec_left(),
                n <= ys@.len(),
                forall|i: int| 0 <= i < ys@.len() ==> side.right.contains(#[trigger] ys@[i]),
                side == pre.cliques()[c as int],
                self.bicliques == pre.bicliques,
                self.changed == pre.changed,
                forall|o: Edge|
                    g.in_range(o) ==> #[trigger] self.covered(g, o) == (pre.covered(g, o) || (o.0
                        == x && among(ys@, n as int, o.1))),
                forall|o: Edge, d: int|
                    g.in_range(o) && 0 <= d < k ==> #[trigger] self.may(g, o, d) == (pre.may(
                        g,
                        o,
                        d,
                    ) && !(d == c && o.0 == x && among(ys@, n as int, o.1))),
            decreases ys@.len() - n,
        {
            let e = Edge(x, ys[n]);
            self.mark_covered(g, e);
            self.clear_may(g, c, e);
            proof {
                assert forall|y: u32| among(ys@, n + 1, y) == (among(ys@, n as int, y) || y
                    == ys@[n as int]) by {
                    lemma_among_step(ys@, n as int, y);
                }
            }
            n = n + 1;
        }
        proof {
            assert forall|y: u32| among(ys@, ys@.len() as int, y) == side.right.contains(y) by {
                if side.right.contains(y) {
                    let i = choose|i: int| 0 <= i < ys@.len() && ys@[i] == y;
                    assert(ys@[i] == y);
                }
            }
        }
        let ghost mid = *self;
        let mut y: u32 = 0;
        while y < g.right()
            invariant
                pre.wf(g),
                k == pre.k(),
                c < k,
                x < g.spec_left(),
                y <= g.spec_right(),
                side == pre.cliques()[c as int],
                self.bicliques == pre.bicliques,
                self.changed == pre.changed,
                forall|o: Edge|
                    g.in_range(o) ==> #[trigger] self.covered(g, o) == mid.covered(g, o),
                forall|o: Edge, d: int|
                    g.in_range(o) && 0 <= d < k ==> #[trigger] self.may(g, o, d) == (mid.may(
                        g,
                        o,
                        d,
                    ) && !(d == c && o.1 < y && !g.has_edge(Edge(x, o.1)) && g.column_fits(
                        side,
                        o.1,
                    ) && g.has_edge(o))),
            decreases g.spec_right() - y,
        {
            if !g.get(Edge(x, y)) && g.column_of(&self.bicliques[c], y) {
                let ghost top = *self;
                let mut x2: u32 = 0;
                while x2 < g.left()
                    invariant
                        pre.wf(g),
                        k == pre.k(),
                        c < k,
                        y < g.spec_right(),
                        x2 <= g.spec_left(),
                        self.bicliques == pre.bicliques,
                        self.changed == pre.changed,
                        forall|o: Edge|
                            g.in_range(o) ==> #[trigger] self.covered(g, o) == top.covered(g, o),
                        forall|o: Edge, d: int|
                            g.in_range(o) && 0 <= d < k ==> #[trigger] self.may(g, o, d) == (
                            top.may(g, o, d) && !(d == c && o.1 == y && o.0 < x2 && g.has_edge(
                                o,
                            ))),
                    decreases g.spec_left() - x2,
                {
                    if g.get(Edge(x2, y)) {
                        self.clear_may(g, c, Edge(x2, y));
                    }
                    x2 = x2 + 1;
                }
            }
            y = y + 1;
        }
        let ghost last = *self;
        set32_add(&mut self.bicliques[c].left, x);
        set_add(&mut self.changed, c);
        proof {
            let grown = side.with_left(x);
            assert(self.cliques() =~= pre.cliques().update(c as int, grown));
            assert(self.k() == k);
            assert forall|o: Edge| g.in_range(o) implies #[trigger] self.covered(g, o)
                == last.covered(g, o) by {}
            assert forall|o: Edge, d: int| g.in_range(o) && 0 <= d < k implies #[trigger] self.may(
                g,
                o,
                d,
            ) == last.may(g, o, d) by {}
            assert forall|d: int| 0 <= d < k implies g.bounds(#[trigger] self.cliques()[d])
                && g.is_biclique(self.cliques()[d]) by {
                assert(g.bounds(pre.cliques()[d]) && g.is_biclique(pre.cliques()[d]));
            }
            assert forall|o: Edge| g.in_range(o) implies (#[trigger] self.covered(g, o)
                <==> in_some(self.cliques(), o)) by {
                assert(pre.covered(g, o) <==> in_some(pre.cliques(), o));
                if in_some(pre.cliques(), o) {
                    let d = choose|d: int| 0 <= d < k && (#[trigger] pre.cliques()[d]).contains(o);
                    assert(self.cliques()[d].contains(o));
                }
                if o.0 == x && side.right.contains(o.1) {
                    assert(self.cliques()[c as int].contains(o));
                }
                if in_some(self.cliques(), o) {
                    let d = choose|d: int| 0 <= d < k && (#[trigger] self.cliques()[d]).contains(o);
                    if d != c || side.left.contains(o.0) {
                        assert(pre.cliques()[d].contains(o));
                    }
                }
            }
            assert forall|o: Edge, d: int| g.in_range(o) && 0 <= d < k implies #[trigger] self.may(
                g,
                o,
                d,
            ) == (pre.may(g, o, d) && g.spec_may_add(self.cliques()[d], o) && !self.cliques()[d].contains(
                o,
            )) by {
                if pre.may(g, o, d) {
                    assert(g.has_edge(o) && !pre.cliques()[d].contains(o) && g.spec_may_add(
                        pre.cliques()[d],
                        o,
                    ));
                    if d == c {
                        if g.column_fits(grown, o.1) {
                            assert(grown.left.contains(x));
                        }
                    }
                }
            }
            assert forall|d: usize| #[trigger] self.changed().contains(d) implies d < self.k() by {
                if d != c {
                    assert(pre.changed().contains(d));
                }
            }
        }
    }

    /// Adds right vertex `y` to biclique `c`.
    ///
    /// The edges from the left side of the biclique to `y` become covered.
    /// Every edge at a left vertex that `y` is not joined to can no longer
    /// join the biclique.
    pub fn add_right(&mut self, g: &Bigraph, c: usize, y: u32)
        requires
            old(self).wf(g),
            c < old(self).k(),
            y < g.spec_right(),
            g.column_fits(old(self).cliques()[c as int], y),
        ensures
            final(self).wf(g),
            final(self).cliques() == old(self).cliques().update(
                c as int,
                old(self).cliques()[c as int].with_right(y),
            ),
            final(self).grown_from(old(self), g),
            final(self).changed() == old(self).changed().insert(c),
    {
        let ghost pre = *self;
        let ghost k = self.k();
        let ghost side = self.cliques()[c as int];
        let xs = set32_items(&self.bicliques[c].left);
        let mut n: usize = 0;
        while n < xs.len()
            invariant
                pre.wf(g),
                k == pre.k(),
                c < k,
                y < g.spec_right(),
                n <= xs@.len(),
                forall|i: int| 0 <= i < xs@.len() ==> side.left.contains(#[trigger] xs@[i]),
                side == pre.cliques()[c as int],
                self.bicliques == pre.bicliques,
                self.changed == pre.changed,
                forall|o: Edge|
                    g.in_range(o) ==> #[trigger] self.covered(g, o) == (pre.covered(g, o) || (o.1
                        == y && among(xs@, n as int, o.0))),
                forall|o: Edge, d: int|
                    g.in_range(o) && 0 <= d < k ==> #[trigger] self.may(g, o, d) == (pre.may(
                        g,
                        o,
                        d,
                    ) && !(d == c && o.1 == y && among(xs@, n as int, o.0))),
            decreases xs@.len() - n,
        {
            let e = Edge(xs[n], y);
            self.mark_covered(g, e);
            self.clear_may(g, c, e);
            proof {
                assert forall|x: u32| among(xs@, n + 1, x) == (among(xs@, n as int, x) || x
                    == xs@[n as int]) by {
                    lemma_among_step(xs@, n as int, x);
                }
            }
            n = n + 1;
        }
        proof {
            assert forall|x: u32| among(xs@, xs@.len() as int, x) == side.left.contains(x) by {
                if side.left.contains(x) {
                    let i = choose|i: int| 0 <= i < xs@.len() && xs@[i] == x;
                    assert(xs@[i] == x);
                }
            }
        }
        let ghost mid = *self;
        let mut x: u32 = 0;
        while x < g.left()
            invariant
                pre.wf(g),
                k == pre.k(),
                c < k,
                y < g.spec_right(),
                x <= g.spec_left(),
                side == pre.cliques()[c as int],
                self.bicliques == pre.bicliques,
                self.changed == pre.changed,
                forall|o: Edge|
                    g.in_range(o) ==> #[trigger] self.covered(g, o) == mid.covered(g, o),
                forall|o: Edge, d: int|
                    g.in_range(o) && 0 <= d < k ==> #[trigger] self.may(g, o, d) == (mid.may(
                        g,
                        o,
                        d,
                    ) && !(d == c && o.0 < x && !g.has_edge(Edge(o.0, y)) && g.row_fits(
                        side,
                        o.0,
                    ) && g.has_edge(o))),
            decreases g.spec_left() - x,
        {
            if !g.get(Edge(x, y)) && g.row_of(&self.bicliques[c], x) {
                let ghost top = *self;
                let mut y2: u32 = 0;
                while y2 < g.right()
                    invariant
                        pre.wf(g),
                        k == pre.k(),
                        c < k,
                        x < g.spec_left(),
                        y2 <= g.spec_right(),
                        self.bicliques == pre.bicliques,
                        self.changed == pre.changed,
                        forall|o: Edge|
                            g.in_range(o) ==> #[trigger] self.covered(g, o) == top.covered(g, o),
                        forall|o: Edge, d: int|
                            g.in_range(o) && 0 <= d < k ==> #[trigger] self.may(g, o, d) == (
                            top.may(g, o, d) && !(d == c && o.0 == x && o.1 < y2 && g.has_edge(
                                o,
                            ))),
                    decreases g.spec_right() - y2,
                {
                    if g.get(Edge(x, y2)) {
                        self.clear_may(g, c, Edge(x, y2));
                    }
                    y2 = y2 + 1;
                }
            }
            x = x + 1;
        }
        let ghost last = *self;
        set32_add(&mut self.bicliques[c].right, y);
        set_add(&mut self.changed, c);
        proof {
            let grown = side.with_right(y);
            assert(self.cliques() =~= pre.cliques().update(c as int, grown));
            assert(self.k() == k);
            assert forall|o: Edge| g.in_range(o) implies #[trigger] self.covered(g, o)
                == last.covered(g, o) by {}
            assert forall|o: Edge, d: int| g.in_range(o) && 0 <= d < k implies #[trigger] self.may(
                g,
                o,
                d,
            ) == last.may(g, o, d) by {}
            assert forall|d: int| 0 <= d < k implies g.bounds(#[trigger] self.cliques()[d])
                && g.is_biclique(self.cliques()[d]) by {
                assert(g.bounds(pre.cliques()[d]) && g.is_biclique(pre.cliques()[d]));
            }
            assert forall|o: Edge| g.in_range(o) implies (#[trigger] self.covered(g, o)
                <==> in_some(self.cliques(), o)) by {
                assert(pre.covered(g, o) <==> in_some(pre.cliques(), o));
                if in_some(pre.cliques(), o) {
                    let d = choose|d: int| 0 <= d < k && (#[trigger] pre.cliques()[d]).contains(o);
                    assert(self.cliques()[d].contains(o));
                }
                if o.1 == y && side.left.contains(o.0) {
                    assert(self.cliques()[c as int].contains(o));
                }
                if in_some(self.cliques(), o) {
                    let d = choose|d: int| 0 <= d < k && (#[trigger] self.cliques()[d]).contains(o);
                    if d != c || side.right.contains(o.1) {
                        assert(pre.cliques()[d].contains(o));
                    }
                }
            }
            assert forall|o: Edge, d: int| g.in_range(o) && 0 <= d < k implies #[trigger] self.may(
                g,
                o,
                d,
            ) == (pre.may(g, o, d) && g.spec_may_add(self.cliques()[d], o) && !self.cliques()[d].contains(
                o,
            )) by {
                if pre.may(g, o, d) {
                    assert(g.has_edge(o) && !pre.cliques()[d].contains(o) && g.spec_may_add(
                        pre.cliques()[d],
                        o,
                    ));
                    if d == c {
                        if g.row_fits(grown, o.0) {
                            assert(grown.right.contains(y));
                        }
                    }
                }
            }
            assert forall|d: usize| #[trigger] self.changed().contains(d) implies d < self.k() by {
                if d != c {
                    assert(pre.changed().contains(d));
                }
            }
        }
    }

    /// Puts edge `e` into biclique `c`: whichever of its two ends the
    /// biclique lacks is added.
    pub fn add_edge(&mut self, g: &Bigraph, c: usize, e: Edge)
        requires
            old(self).wf(g),
            c < old(self).k(),
            g.has_edge(e),
            g.spec_may_add(old(self).cliques()[c as int], e),
        ensures
            final(self).wf(g),
            final(self).cliques() == old(self).cliques().update(
                c as int,
                old(self).cliques()[c as int].with_edge(e),
            ),
            final(self).grown_from(old(self), g),
            final(self).changed() == if old(self).cliques()[c as int].contains(e) {
                old(self).changed()
            } else {
                old(self).changed().insert(c)
            },
    {
        let ghost pre = *self;
        let ghost side = self.cliques()[c as int];
        proof {
            g.lemma_edge_in_range(e);
            assert(side == self.bicliques@[c as int]@);
        }
        if !set32_get(&self.bicliques[c].left, e.0) {
            self.add_left(g, c, e.0);
        }
        let ghost mid = *self;
        proof {
            assert(mid.cliques()[c as int].left =~= side.left.insert(e.0));
            assert(mid.cliques()[c as int].right == side.right);
            assert(mid.cliques() =~= pre.cliques().update(c as int, side.with_left(e.0)));
            assert(mid.grown_from(&pre, g));
        }
        if !set32_get(&self.bicliques[c].right, e.1) {
            self.add_right(g, c, e.1);
        }
        proof {
            assert(self.cliques()[c as int].right =~= side.right.insert(e.1));
            assert(self.cliques() =~= pre.cliques().update(c as int, side.with_edge(e)));
            assert(self.grown_from(&mid, g));
            lemma_grown_twice(&pre, &mid, self, g);
        }
    }

    /// Whether the members of this layer hold every edge.
    pub fn covers(&self, g: &Bigraph) -> (r: bool)
        requires
            self.wf(g),
        ensures
            r == g.is_cover(self.cliques()),
    {
        let entries = g.entries();
        let mut n: usize = 0;
        while n < entries.len()
            invariant
                self.wf(g),
                n <= entries@.len(),
                forall|i: int| 0 <= i < entries@.len() ==> g.has_edge(#[trigger] entries@[i]),
                forall|i: int| 0 <= i < n ==> self.covered(g, #[trigger] entries@[i]),
            decreases entries@.len() - n,
        {
            let e = entries[n];
            proof {
                g.lemma_edge_in_range(e);
            }
            let index = Layer::index(g, self.bicliques.len(), e);
            if !set_get(&self.data, index.in_biclique()) {
                proof {
                    assert(!self.covered(g, e));
                    assert(!in_some(self.cliques(), e));
                    if g.is_cover(self.cliques()) {
                        let i = choose|i: int|
                            0 <= i < self.cliques().len() && (#[trigger] self.cliques()[i]).contains(
                                e,
                            );
                        assert(in_some(self.cliques(), e));
                    }
                }
                return false;
            }
            n = n + 1;
        }
        proof {
            assert forall|e: Edge| g.has_edge(e) implies exists|i: int|
                0 <= i < self.cliques().len() && (#[trigger] self.cliques()[i]).contains(e) by {
                g.lemma_edge_in_range(e);
                let i = choose|i: int| 0 <= i < entries@.len() && entries@[i] == e;
                assert(self.covered(g, entries@[i]));
                assert(in_some(self.cliques(), e));
            }
        }
        true
    }

    /// Sets the flag that says that `e` may join biclique `c`.
    pub(crate) fn mark_open(&mut self, g: &Bigraph, c: usize, e: Edge)
        requires
            g.wf(),
            fits(g, old(self).k()),
            g.in_range(e),
            c < old(self).k(),
        ensures
            final(self).bicliques == old(self).bicliques,
            final(self).changed == old(self).changed,
            forall|o: Edge|
                g.in_range(o) ==> #[trigger] final(self).covered(g, o) == old(self).covered(g, o),
            forall|o: Edge, d: int|
                g.in_range(o) && 0 <= d < old(self).k() ==> #[trigger] final(self).may(g, o, d)
                    == (old(self).may(g, o, d) || (o == e && d == c)),
    {
        let index = Layer::index(g, self.bicliques.len(), e);
        set_add(&mut self.data, index.may_add(c));
        proof {
            let k = self.k();
            let place = slot(g, k, e, c + 1);
            lemma_slot(g, k, e, c + 1);
            assert forall|o: Edge| g.in_range(o) implies #[trigger] self.covered(g, o)
                == old(self).covered(g, o) by {
                lemma_slot(g, k, o, 0);
                if slot(g, k, o, 0) == place {
                    lemma_slot_injective(g, k, o, 0, e, c + 1);
                }
            }
            assert forall|o: Edge, d: int| g.in_range(o) && 0 <= d < k implies #[trigger] self.may(
                g,
                o,
                d,
            ) == (old(self).may(g, o, d) || (o == e && d == c)) by {
                lemma_slot(g, k, o, d + 1);
                if slot(g, k, o, d + 1) == place {
                    lemma_slot_injective(g, k, o, d + 1, e, c + 1);
                }
            }
        }
    }

    /// The layer from which the search for covers of size `k` starts.
    ///
    /// Each of the first `k` edges of `forced` makes a biclique of its own;
    /// the other bicliques are empty. Every edge is flagged as covered if a
    /// biclique contains it, and as open for every other biclique that can
    /// take it in. Every biclique counts as changed.
    pub fn initial(g: &Bigraph, k: usize, forced: &[Edge]) -> (layer: Layer)
        requires
            g.wf(),
            fits(g, k as nat),
            forall|i: int| 0 <= i < forced@.len() ==> g.has_edge(#[trigger] forced@[i]),
        ensures
            layer.wf(g),
            layer.cliques() == seeds(forced@, k as nat),
            layer.changed() == Set::new(|c: usize| c < k),
            forall|e: Edge, c: int|
                g.in_range(e) && 0 <= c < k ==> #[trigger] layer.may(g, e, c) == (g.has_edge(e)
                    && !layer.cliques()[c].contains(e) && g.spec_may_add(layer.cliques()[c], e)),
    {
        let mut bicliques: Vec<Biclique> = Vec::new();
        let mut changed = set_new();
        let mut i: usize = 0;
        while i < k
            invariant
                i <= k,
                bicliques@.len() == i,
                forall|c: int| 0 <= c < i ==> (#[trigger] bicliques@[c])@ == seed(forced@, c),
                members(changed) == Set::new(|c: usize| c < i),
            decreases k - i,
        {
            let mut clique = Biclique::empty();
            if i < forced.len() {
                let e = forced[i];
                set32_add(&mut clique.left, e.0);
                set32_add(&mut clique.right, e.1);
                proof {
                    assert(clique@.left =~= Set::<u32>::empty().insert(e.0));
                    assert(clique@.right =~= Set::<u32>::empty().insert(e.1));
                }
            }
            bicliques.push(clique);
            set_add(&mut changed, i);
            proof {
                assert(members(changed) =~= Set::new(|c: usize| c < i + 1));
            }
            i = i + 1;
        }
        let mut layer = Layer { bicliques, data: set_new(), changed };
        proof {
            assert(layer.cliques() =~= seeds(forced@, k as nat));
            assert forall|c: int| 0 <= c < k implies g.bounds(#[trigger] layer.cliques()[c])
                && g.is_biclique(layer.cliques()[c]) by {
                if c < forced@.len() {
                    g.lemma_edge_in_range(forced@[c]);
                }
            }
        }
        let entries = g.entries();
        let mut n: usize = 0;
        while n < entries.len()
            invariant
                g.wf(),
                fits(g, k as nat),
                n <= entries@.len(),
                layer.k() == k,
                layer.cliques() == seeds(forced@, k as nat),
                layer.changed() == Set::new(|c: usize| c < k),
                forall|c: int|
                    0 <= c < k ==> g.bounds(#[trigger] layer.cliques()[c]) && g.is_biclique(
                        layer.cliques()[c],
                    ),
                forall|i: int| 0 <= i < entries@.len() ==> g.has_edge(#[trigger] entries@[i]),
                forall|o: Edge|
                    g.in_range(o) ==> #[trigger] layer.covered(g, o) == (among(
                        entries@,
                        n as int,
                        o,
                    ) && in_some(layer.cliques(), o)),
                forall|o: Edge, d: int|
                    g.in_range(o) && 0 <= d < k ==> #[trigger] layer.may(g, o, d) == (among(
                        entries@,
                        n as int,
                        o,
                    ) && !layer.cliques()[d].contains(o) && g.spec_may_add(layer.cliques()[d], o)),
            decreases entries@.len() - n,
        {
            let e = entries[n];
            proof {
                g.lemma_edge_in_range(e);
                assert forall|o: Edge| among(entries@, n + 1, o) == (among(entries@, n as int, o)
                    || o == e) by {
                    lemma_among_step(entries@, n as int, o);
                }
            }
            let ghost top = layer;
            let mut c: usize = 0;
            while c < k
                invariant
                    g.wf(),
                    fits(g, k as nat),
                    g.in_range(e),
                    c <= k,
                    layer.k() == k,
                    layer.bicliques == top.bicliques,
                    layer.changed == top.changed,
                    forall|d: int| 0 <= d < k ==> g.bounds(#[trigger] layer.cliques()[d]),
                    forall|o: Edge|
                        g.in_range(o) ==> #[trigger] layer.covered(g, o) == (top.covered(g, o) || (o
                            == e && in_some(layer.cliques().take(c as int), o))),
                    forall|o: Edge, d: int|
                        g.in_range(o) && 0 <= d < k ==> #[trigger] layer.may(g, o, d) == (top.may(
                            g,
                            o,
                            d,
                        ) || (o == e && d < c && !layer.cliques()[d].contains(o) && g.spec_may_add(
                            layer.cliques()[d],
                            o,
                        ))),
                decreases k - c,
            {
                proof {
                    assert(layer.cliques()[c as int] == layer.bicliques@[c as int]@);
                    lemma_in_some_step(layer.cliques(), c as int, e);
                }
                if layer.bicliques[c].contains(e) {
                    layer.mark_covered(g, e);
                } else if g.may_add(&layer.bicliques[c], e) {
                    layer.mark_open(g, c, e);
                }
                c = c + 1;
            }
            proof {
                assert(layer.cliques().take(k as int) =~= layer.cliques());
            }
            n = n + 1;
        }
        proof {
            assert forall|o: Edge| among(entries@, entries@.len() as int, o) == g.has_edge(o) by {
                if g.has_edge(o) {
                    let i = choose|i: int| 0 <= i < entries@.len() && entries@[i] == o;
                    assert(entries@[i] == o);
                }
            }
            assert forall|o: Edge| g.in_range(o) implies (#[trigger] layer.covered(g, o)
                <==> in_some(layer.cliques(), o)) by {
                if in_some(layer.cliques(), o) {
                    let d = choose|d: int|
                        0 <= d < layer.cliques().len() && (#[trigger] layer.cliques()[d]).contains(
                            o,
                        );
                    assert(g.is_biclique(layer.cliques()[d]));
                }
            }
        }
        layer
    }

    /// The first biclique that `e` may join, and whether it may join another.
    pub(crate) fn choices(&self, g: &Bigraph, e: Edge) -> (r: (Option<usize>, bool))
        requires
            g.wf(),
            fits(g, self.k()),
            g.in_range(e),
        ensures
            match r.0 {
                Some(c) => c < self.k() && self.may(g, e, c as int) && (forall|d: int|
                    0 <= d < c ==> !self.may(g, e, d)) && (r.1 <==> exists|d: int|
                    c < d < self.k() && self.may(g, e, d)),
                None => !r.1 && forall|d: int| 0 <= d < self.k() ==> !self.may(g, e, d),
            },
    {
        let k = self.bicliques.len();
        let index = Layer::index(g, k, e);
        let mut edge: Option<usize> = None;
        let mut i: usize = 0;
        while i < k
            invariant
                g.wf(),
                fits(g, self.k()),
                g.in_range(e),
                k == self.k(),
                i <= k,
                index.0 == slot(g, k as nat, e, 0),
                index.0 + k <= usize::MAX,
                match edge {
                    Some(c) => c < i && self.may(g, e, c as int) && (forall|d: int|
                        0 <= d < i && d != c ==> !self.may(g, e, d)),
                    None => forall|d: int| 0 <= d < i ==> !self.may(g, e, d),
                },
            decreases k - i,
        {
            if set_get(&self.data, index.may_add(i)) {
                match edge {
                    None => {
                        edge = Some(i);
                    },
                    Some(_) => {
                        proof {
                            assert(self.may(g, e, i as int));
                        }
                        return (edge, true);
                    },
                }
            }
            i = i + 1;
        }
        (edge, false)
    }

    /// Whether no edge is left without a biclique that it could join.
    pub open(crate) spec fn settled(&self, g: &Bigraph) -> bool {
        forall|e: Edge|
            g.has_edge(e) && !self.covered(g, e) ==> exists|c: int, d: int|
                0 <= c < d < self.k() && #[trigger] self.may(g, e, c) && #[trigger] self.may(
                    g,
                    e,
                    d,
                )
    }

    /// Whether `e` is an edge outside every biclique that no biclique can
    /// take in any more.
    pub open(crate) spec fn stuck(&self, g: &Bigraph, e: Edge) -> bool {
        g.has_edge(e) && !self.covered(g, e) && forall|c: int|
            0 <= c < self.k() ==> !self.may(g, e, c)
    }

    /// Whether the cover `t` can still be had from this layer: each of its
    /// bicliques holds the biclique of the layer at its place, and every
    /// edge of one of its bicliques lies in that biclique of the layer or
    /// may still join it.
    pub open(crate) spec fn leads_to(&self, g: &Bigraph, t: Seq<Sides>) -> bool {
        &&& t.len() == self.k()
        &&& g.is_cover(t)
        &&& forall|c: int|
            0 <= c < self.k() ==> (#[trigger] t[c]).contains_clique(self.cliques()[c])
        &&& forall|e: Edge, c: int|
            #![trigger t[c].contains(e)]
            0 <= c < self.k() && g.has_edge(e) && t[c].contains(e) && !self.cliques()[c].contains(e)
                ==> self.may(g, e, c)
    }

    /// No edge is stuck in a layer from which a cover can still be had.
    pub proof fn lemma_leads_not_stuck(&self, g: &Bigraph, e: Edge, t: Seq<Sides>)
        requires
            self.wf(g),
            self.leads_to(g, t),
            g.has_edge(e),
            !self.covered(g, e),
        ensures
            exists|c: int| 0 <= c < self.k() && t[c].contains(e) && self.may(g, e, c),
    {
        g.lemma_edge_in_range(e);
        let c = choose|c: int| 0 <= c < t.len() && (#[trigger] t[c]).contains(e);
        if self.cliques()[c].contains(e) {
            assert(in_some(self.cliques(), e));
        }
        assert(t[c].contains(e) && self.may(g, e, c));
    }

    /// A cover that can be had from a layer can still be had after the
    /// bicliques have grown, if its bicliques hold the grown ones.
    pub proof fn lemma_leads_grown(&self, before: &Layer, g: &Bigraph, t: Seq<Sides>)
        requires
            before.wf(g),
            self.wf(g),
            before.leads_to(g, t),
            self.grown_from(before, g),
            forall|d: int| 0 <= d < self.k() ==> (#[trigger] t[d]).contains_clique(self.cliques()[d]),
        ensures
            self.leads_to(g, t),
    {
        assert forall|o: Edge, d: int|
            #![trigger t[d].contains(o)]
            0 <= d < self.k() && g.has_edge(o) && t[d].contains(o) && !self.cliques()[d].contains(
                o,
            ) implies self.may(g, o, d) by {
            g.lemma_edge_in_range(o);
            assert(t[d].contains_clique(self.cliques()[d]));
            assert(g.bounds(t[d]) && g.is_biclique(t[d]));
            assert(self.cliques()[d].contains_clique(before.cliques()[d]));
            assert(!before.cliques()[d].contains(o));
            assert(before.may(g, o, d));
            assert(g.spec_may_add(self.cliques()[d], o)) by {
                assert forall|x: u32| self.cliques()[d].left.contains(x) implies g.has_edge(
                    Edge(x, o.1),
                ) by {
                    assert(t[d].left.contains(x) && t[d].right.contains(o.1));
                }
                assert forall|y: u32| self.cliques()[d].right.contains(y) implies g.has_edge(
                    Edge(o.0, y),
                ) by {
                    assert(t[d].left.contains(o.0) && t[d].right.contains(y));
                }
            }
        }
    }

    /// A cover that can be had from a layer can still be had after an edge
    /// has been put where it had to go.
    pub proof fn lemma_leads_on(&self, before: &Layer, g: &Bigraph, e: Edge, c: int, t: Seq<Sides>)
        requires
            before.wf(g),
            self.wf(g),
            before.leads_to(g, t),
            g.has_edge(e),
            !before.covered(g, e),
            0 <= c < before.k(),
            forall|d: int| 0 <= d < before.k() && d != c ==> !before.may(g, e, d),
            self.cliques() == before.cliques().update(c, before.cliques()[c].with_edge(e)),
            self.grown_from(before, g),
        ensures
            self.leads_to(g, t),
    {
        before.lemma_leads_not_stuck(g, e, t);
        let at = choose|d: int| 0 <= d < before.k() && t[d].contains(e) && before.may(g, e, d);
        assert(at == c);
        assert forall|d: int| 0 <= d < self.k() implies (#[trigger] t[d]).contains_clique(
            self.cliques()[d],
        ) by {
            assert(t[d].contains_clique(before.cliques()[d]));
        }
        self.lemma_leads_grown(before, g, t);
    }

    /// A cover that can be had from a layer can still be had from one of
    /// the two layers that a choice splits it into: from the one with the
    /// edge in the biclique if the cover has it there, from the other if
    /// not.
    pub proof fn lemma_leads_split(
        &self,
        before: &Layer,
        child: &Layer,
        g: &Bigraph,
        e: Edge,
        c: int,
        t: Seq<Sides>,
    )
        requires
            before.wf(g),
            self.wf(g),
            self.cliques() == before.cliques(),
            self.branched(before, child, g, e, c),
            before.leads_to(g, t),
        ensures
            t[c].contains(e) ==> child.leads_to(g, t),
            !t[c].contains(e) ==> self.leads_to(g, t),
    {
        assert(self.cliques().len() == self.k());
        assert(before.cliques().len() == before.k());
        assert(t[c].contains_clique(before.cliques()[c]));
        if t[c].contains(e) {
            assert forall|d: int| 0 <= d < child.k() implies (#[trigger] t[d]).contains_clique(
                child.cliques()[d],
            ) by {
                assert(t[d].contains_clique(before.cliques()[d]));
            }
            child.lemma_leads_grown(before, g, t);
        } else {
            assert forall|o: Edge, d: int|
                #![trigger t[d].contains(o)]
                0 <= d < self.k() && g.has_edge(o) && t[d].contains(o) && !self.cliques()[d].contains(
                    o,
                ) implies self.may(g, o, d) by {
                g.lemma_edge_in_range(o);
                assert(before.may(g, o, d));
                if d == c {
                    assert(!rejected(before.cliques()[c], e, o));
                }
            }
        }
    }

    /// Whether `e` is an edge outside every biclique. An edge that is stuck
    /// is such an edge.
    pub open(crate) spec fn sticks(&self, g: &Bigraph, e: Edge) -> bool {
        g.has_edge(e) && !self.covered(g, e)
    }

    /// In a layer that covers the graph no edge is outside every biclique.
    pub proof fn lemma_cover_moves(&self, g: &Bigraph)
        requires
            self.wf(g),
            g.is_cover(self.cliques()),
        ensures
            forall|e: Edge| !self.sticks(g, e),
    {
        assert forall|e: Edge| !self.sticks(g, e) by {
            if g.has_edge(e) {
                g.lemma_edge_in_range(e);
                let i = choose|i: int|
                    0 <= i < self.cliques().len() && (#[trigger] self.cliques()[i]).contains(e);
                assert(in_some(self.cliques(), e));
            }
        }
    }

    /// A layer of at most one biclique in which no edge waits for a choice
    /// covers the graph.
    pub proof fn lemma_single_settled(&self, g: &Bigraph)
        requires
            self.wf(g),
            self.k() <= 1,
            self.settled(g),
        ensures
            g.is_cover(self.cliques()),
    {
        assert(self.cliques().len() == self.k());
        assert forall|e: Edge| g.has_edge(e) implies exists|i: int|
            0 <= i < self.cliques().len() && (#[trigger] self.cliques()[i]).contains(e) by {
            g.lemma_edge_in_range(e);
            if !self.covered(g, e) {
                let (c, d) = choose|c: int, d: int|
                    0 <= c < d < self.k() && #[trigger] self.may(g, e, c) && #[trigger] self.may(
                        g,
                        e,
                        d,
                    );
            }
            assert(in_some(self.cliques(), e));
        }
    }

    /// Whether `self` is `before` after an edge outside every biclique,
    /// which only one biclique could take in, has been put into that
    /// biclique.
    pub open(crate) spec fn forced_from(&self, before: &Layer, g: &Bigraph) -> bool {
        exists|e: Edge, c: int|
            #![trigger before.may(g, e, c)]
            {
                &&& g.has_edge(e)
                &&& !before.covered(g, e)
                &&& 0 <= c < before.k()
                &&& before.may(g, e, c)
                &&& forall|d: int| 0 <= d < before.k() && d != c ==> !before.may(g, e, d)
                &&& self.cliques() == before.cliques().update(c, before.cliques()[c].with_edge(e))
                &&& self.grown_from(before, g)
                &&& self.changed() == before.changed().insert(c as usize)
            }
    }

    /// Whether each layer of `run` but the first is the layer before it
    /// after one edge has been put where it had to go.
    pub open(crate) spec fn forced_run(run: Seq<Layer>, g: &Bigraph) -> bool {
        forall|i: int| 0 < i < run.len() ==> (#[trigger] run[i]).forced_from(&run[i - 1], g)
    }

    /// Puts every edge that only one biclique can still take in into that
    /// biclique, until no such edge is left.
    ///
    /// Fails when it meets an edge outside every biclique that no biclique
    /// can take in. On success every edge outside the bicliques has at least
    /// two bicliques to choose from. Nothing is put anywhere but edges
    /// where they had to go, one after the other.
    pub fn forced_updates(&mut self, g: &Bigraph) -> (r: Result<(), ()>)
        requires
            old(self).wf(g),
        ensures
            final(self).wf(g),
            final(self).grown_from(old(self), g),
            old(self).changed().subset_of(final(self).changed()),
            r.is_ok() ==> final(self).settled(g),
            r.is_err() ==> exists|e: Edge| final(self).stuck(g, e),
            exists|run: Seq<Layer>|
                #![trigger Layer::forced_run(run, g)]
                run.len() > 0 && run[0] == *old(self) && run.last() == *final(self)
                    && Layer::forced_run(run, g),
            forall|t: Seq<Sides>| #[trigger]
                old(self).leads_to(g, t) ==> r.is_ok() && final(self).leads_to(g, t),
    {
        let ghost pre = *self;
        let ghost mut run: Seq<Layer> = seq![pre];
        proof {
            lemma_grown_same(&pre, g);
        }
        let mut changed = true;
        while changed
            invariant
                pre == *old(self),
                pre.wf(g),
                self.wf(g),
                self.grown_from(&pre, g),
                pre.changed().subset_of(self.changed()),
                !changed ==> self.settled(g),
                run.len() > 0,
                run[0] == pre,
                run.last() == *self,
                Layer::forced_run(run, g),
                forall|t: Seq<Sides>| #[trigger] pre.leads_to(g, t) ==> self.leads_to(g, t),
            decreases self.open_count(g) + (if changed { 1int } else { 0int }),
        {
            changed = false;
            let ghost start = *self;
            let entries = g.entries();
            let mut n: usize = 0;
            while n < entries.len()
                invariant
                    pre == *old(self),
                    pre.wf(g),
                    start.wf(g),
                    self.wf(g),
                    self.grown_from(&pre, g),
                    self.grown_from(&start, g),
                    pre.changed().subset_of(self.changed()),
                    run.len() > 0,
                    run[0] == pre,
                    run.last() == *self,
                    Layer::forced_run(run, g),
                    forall|t: Seq<Sides>| #[trigger] pre.leads_to(g, t) ==> self.leads_to(g, t),
                    n <= entries@.len(),
                    forall|i: int| 0 <= i < entries@.len() ==> g.has_edge(#[trigger] entries@[i]),
                    forall|e: Edge| g.has_edge(e) ==> entries@.contains(e),
                    changed ==> self.open_count(g) < start.open_count(g),
                    !changed ==> *self == start,
                    !changed ==> forall|i: int|
                        0 <= i < n && !self.covered(g, #[trigger] entries@[i]) ==> exists|
                            c: int,
                            d: int,
                        |
                            0 <= c < d < self.k() && #[trigger] self.may(g, entries@[i], c)
                                && #[trigger] self.may(g, entries@[i], d),
                decreases entries@.len() - n,
            {
                let e = entries[n];
                proof {
                    g.lemma_edge_in_range(e);
                }
                let index = Layer::index(g, self.bicliques.len(), e);
                if !set_get(&self.data, index.in_biclique()) {
                    let (edge, more) = self.choices(g, e);
                    if !more {
                        match edge {
                            Some(c) => {
                                let ghost before = *self;
                                changed = true;
                                self.add_edge(g, c, e);
                                proof {
                                    lemma_grown_twice(&pre, &before, self, g);
                                    lemma_grown_twice(&start, &before, self, g);
                                    assert(self.cliques()[c as int].contains(e));
                                    self.lemma_open_count_lt(&before, g, e, c as int);
                                    before.lemma_open_count_le(&start, g);
                                    assert(!before.covered(g, e));
                                    assert(!in_some(before.cliques(), e));
                                    assert(!before.cliques()[c as int].contains(e));
                                    assert(before.may(g, e, c as int));
                                    assert(self.forced_from(&before, g));
                                    assert forall|t: Seq<Sides>| #[trigger]
                                        pre.leads_to(g, t) implies self.leads_to(g, t) by {
                                        assert(before.leads_to(g, t));
                                        self.lemma_leads_on(&before, g, e, c as int, t);
                                    }
                                    let longer = run.push(*self);
                                    assert forall|i: int| 0 < i < longer.len() implies (
                                    #[trigger] longer[i]).forced_from(&longer[i - 1], g) by {
                                        if i < run.len() {
                                            assert(run[i].forced_from(&run[i - 1], g));
                                        }
                                    }
                                    run = longer;
                                }
                            },
                            None => {
                                proof {
                                    assert(!self.covered(g, e));
                                    assert(self.stuck(g, e));
                                    assert forall|t: Seq<Sides>| #[trigger]
                                        pre.leads_to(g, t) implies false by {
                                        self.lemma_leads_not_stuck(g, e, t);
                                    }
                                }
                                return Err(());
                            },
                        }
                    } else {
                        proof {
                            let c = edge.unwrap() as int;
                            let d = choose|d: int| c < d < self.k() && self.may(g, e, d);
                            assert(self.may(g, e, c) && self.may(g, e, d));
                        }
                    }
                }
                n = n + 1;
            }
            proof {
                if !changed {
                    assert forall|e: Edge| g.has_edge(e) && !self.covered(g, e) implies exists|
                        c: int,
                        d: int,
                    |
                        0 <= c < d < self.k() && #[trigger] self.may(g, e, c) && #[trigger] self.may(
                            g,
                            e,
                            d,
                        ) by {
                        let i = choose|i: int| 0 <= i < entries@.len() && entries@[i] == e;
                        assert(!self.covered(g, entries@[i]));
                    }
                }
            }
        }
        Ok(())
    }

    /// The number of bicliques among the first `n` that `e` may still join.
    pub open(crate) spec fn choice_count(&self, g: &Bigraph, e: Edge, n: int) -> nat
        decreases n,
    {
        if n <= 0 {
            0
        } else {
            self.choice_count(g, e, n - 1) + (if self.may(g, e, n - 1) {
                1nat
            } else {
                0nat
            })
        }
    }

    /// Whether putting `e` into biclique `c` leads nowhere: the biclique
    /// would repeat another one, or the layer could not record that the
    /// choice has been tried.
    pub open(crate) spec fn dead_end(&self, g: &Bigraph, e: Edge, c: int) -> bool {
        repeated(self.cliques().update(c, self.cliques()[c].with_edge(e)), c) || !clean(
            self.cliques()[c],
            e,
        )
    }

    /// Whether no choice is left to branch on: every open flag of an edge
    /// that not all bicliques can take leads nowhere. A layer of fewer than
    /// three bicliques never branches.
    pub open(crate) spec fn exhausted(&self, g: &Bigraph) -> bool {
        self.k() < 3 || forall|e: Edge, c: int|
            g.has_edge(e) && 0 <= c < self.k() && #[trigger] self.may(g, e, c) && self.choice_count(
                g,
                e,
                self.k() as int,
            ) < self.k() ==> self.dead_end(g, e, c)
    }

    /// The pass of the search for a choice in which `e` is first looked at,
    /// where the first pass is for the edges with at most `least` bicliques
    /// to choose from: the number of bicliques that `e` may still join, and
    /// `least` where that is less.
    pub open(crate) spec fn pass(&self, g: &Bigraph, e: Edge, least: nat) -> nat {
        let n = self.choice_count(g, e, self.k() as int);
        if n < least {
            least
        } else {
            n
        }
    }

    /// Whether the search for a choice looks at the choice to put `o` into
    /// biclique `d` before it looks at the choice to put `e` into biclique
    /// `c`: edges of an earlier pass go first, then edges with a smaller
    /// index, then bicliques with a smaller place.
    pub open(crate) spec fn tried_before(
        &self,
        g: &Bigraph,
        o: Edge,
        d: int,
        e: Edge,
        c: int,
        least: nat,
    ) -> bool {
        ||| self.pass(g, o, least) < self.pass(g, e, least)
        ||| (self.pass(g, o, least) == self.pass(g, e, least) && g.spec_edge_index(o)
            < g.spec_edge_index(e))
        ||| (o == e && d < c)
    }

    /// Whether the choice to put `e` into biclique `c` is the first that
    /// leads somewhere: every choice that the search looks at before it
    /// leads nowhere.
    pub open(crate) spec fn first_choice(&self, g: &Bigraph, e: Edge, c: int, least: nat) -> bool {
        &&& 3 <= self.k()
        &&& self.choice_count(g, e, self.k() as int) < self.k()
        &&& forall|o: Edge, d: int|
            g.has_edge(o) && 0 <= d < self.k() && #[trigger] self.may(g, o, d) && self.tried_before(
                g,
                o,
                d,
                e,
                c,
                least,
            ) ==> self.dead_end(g, o, d)
    }

    /// Whether the layer cannot be split: it has fewer than three
    /// bicliques, or no edge may join any biclique.
    pub open(crate) spec fn fixed(&self, g: &Bigraph) -> bool {
        self.k() < 3 || forall|e: Edge, c: int|
            g.has_edge(e) && 0 <= c < self.k() ==> !#[trigger] self.may(g, e, c)
    }

    /// A layer that has grown from one that cannot be split cannot be split.
    pub proof fn lemma_fixed_on(&self, before: &Layer, g: &Bigraph)
        requires
            self.grown_from(before, g),
            before.fixed(g),
        ensures
            self.fixed(g),
    {
        assert forall|e: Edge, c: int| g.has_edge(e) && 0 <= c < self.k() && 3 <= self.k() implies !
        #[trigger] self.may(g, e, c) by {
            g.lemma_edge_in_range(e);
            assert(!before.may(g, e, c));
        }
    }

    /// An edge that may join a biclique has a biclique to choose from.
    pub proof fn lemma_choice_counted(&self, g: &Bigraph, e: Edge, c: int, n: int)
        requires
            0 <= c < n,
            self.may(g, e, c),
        ensures
            self.choice_count(g, e, n) >= 1,
        decreases n,
    {
        if c < n - 1 {
            self.lemma_choice_counted(g, e, c, n - 1);
        }
    }

    /// Whether `child` and `self` are the two sides of the choice to put `e`
    /// into biclique `c` of `before`: `child` is `before` with the edge put
    /// there, and `self` is `before` without the open flags that stand for
    /// that choice.
    pub open(crate) spec fn branched(
        &self,
        before: &Layer,
        child: &Layer,
        g: &Bigraph,
        e: Edge,
        c: int,
    ) -> bool {
        &&& g.has_edge(e)
        &&& 0 <= c < before.k()
        &&& before.may(g, e, c)
        &&& !before.dead_end(g, e, c)
        &&& child.wf(g)
        &&& child.cliques() == before.cliques().update(c, before.cliques()[c].with_edge(e))
        &&& child.grown_from(before, g)
        &&& child.changed() == before.changed().insert(c as usize)
        &&& forall|o: Edge, d: int|
            g.in_range(o) && 0 <= d < before.k() ==> #[trigger] self.may(g, o, d) == (before.may(
                g,
                o,
                d,
            ) && !(d == c && rejected(before.cliques()[c], e, o)))
    }

    /// The number of bicliques that `e` may still join.
    pub(crate) fn count_choices(&self, g: &Bigraph, e: Edge) -> (n: usize)
        requires
            g.wf(),
            fits(g, self.k()),
            g.in_range(e),
        ensures
            n == self.choice_count(g, e, self.k() as int),
    {
        let k = self.bicliques.len();
        let index = Layer::index(g, k, e);
        let mut n: usize = 0;
        let mut c: usize = 0;
        while c < k
            invariant
                k == self.k(),
                c <= k,
                n <= c,
                index.0 == slot(g, k as nat, e, 0),
                index.0 + k <= usize::MAX,
                n == self.choice_count(g, e, c as int),
            decreases k - c,
        {
            if set_get(&self.data, index.may_add(c)) {
                n = n + 1;
            }
            c = c + 1;
        }
        n
    }

    /// Whether biclique `c` has the same members as another biclique.
    pub(crate) fn repeats(&self, c: usize) -> (r: bool)
        requires
            c < self.k(),
        ensures
            r == repeated(self.cliques(), c as int),
    {
        let k = self.bicliques.len();
        let mut i: usize = 0;
        while i < k
            invariant
                k == self.k(),
                c < k,
                i <= k,
                forall|j: int| 0 <= j < i && j != c ==> self.cliques()[j] != self.cliques()[c as int],
            decreases k - i,
        {
            if i != c && self.bicliques[c] == self.bicliques[i] {
                proof {
                    assert(self.cliques()[i as int] == self.cliques()[c as int]);
                }
                return true;
            }
            i = i + 1;
        }
        false
    }

    /// Records that putting `e` into biclique `c` has been tried, if the
    /// flags can say so: where the biclique has `e.0`, no edge at `e.1` may
    /// join it any more; else where it has `e.1`, no edge at `e.0`; else
    /// where it is empty, `e` itself may not. Says whether it did.
    pub(crate) fn reject(&mut self, g: &Bigraph, c: usize, e: Edge) -> (r: bool)
        requires
            old(self).wf(g),
            c < old(self).k(),
            g.in_range(e),
        ensures
            r == clean(old(self).cliques()[c as int], e),
            !r ==> *final(self) == *old(self),
            final(self).wf(g),
            final(self).bicliques == old(self).bicliques,
            final(self).changed == old(self).changed,
            forall|o: Edge|
                g.in_range(o) ==> #[trigger] final(self).covered(g, o) == old(self).covered(g, o),
            forall|o: Edge, d: int|
                g.in_range(o) && 0 <= d < old(self).k() ==> #[trigger] final(self).may(g, o, d)
                    == (old(self).may(g, o, d) && !(r && d == c && rejected(
                    old(self).cliques()[c as int],
                    e,
                    o,
                ))),
    {
        let ghost pre = *self;
        let ghost k = self.k();
        let r = if set32_get(&self.bicliques[c].left, e.0) {
            let mut x: u32 = 0;
            while x < g.left()
                invariant
                    pre.wf(g),
                    k == pre.k(),
                    c < k,
                    g.in_range(e),
                    x <= g.spec_left(),
                    self.bicliques == pre.bicliques,
                    self.changed == pre.changed,
                    forall|o: Edge|
                        g.in_range(o) ==> #[trigger] self.covered(g, o) == pre.covered(g, o),
                    forall|o: Edge, d: int|
                        g.in_range(o) && 0 <= d < k ==> #[trigger] self.may(g, o, d) == (pre.may(
                            g,
                            o,
                            d,
                        ) && !(d == c && o.1 == e.1 && o.0 < x)),
                decreases g.spec_left() - x,
            {
                self.clear_may(g, c, Edge(x, e.1));
                x = x + 1;
            }
            true
        } else if set32_get(&self.bicliques[c].right, e.1) {
            let mut y: u32 = 0;
            while y < g.right()
                invariant
                    pre.wf(g),
                    k == pre.k(),
                    c < k,
                    g.in_range(e),
                    y <= g.spec_right(),
                    self.bicliques == pre.bicliques,
                    self.changed == pre.changed,
                    forall|o: Edge|
                        g.in_range(o) ==> #[trigger] self.covered(g, o) == pre.covered(g, o),
                    forall|o: Edge, d: int|
                        g.in_range(o) && 0 <= d < k ==> #[trigger] self.may(g, o, d) == (pre.may(
                            g,
                            o,
                            d,
                        ) && !(d == c && o.0 == e.0 && o.1 < y)),
                decreases g.spec_right() - y,
            {
                self.clear_may(g, c, Edge(e.0, y));
                y = y + 1;
            }
            true
        } else if self.bicliques[c].is_empty() {
            self.clear_may(g, c, e);
            true
        } else {
            false
        };
        proof {
            assert forall|d: usize| #[trigger] self.changed().contains(d) implies d < self.k() by {
                assert(pre.changed().contains(d));
            }
        }
        r
    }

    /// Tries the choice to put `e` into biclique `c`. Where it leads
    /// somewhere, the layer with the edge put there is returned, and `self`
    /// records that the choice has been tried.
    pub(crate) fn try_branch(&mut self, g: &Bigraph, c: usize, e: Edge) -> (r: Option<Layer>)
        requires
            old(self).wf(g),
            c < old(self).k(),
            g.in_range(e),
            old(self).may(g, e, c as int),
        ensures
            final(self).wf(g),
            final(self).bicliques == old(self).bicliques,
            final(self).changed == old(self).changed,
            forall|o: Edge|
                g.in_range(o) ==> #[trigger] final(self).covered(g, o) == old(self).covered(g, o),
            match r {
                Some(child) => final(self).branched(old(self), &child, g, e, c as int),
                None => *final(self) == *old(self) && old(self).dead_end(g, e, c as int),
            },
    {
        let mut new_layer = self.clone();
        proof {
            lemma_same_state(&new_layer, self, g);
        }
        let ghost copy = new_layer;
        new_layer.add_edge(g, c, e);
        proof {
            assert(new_layer.cliques() =~= self.cliques().update(
                c as int,
                self.cliques()[c as int].with_edge(e),
            ));
            assert(new_layer.grown_from(self, g));
        }
        if new_layer.repeats(c) {
            return None;
        }
        if self.reject(g, c, e) {
            Some(new_layer)
        } else {
            None
        }
    }

    /// Picks an edge and a biclique that may take it, and splits the search
    /// in two: the layer returned has the edge in that biclique; `self`
    /// stays behind without the open flags that stand for that choice.
    ///
    /// A layer of fewer than three bicliques is never split. Edges with at
    /// most two bicliques to choose from are tried first, then those with
    /// three, and so on; among them the edges go by their index, and the
    /// bicliques by their place. A choice that would repeat a biclique, or
    /// that the flags cannot record as tried, is passed over. Without any
    /// choice left, `self` is unchanged. A cover that could be had from the
    /// layer can be had from one of the two.
    pub fn guess_edge(&mut self, g: &Bigraph) -> (r: Option<Layer>)
        requires
            old(self).wf(g),
        ensures
            final(self).wf(g),
            final(self).cliques() == old(self).cliques(),
            final(self).changed() == old(self).changed(),
            forall|o: Edge|
                g.in_range(o) ==> #[trigger] final(self).covered(g, o) == old(self).covered(g, o),
            match r {
                Some(child) => exists|e: Edge, c: int|
                    final(self).branched(old(self), &child, g, e, c) && old(self).first_choice(
                        g,
                        e,
                        c,
                        2,
                    ),
                None => *final(self) == *old(self) && old(self).exhausted(g),
            },
            forall|t: Seq<Sides>| #[trigger]
                old(self).leads_to(g, t) ==> final(self).leads_to(g, t) || match r {
                    Some(child) => child.leads_to(g, t),
                    None => false,
                },
    {
        self.guess_from(g, 2)
    }

    /// Splits the search in two as `guess_edge` does, with a first pass for
    /// the edges with at most `least` bicliques to choose from: with
    /// `least` at 1, the edges with a single biclique to choose from are
    /// tried before all others.
    pub fn guess_from(&mut self, g: &Bigraph, least: usize) -> (r: Option<Layer>)
        requires
            old(self).wf(g),
            1 <= least <= 2,
        ensures
            final(self).wf(g),
            final(self).cliques() == old(self).cliques(),
            final(self).changed() == old(self).changed(),
            forall|o: Edge|
                g.in_range(o) ==> #[trigger] final(self).covered(g, o) == old(self).covered(g, o),
            match r {
                Some(child) => exists|e: Edge, c: int|
                    final(self).branched(old(self), &child, g, e, c) && old(self).first_choice(
                        g,
                        e,
                        c,
                        least as nat,
                    ),
                None => *final(self) == *old(self) && old(self).exhausted(g),
            },
            forall|t: Seq<Sides>| #[trigger]
                old(self).leads_to(g, t) ==> final(self).leads_to(g, t) || match r {
                    Some(child) => child.leads_to(g, t),
                    None => false,
                },
    {
        let ghost pre = *self;
        let k = self.bicliques.len();
        if k < 3 {
            return None;
        }
        let entries = g.entries();
        let mut max_choices: usize = least;
        while max_choices < k
            invariant
                pre == *old(self),
                *self == pre,
                pre.wf(g),
                k == pre.k(),
                3 <= k,
                1 <= least <= 2,
                least <= max_choices,
                max_choices <= k,
                forall|i: int| 0 <= i < entries@.len() ==> g.has_edge(#[trigger] entries@[i]),
                forall|e: Edge| g.has_edge(e) ==> entries@.contains(e),
                forall|i: int, j: int|
                    0 <= i < j < entries@.len() ==> g.spec_edge_index(entries@[i])
                        < g.spec_edge_index(entries@[j]),
                forall|e: Edge, c: int|
                    g.has_edge(e) && 0 <= c < k && #[trigger] pre.may(g, e, c) && least
                        < max_choices && pre.choice_count(g, e, k as int) < max_choices ==> pre.dead_end(g, e, c),
            decreases k - max_choices,
        {
            let mut n: usize = 0;
            while n < entries.len()
                invariant
                    pre == *old(self),
                    *self == pre,
                    pre.wf(g),
                    k == pre.k(),
                    3 <= k,
                    1 <= least <= max_choices < k,
                    n <= entries@.len(),
                    forall|i: int| 0 <= i < entries@.len() ==> g.has_edge(#[trigger] entries@[i]),
                    forall|e: Edge| g.has_edge(e) ==> entries@.contains(e),
                    forall|i: int, j: int|
                        0 <= i < j < entries@.len() ==> g.spec_edge_index(entries@[i])
                            < g.spec_edge_index(entries@[j]),
                    forall|e: Edge, c: int|
                        g.has_edge(e) && 0 <= c < k && #[trigger] pre.may(g, e, c) && least
                            < max_choices && pre.choice_count(g, e, k as int) < max_choices
                            ==> pre.dead_end(g, e, c),
                    forall|i: int, c: int|
                        0 <= i < n && 0 <= c < k && #[trigger] pre.may(g, entries@[i], c)
                            && pre.choice_count(g, entries@[i], k as int) <= max_choices
                            ==> pre.dead_end(g, entries@[i], c),
                decreases entries@.len() - n,
            {
                let e = entries[n];
                proof {
                    g.lemma_edge_in_range(e);
                }
                let index = Layer::index(g, k, e);
                let num_choices = self.count_choices(g, e);
                if num_choices <= max_choices {
                    let mut c: usize = 0;
                    while c < k
                        invariant
                            pre == *old(self),
                            *self == pre,
                            pre.wf(g),
                            k == pre.k(),
                            c <= k,
                            g.has_edge(e),
                            g.in_range(e),
                            index.0 == slot(g, k as nat, e, 0),
                            index.0 + k <= usize::MAX,
                            3 <= k,
                            1 <= least <= max_choices < k,
                            n < entries@.len(),
                            e == entries@[n as int],
                            pre.choice_count(g, e, k as int) <= max_choices,
                            forall|e: Edge| g.has_edge(e) ==> entries@.contains(e),
                            forall|i: int, j: int|
                                0 <= i < j < entries@.len() ==> g.spec_edge_index(entries@[i])
                                    < g.spec_edge_index(entries@[j]),
                            forall|e: Edge, c: int|
                                g.has_edge(e) && 0 <= c < k && #[trigger] pre.may(g, e, c) && least
                                    < max_choices && pre.choice_count(g, e, k as int) < max_choices
                                    ==> pre.dead_end(g, e, c),
                            forall|i: int, c: int|
                                0 <= i < n && 0 <= c < k && #[trigger] pre.may(g, entries@[i], c)
                                    && pre.choice_count(g, entries@[i], k as int) <= max_choices
                                    ==> pre.dead_end(g, entries@[i], c),
                            forall|d: int|
                                0 <= d < c && #[trigger] pre.may(g, e, d) ==> pre.dead_end(g, e, d),
                        decreases k - c,
                    {
                        if set_get(&self.data, index.may_add(c)) {
                            match self.try_branch(g, c, e) {
                                Some(new_layer) => {
                                    proof {
                                        pre.lemma_choice_counted(g, e, c as int, k as int);
                                        assert(pre.pass(g, e, least as nat) == max_choices);
                                        assert forall|o: Edge, d: int|
                                            g.has_edge(o) && 0 <= d < k && #[trigger] pre.may(
                                                g,
                                                o,
                                                d,
                                            ) && pre.tried_before(
                                                g,
                                                o,
                                                d,
                                                e,
                                                c as int,
                                                least as nat,
                                            ) implies pre.dead_end(g, o, d) by {
                                            pre.lemma_choice_counted(g, o, d, k as int);
                                            if o != e {
                                                let i = choose|i: int|
                                                    0 <= i < entries@.len() && entries@[i] == o;
                                                if pre.pass(g, o, least as nat) >= max_choices {
                                                    if i >= n {
                                                        assert(g.spec_edge_index(entries@[n as int])
                                                            <= g.spec_edge_index(entries@[i]));
                                                    }
                                                    assert(pre.may(g, entries@[i], d));
                                                }
                                            }
                                        }
                                        assert(pre.first_choice(g, e, c as int, least as nat));
                                        assert forall|t: Seq<Sides>| #[trigger]
                                            pre.leads_to(g, t) implies self.leads_to(g, t)
                                            || new_layer.leads_to(g, t) by {
                                            self.lemma_leads_split(
                                                &pre,
                                                &new_layer,
                                                g,
                                                e,
                                                c as int,
                                                t,
                                            );
                                        }
                                    }
                                    return Some(new_layer);
                                },
                                None => {},
                            }
                        }
                        c = c + 1;
                    }
                }
                n = n + 1;
            }
            proof {
                assert forall|e: Edge, c: int|
                    g.has_edge(e) && 0 <= c < k && #[trigger] pre.may(g, e, c) && least < max_choices
                        + 1 && pre.choice_count(g, e, k as int) < max_choices
                        + 1 implies pre.dead_end(g, e, c) by {
                    let i = choose|i: int| 0 <= i < entries@.len() && entries@[i] == e;
                    assert(pre.may(g, entries@[i], c));
                }
            }
            max_choices = max_choices + 1;
        }
        None
    }
}

impl Clone for Layer {
    fn clone(&self) -> (r: Self)
        ensures
            r.cliques() == self.cliques(),
            r.flags() == self.flags(),
            r.changed() == self.changed(),
    {
        let mut bicliques: Vec<Biclique> = Vec::new();
        let mut i: usize = 0;
        while i < self.bicliques.len()
            invariant
                i <= self.bicliques@.len(),
                bicliques@.len() == i,
                forall|j: int| 0 <= j < i ==> (#[trigger] bicliques@[j])@ == self.bicliques@[j]@,
            decreases self.bicliques@.len() - i,
        {
            bicliques.push(self.bicliques[i].clone());
            i = i + 1;
        }
        proof {
            assert(sides_of(bicliques@) =~= sides_of(self.bicliques@));
        }
        Layer { bicliques, data: set_clone(&self.data), changed: set_clone(&self.changed) }
    }
}

/// Whether biclique `c` of `cs` has the same members as another one of them.
pub open spec fn repeated(cs: Seq<Sides>, c: int) -> bool {
    exists|i: int| 0 <= i < cs.len() && i != c && #[trigger] cs[i] == cs[c]
}

/// Whether a layer can record that the choice to put `e` into a biclique
/// with the members `side` has been tried.
pub open spec fn clean(side: Sides, e: Edge) -> bool {
    side.left.contains(e.0) || side.right.contains(e.1) || side.is_empty()
}

/// Whether `o` is one of the edges that may no longer join a biclique with
/// the members `side` once the choice to put `e` there has been tried.
pub open spec fn rejected(side: Sides, e: Edge, o: Edge) -> bool {
    if side.left.contains(e.0) {
        o.1 == e.1
    } else if side.right.contains(e.1) {
        o.0 == e.0
    } else {
        o == e
    }
}

/// Two layers with the same members and flags agree on everything.
pub proof fn lemma_same_state(a: &Layer, b: &Layer, g: &Bigraph)
    requires
        a.cliques() == b.cliques(),
        a.flags() == b.flags(),
        a.changed().subset_of(b.changed()),
    ensures
        a.k() == b.k(),
        b.wf(g) ==> a.wf(g),
        a.open_pairs(g) == b.open_pairs(g),
        forall|e: Edge| #[trigger] a.covered(g, e) == b.covered(g, e),
        forall|e: Edge, c: int| #[trigger] a.may(g, e, c) == b.may(g, e, c),
        b.wf(g) ==> a.grown_from(b, g),
{
    assert(a.cliques().len() == a.bicliques@.len());
    assert(b.cliques().len() == b.bicliques@.len());
    assert(a.open_pairs(g) =~= b.open_pairs(g));
    if b.wf(g) {
        assert forall|c: int| 0 <= c < a.k() implies g.bounds(#[trigger] a.cliques()[c])
            && g.is_biclique(a.cliques()[c]) by {
            assert(g.bounds(b.cliques()[c]) && g.is_biclique(b.cliques()[c]));
        }
        assert forall|e: Edge| g.in_range(e) implies (#[trigger] a.covered(g, e) <==> in_some(
            a.cliques(),
            e,
        )) by {
            assert(b.covered(g, e) <==> in_some(b.cliques(), e));
        }
        assert forall|e: Edge, c: int|
            g.in_range(e) && 0 <= c < a.k() && #[trigger] a.may(g, e, c) implies g.has_edge(e)
            && !a.cliques()[c].contains(e) && g.spec_may_add(a.cliques()[c], e) by {
            assert(b.may(g, e, c));
        }
        assert forall|c: usize| #[trigger] a.changed().contains(c) implies c < a.k() by {
            assert(b.changed().contains(c));
        }
    }
}

/// The biclique that seeds place `c` of an initial layer: the two ends of
/// forced edge `c`, or nothing where the forced edges have run out.
pub open spec fn seed(forced: Seq<Edge>, c: int) -> Sides {
    if 0 <= c < forced.len() {
        Sides::empty().with_edge(forced[c])
    } else {
        Sides::empty()
    }
}

/// The bicliques of an initial layer of size `k`.
pub open spec fn seeds(forced: Seq<Edge>, k: nat) -> Seq<Sides> {
    Seq::new(k, |c: int| seed(forced, c))
}

/// Looking at one more biclique finds the edge there or where it was.
pub proof fn lemma_in_some_step(cs: Seq<Sides>, n: int, e: Edge)
    requires
        0 <= n < cs.len(),
    ensures
        in_some(cs.take(n + 1), e) == (in_some(cs.take(n), e) || cs[n].contains(e)),
{
    if in_some(cs.take(n + 1), e) {
        let c = choose|c: int| 0 <= c < n + 1 && (#[trigger] cs.take(n + 1)[c]).contains(e);
        if c < n {
            assert(cs.take(n)[c].contains(e));
        }
    }
    if in_some(cs.take(n), e) {
        let c = choose|c: int| 0 <= c < n && (#[trigger] cs.take(n)[c]).contains(e);
        assert(cs.take(n + 1)[c].contains(e));
    }
    if cs[n].contains(e) {
        assert(cs.take(n + 1)[n].contains(e));
    }
}

/// A well-formed layer has grown from itself.
pub proof fn lemma_grown_same(a: &Layer, g: &Bigraph)
    requires
        a.wf(g),
    ensures
        a.grown_from(a, g),
{
}

/// Growing in two steps is growing.
pub proof fn lemma_grown_twice(a: &Layer, b: &Layer, c: &Layer, g: &Bigraph)
    requires
        a.wf(g),
        b.wf(g),
        b.grown_from(a, g),
        c.grown_from(b, g),
    ensures
        c.grown_from(a, g),
{
    assert forall|d: int| 0 <= d < c.k() implies (#[trigger] c.cliques()[d]).contains_clique(
        a.cliques()[d],
    ) by {
        assert(b.cliques()[d].contains_clique(a.cliques()[d]));
    }
    assert forall|e: Edge, d: int| g.in_range(e) && 0 <= d < c.k() implies #[trigger] c.may(g, e, d)
        == (a.may(g, e, d) && g.spec_may_add(c.cliques()[d], e) && !c.cliques()[d].contains(e)) by {
        assert(c.cliques()[d].contains_clique(b.cliques()[d]));
        assert(c.may(g, e, d) == (b.may(g, e, d) && g.spec_may_add(c.cliques()[d], e)
            && !c.cliques()[d].contains(e)));
        assert(b.may(g, e, d) == (a.may(g, e, d) && g.spec_may_add(b.cliques()[d], e)
            && !b.cliques()[d].contains(e)));
    }
}

/// Whether `y` is one of the first `n` members of `ys`.
pub open spec fn among<Item>(ys: Seq<Item>, n: int, y: Item) -> bool {
    exists|i: int| 0 <= i < n && ys[i] == y
}

/// One more member is among the first `n + 1`.
pub proof fn lemma_among_step<Item>(ys: Seq<Item>, n: int, y: Item)
    requires
        0 <= n < ys.len(),
    ensures
        among(ys, n + 1, y) == (among(ys, n, y) || y == ys[n]),
{
    if among(ys, n + 1, y) {
        let i = choose|i: int| 0 <= i < n + 1 && ys[i] == y;
        if i < n {
            assert(among(ys, n, y));
        }
    }
    if among(ys, n, y) {
        let i = choose|i: int| 0 <= i < n && ys[i] == y;
        assert(0 <= i < n + 1 && ys[i] == y);
    }
    if y == ys[n] {
        assert(0 <= n < n + 1 && ys[n] == y);
    }
}

} // verus!
