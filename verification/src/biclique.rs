//! Bicliques, and what a graph says of them.

use crate::bitset::{
    members32, set32_clone, set32_contains, set32_eq, set32_get, set32_is_empty, set32_items,
    set32_new,
};
use crate::graph::{Bigraph, Edge};
use tindex::TBitSet;
use vstd::prelude::*;

verus! {

/// A set of left vertices and a set of right vertices. With respect to a
/// graph it is a biclique when every pair across the two sets is an edge.
#[derive(Debug, Hash)]
pub struct Biclique {
    pub left: TBitSet<u32>,
    pub right: TBitSet<u32>,
}

/// The two vertex sets of a [`Biclique`].
pub struct Sides {
    pub left: Set<u32>,
    pub right: Set<u32>,
}

impl Sides {
    /// Whether both ends of `e` are members.
    pub open spec fn contains(self, e: Edge) -> bool {
        self.left.contains(e.0) && self.right.contains(e.1)
    }

    /// Whether both sides are empty.
    pub open spec fn is_empty(self) -> bool {
        self.left == Set::<u32>::empty() && self.right == Set::<u32>::empty()
    }

    /// Whether each side holds the same side of `other`.
    pub open spec fn contains_clique(self, other: Sides) -> bool {
        other.left.subset_of(self.left) && other.right.subset_of(self.right)
    }

    /// The sides with `x` added on the left.
    pub open spec fn with_left(self, x: u32) -> Sides {
        Sides { left: self.left.insert(x), right: self.right }
    }

    /// The sides with `y` added on the right.
    pub open spec fn with_right(self, y: u32) -> Sides {
        Sides { left: self.left, right: self.right.insert(y) }
    }

    /// The sides with both ends of `e` added.
    pub open spec fn with_edge(self, e: Edge) -> Sides {
        Sides { left: self.left.insert(e.0), right: self.right.insert(e.1) }
    }

    /// No vertex on either side.
    pub open spec fn empty() -> Sides {
        Sides { left: Set::<u32>::empty(), right: Set::<u32>::empty() }
    }
}

impl View for Biclique {
    type V = Sides;

    open spec fn view(&self) -> Sides {
        Sides { left: members32(self.left), right: members32(self.right) }
    }
}

impl Clone for Biclique {
    fn clone(&self) -> (r: Self)
        ensures
            r@ == self@,
    {
        Biclique { left: set32_clone(&self.left), right: set32_clone(&self.right) }
    }
}

impl PartialEq for Biclique {
    fn eq(&self, other: &Biclique) -> (r: bool) {
        set32_eq(&self.left, &other.left) && set32_eq(&self.right, &other.right)
    }
}

impl Eq for Biclique {

}

impl vstd::std_specs::cmp::PartialEqSpecImpl for Biclique {
    open spec fn obeys_eq_spec() -> bool {
        true
    }

    open spec fn eq_spec(&self, other: &Biclique) -> bool {
        self@ == other@
    }
}

/// The views of a sequence of bicliques.
pub open spec fn sides_of(cliques: Seq<Biclique>) -> Seq<Sides> {
    cliques.map_values(|c: Biclique| c@)
}

impl Biclique {
    /// A biclique without vertices.
    pub fn empty() -> (c: Biclique)
        ensures
            c@ == Sides::empty(),
    {
        Biclique { left: set32_new(), right: set32_new() }
    }

    /// The left vertices, in ascending order.
    pub fn left(&self) -> (v: Vec<u32>)
        ensures
            forall|i: int, j: int| 0 <= i < j < v@.len() ==> v@[i] < v@[j],
            forall|i: int| 0 <= i < v@.len() ==> self@.left.contains(#[trigger] v@[i]),
            forall|x: u32| self@.left.contains(x) ==> v@.contains(x),
    {
        set32_items(&self.left)
    }

    /// The right vertices, in ascending order.
    pub fn right(&self) -> (v: Vec<u32>)
        ensures
            forall|i: int, j: int| 0 <= i < j < v@.len() ==> v@[i] < v@[j],
            forall|i: int| 0 <= i < v@.len() ==> self@.right.contains(#[trigger] v@[i]),
            forall|y: u32| self@.right.contains(y) ==> v@.contains(y),
    {
        set32_items(&self.right)
    }

    /// Whether both sides are empty.
    pub fn is_empty(&self) -> (r: bool)
        ensures
            r == self@.is_empty(),
    {
        set32_is_empty(&self.left) && set32_is_empty(&self.right)
    }

    /// Whether both ends of `edge` are members.
    pub fn contains(&self, edge: Edge) -> (r: bool)
        ensures
            r == self@.contains(edge),
    {
        set32_get(&self.left, edge.0) && set32_get(&self.right, edge.1)
    }

    /// Whether each side holds the same side of `other`.
    pub fn contains_clique(&self, other: &Biclique) -> (r: bool)
        ensures
            r == self@.contains_clique(other@),
    {
        set32_contains(&self.left, &other.left) && set32_contains(&self.right, &other.right)
    }
}

impl Bigraph {
    /// Whether every vertex of `c` is a vertex of this graph.
    pub open spec fn bounds(&self, c: Sides) -> bool {
        &&& forall|x: u32| c.left.contains(x) ==> x < self.spec_left()
        &&& forall|y: u32| c.right.contains(y) ==> y < self.spec_right()
    }

    /// Whether every pair across the two sides of `c` is an edge.
    pub open spec fn is_biclique(&self, c: Sides) -> bool {
        forall|x: u32, y: u32|
            #![trigger c.left.contains(x), c.right.contains(y)]
            c.left.contains(x) && c.right.contains(y) ==> self.has_edge(Edge(x, y))
    }

    /// Whether left vertex `x` is joined to every right vertex of `c`.
    pub open spec fn row_fits(&self, c: Sides, x: u32) -> bool {
        forall|y: u32| c.right.contains(y) ==> self.has_edge(Edge(x, y))
    }

    /// Whether right vertex `y` is joined to every left vertex of `c`.
    pub open spec fn column_fits(&self, c: Sides, y: u32) -> bool {
        forall|x: u32| c.left.contains(x) ==> self.has_edge(Edge(x, y))
    }

    /// Whether `c` can take in both ends of `e` and stay a biclique, as far
    /// as the vertices that it already has are concerned.
    pub open spec fn spec_may_add(&self, c: Sides, e: Edge) -> bool {
        self.column_fits(c, e.1) && self.row_fits(c, e.0)
    }

    /// Whether `c` is maximal: no vertex outside `c` is joined to all of the
    /// other side. A biclique without vertices is maximal exactly in a graph
    /// without edges.
    pub open spec fn spec_is_maximal(&self, c: Sides) -> bool {
        if c.is_empty() {
            forall|e: Edge| !self.has_edge(e)
        } else {
            &&& forall|x: u32| x < self.spec_left() && !c.left.contains(x) ==> !self.row_fits(c, x)
            &&& forall|y: u32|
                y < self.spec_right() && !c.right.contains(y) ==> !self.column_fits(c, y)
        }
    }

    /// Whether `cs` are bicliques of this graph that between them hold every
    /// edge.
    pub open spec fn is_cover(&self, cs: Seq<Sides>) -> bool {
        &&& forall|i: int|
            0 <= i < cs.len() ==> self.bounds(#[trigger] cs[i]) && self.is_biclique(cs[i])
        &&& forall|e: Edge|
            self.has_edge(e) ==> exists|i: int| 0 <= i < cs.len() && (#[trigger] cs[i]).contains(e)
    }

    /// Any edge may join a biclique without vertices.
    pub proof fn lemma_may_add_empty(&self, e: Edge)
        ensures
            self.spec_may_add(Sides::empty(), e),
    {
    }

    /// The union of the rectangles of a cover is the edge set.
    pub proof fn lemma_cover_is_exact(&self, cs: Seq<Sides>, e: Edge)
        requires
            self.is_cover(cs),
        ensures
            self.has_edge(e) <==> exists|i: int| 0 <= i < cs.len() && (#[trigger] cs[i]).contains(e),
    {
    }

    /// Whether left vertex `x` is joined to every right vertex of `clique`.
    pub(crate) fn row_of(&self, clique: &Biclique, x: u32) -> (r: bool)
        requires
            self.wf(),
            self.bounds(clique@),
            x < self.spec_left(),
        ensures
            r == self.row_fits(clique@, x),
    {
        let ys = set32_items(&clique.right);
        let mut n: usize = 0;
        while n < ys.len()
            invariant
                self.wf(),
                self.bounds(clique@),
                x < self.spec_left(),
                n <= ys@.len(),
                forall|i: int| 0 <= i < ys@.len() ==> clique@.right.contains(#[trigger] ys@[i]),
                forall|i: int| 0 <= i < n ==> self.has_edge(Edge(x, #[trigger] ys@[i])),
            decreases ys@.len() - n,
        {
            if !self.get(Edge(x, ys[n])) {
                return false;
            }
            n = n + 1;
        }
        proof {
            assert forall|y: u32| clique@.right.contains(y) implies self.has_edge(Edge(x, y)) by {
                let i = choose|i: int| 0 <= i < ys@.len() && ys@[i] == y;
                assert(self.has_edge(Edge(x, ys@[i])));
            }
        }
        true
    }

    /// Whether right vertex `y` is joined to every left vertex of `clique`.
    pub(crate) fn column_of(&self, clique: &Biclique, y: u32) -> (r: bool)
        requires
            self.wf(),
            self.bounds(clique@),
            y < self.spec_right(),
        ensures
            r == self.column_fits(clique@, y),
    {
        let xs = set32_items(&clique.left);
        let mut n: usize = 0;
        while n < xs.len()
            invariant
                self.wf(),
                self.bounds(clique@),
                y < self.spec_right(),
                n <= xs@.len(),
                forall|i: int| 0 <= i < xs@.len() ==> clique@.left.contains(#[trigger] xs@[i]),
                forall|i: int| 0 <= i < n ==> self.has_edge(Edge(#[trigger] xs@[i], y)),
            decreases xs@.len() - n,
        {
            if !self.get(Edge(xs[n], y)) {
                return false;
            }
            n = n + 1;
        }
        proof {
            assert forall|x: u32| clique@.left.contains(x) implies self.has_edge(Edge(x, y)) by {
                let i = choose|i: int| 0 <= i < xs@.len() && xs@[i] == x;
                assert(self.has_edge(Edge(xs@[i], y)));
            }
        }
        true
    }

    /// Whether `clique` can take in both ends of `e`: every left vertex that
    /// it has is joined to `e.1`, and every right vertex to `e.0`.
    pub fn may_add(&self, clique: &Biclique, e: Edge) -> (r: bool)
        requires
            self.wf(),
            self.bounds(clique@),
            self.in_range(e),
        ensures
            r == self.spec_may_add(clique@, e),
    {
        self.column_of(clique, e.1) && self.row_of(clique, e.0)
    }

    /// Whether `clique` is maximal: no vertex can be added to it on either
    /// side. A biclique without vertices is maximal exactly in a graph
    /// without edges.
    pub fn is_maximal(&self, clique: &Biclique) -> (r: bool)
        requires
            self.wf(),
            self.bounds(clique@),
        ensures
            r == self.spec_is_maximal(clique@),
    {
        if clique.is_empty() {
            let entries = self.entries();
            proof {
                if entries@.len() > 0 {
                    assert(self.has_edge(entries@[0]));
                }
                assert forall|e: Edge| self.has_edge(e) implies entries@.len() > 0 by {
                    assert(entries@.contains(e));
                }
            }
            return entries.len() == 0;
        }
        let mut x: u32 = 0;
        while x < self.left()
            invariant
                self.wf(),
                self.bounds(clique@),
                !clique@.is_empty(),
                x <= self.spec_left(),
                forall|o: u32| o < x && !clique@.left.contains(o) ==> !self.row_fits(clique@, o),
            decreases self.spec_left() - x,
        {
            if !set32_get(&clique.left, x) {
                if self.row_of(clique, x) {
                    return false;
                }
            }
            x = x + 1;
        }
        let mut y: u32 = 0;
        while y < self.right()
            invariant
                self.wf(),
                self.bounds(clique@),
                !clique@.is_empty(),
                y <= self.spec_right(),
                forall|o: u32|
                    o < self.spec_left() && !clique@.left.contains(o) ==> !self.row_fits(
                        clique@,
                        o,
                    ),
                forall|o: u32| o < y && !clique@.right.contains(o) ==> !self.column_fits(clique@, o),
            decreases self.spec_right() - y,
        {
            if !set32_get(&clique.right, y) {
                if self.column_of(clique, y) {
                    return false;
                }
            }
            y = y + 1;
        }
        true
    }
}

} // verus!
