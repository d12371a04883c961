//! Bipartite graphs with a packed edge set.
//!
//! An edge `(x, y)` lives at bit `x * stride + y` of one bitset, where the
//! stride is the least power of two that is not below the size of the right
//! side. Packing and unpacking an index are then a shift and a mask.

use crate::bitset::{members, set_add, set_get, set_items, set_new};
use tindex::TBitSet;
use vstd::arithmetic::div_mod::{lemma_fundamental_div_mod, lemma_fundamental_div_mod_converse};
use vstd::arithmetic::mul::lemma_mul_is_commutative;
use vstd::arithmetic::power2::{
    lemma_pow2_pos, lemma_pow2_strictly_increases, lemma_pow2_unfold, pow2,
};
use vstd::bits::{lemma_usize_low_bits_mask_is_mod, lemma_usize_shl_is_mul, lemma_usize_shr_is_div};
use vstd::prelude::*;

verus! {

/// An edge between vertex `.0` of the left side and vertex `.1` of the right
/// side.
#[derive(Debug, Clone, Copy, PartialEq, Eq, Structural)]
pub struct Edge(pub u32, pub u32);

/// A bipartite graph on `left` and `right` vertices.
#[derive(Debug)]
pub struct Bigraph {
    left: u32,
    edge_x_offset: u8,
    right: u32,
    entries: TBitSet<usize>,
}

/// The number of bits by which a left vertex is shifted in an edge index: the
/// least `s` with `right <= 2^s`.
pub open spec fn shift_for(right: nat) -> nat
    decreases right,
{
    if right <= 1 {
        0
    } else {
        1 + shift_for((right + 1) / 2)
    }
}

/// The distance between the indices of `(x, y)` and `(x + 1, y)`.
pub open spec fn stride_for(right: nat) -> nat {
    pow2(shift_for(right))
}

/// Only the least sufficient shift passes for `shift_for`.
proof fn lemma_shift_for_unique(right: nat, s: nat)
    requires
        right <= pow2(s),
        s == 0 || pow2((s - 1) as nat) < right,
    ensures
        s == shift_for(right),
    decreases right,
{
    if right <= 1 {
        if s > 0 {
            lemma_pow2_pos((s - 1) as nat);
        }
    } else {
        assert(pow2(0) == 1) by {
            lemma_pow2_unfold(1);
            vstd::arithmetic::power2::lemma2_to64();
        }
        assert(s >= 1);
        lemma_pow2_unfold(s);
        let t = (s - 1) as nat;
        if t > 0 {
            lemma_pow2_unfold(t);
        }
        lemma_shift_for_unique((right + 1) / 2, t);
    }
}

/// Two lists with the same members, each in the order of the indices of its
/// members, are the same list.
proof fn lemma_same_ascending(g: &Bigraph, a: Seq<Edge>, b: Seq<Edge>)
    requires
        forall|e: Edge| a.contains(e) == b.contains(e),
        forall|i: int, j: int|
            0 <= i < j < a.len() ==> g.spec_edge_index(a[i]) < g.spec_edge_index(a[j]),
        forall|i: int, j: int|
            0 <= i < j < b.len() ==> g.spec_edge_index(b[i]) < g.spec_edge_index(b[j]),
    ensures
        a == b,
    decreases a.len(),
{
    if a.len() == 0 {
        if b.len() > 0 {
            assert(b.contains(b[0]));
        }
        assert(a =~= b);
    } else {
        let x = a.last();
        assert(a.contains(a[a.len() - 1]));
        assert(b.contains(x));
        let j = choose|j: int| 0 <= j < b.len() && b[j] == x;
        if j < b.len() - 1 {
            let y = b[b.len() - 1];
            assert(b.contains(b[b.len() - 1]));
            let i = choose|i: int| 0 <= i < a.len() && a[i] == y;
            assert(g.spec_edge_index(b[j]) < g.spec_edge_index(b[b.len() - 1]));
            if i < a.len() - 1 {
                assert(g.spec_edge_index(a[i]) < g.spec_edge_index(a[a.len() - 1]));
            }
        }
        let a2 = a.drop_last();
        let b2 = b.drop_last();
        assert forall|e: Edge| a2.contains(e) == b2.contains(e) by {
            if a2.contains(e) {
                let i = choose|i: int| 0 <= i < a2.len() && a2[i] == e;
                assert(a[i] == e);
                assert(g.spec_edge_index(a[i]) < g.spec_edge_index(a[a.len() - 1]));
                assert(a.contains(e));
                let k = choose|k: int| 0 <= k < b.len() && b[k] == e;
                assert(b2[k] == e);
            }
            if b2.contains(e) {
                let i = choose|i: int| 0 <= i < b2.len() && b2[i] == e;
                assert(b[i] == e);
                assert(g.spec_edge_index(b[i]) < g.spec_edge_index(b[b.len() - 1]));
                assert(b.contains(e));
                let k = choose|k: int| 0 <= k < a.len() && a[k] == e;
                assert(a2[k] == e);
            }
        }
        lemma_same_ascending(g, a2, b2);
        assert(a =~= a2.push(x));
        assert(b =~= b2.push(x));
    }
}

impl Bigraph {
    /// The number of left vertices.
    pub closed spec fn spec_left(&self) -> u32 {
        self.left
    }

    /// The number of right vertices.
    pub closed spec fn spec_right(&self) -> u32 {
        self.right
    }

    /// The distance between the indices of `(x, y)` and `(x + 1, y)`.
    pub closed spec fn stride(&self) -> nat {
        pow2(self.edge_x_offset as nat)
    }

    /// One more than the largest index that an edge of this graph can have.
    pub open spec fn index_bound(&self) -> nat {
        self.spec_left() as nat * self.stride()
    }

    /// Whether both ends of `e` are vertices of this graph.
    pub open spec fn in_range(&self, e: Edge) -> bool {
        e.0 < self.spec_left() && e.1 < self.spec_right()
    }

    /// The position of `e` in the packed edge set.
    pub open spec fn spec_edge_index(&self, e: Edge) -> int {
        e.0 * self.stride() + e.1
    }

    /// The edge, if any, that is packed at `index`.
    pub open spec fn spec_edge_from_index(&self, index: int) -> Edge {
        Edge((index / self.stride() as int) as u32, (index % self.stride() as int) as u32)
    }

    /// The representation invariant: the stride covers the right side, every
    /// index fits in a `usize`, and only in-range edges are stored.
    pub closed spec fn wf(&self) -> bool {
        &&& self.edge_x_offset <= 31
        &&& self.edge_x_offset as nat == shift_for(self.right as nat)
        &&& self.right as nat <= self.stride()
        &&& self.left as nat * self.stride() <= usize::MAX
        &&& forall|i: usize| #[trigger]
            members(self.entries).contains(i) ==> i < self.left as nat * self.stride() && (i as int)
                % (self.stride() as int) < self.right
    }

    /// Whether `e` is an edge of this graph.
    pub closed spec fn has_edge(&self, e: Edge) -> bool {
        self.in_range(e) && members(self.entries).contains(self.spec_edge_index(e) as usize)
    }

    /// The edge set.
    pub open spec fn edges(&self) -> Set<Edge> {
        Set::new(|e: Edge| self.has_edge(e))
    }

    /// Whether `s` lists the edges in the order of their indices.
    pub open spec fn lists_edges(&self, s: Seq<Edge>) -> bool {
        &&& forall|i: int| 0 <= i < s.len() ==> self.has_edge(#[trigger] s[i])
        &&& forall|e: Edge| self.has_edge(e) ==> s.contains(e)
        &&& forall|i: int, j: int|
            0 <= i < j < s.len() ==> self.spec_edge_index(s[i]) < self.spec_edge_index(s[j])
    }

    /// Two edges may lie in one biclique: both crossings are edges.
    pub open spec fn spec_may_share(&self, a: Edge, b: Edge) -> bool {
        self.has_edge(Edge(a.0, b.1)) && self.has_edge(Edge(b.0, a.1))
    }

    /// Only pairs of vertices of the graph are edges.
    pub broadcast proof fn lemma_edge_in_range(&self, e: Edge)
        requires
            #[trigger] self.has_edge(e),
        ensures
            self.in_range(e),
    {
    }

    /// The stride is that of the right side, and indices fit in a `usize`.
    pub proof fn lemma_stride(&self)
        requires
            self.wf(),
        ensures
            self.stride() == stride_for(self.spec_right() as nat),
            self.spec_right() as nat <= self.stride(),
            1 <= self.stride() <= 0x8000_0000,
            self.index_bound() <= usize::MAX,
    {
        lemma_pow2_pos(self.edge_x_offset as nat);
        if self.edge_x_offset < 31 {
            lemma_pow2_strictly_increases(self.edge_x_offset as nat, 31);
        }
        vstd::arithmetic::power2::lemma2_to64();
    }

    /// An in-range edge has an index below the bound.
    pub proof fn lemma_index_bound(&self, e: Edge)
        requires
            self.wf(),
            self.in_range(e),
        ensures
            0 <= self.spec_edge_index(e) < self.index_bound(),
            self.index_bound() <= usize::MAX,
    {
        self.lemma_stride();
        let s = self.stride() as int;
        assert(e.0 * s + s <= self.spec_left() * s) by (nonlinear_arith)
            requires
                0 <= e.0 < self.spec_left(),
                s >= 0,
        ;
        assert(0 <= e.0 * s) by (nonlinear_arith)
            requires
                0 <= e.0,
                s >= 0,
        ;
    }

    /// Unpacking the index of an in-range edge gives the edge back.
    pub proof fn lemma_index_round_trip(&self, e: Edge)
        requires
            self.wf(),
            self.in_range(e),
        ensures
            self.spec_edge_from_index(self.spec_edge_index(e)) == e,
    {
        self.lemma_stride();
        let s = self.stride() as int;
        lemma_mul_is_commutative(e.0 as int, s);
        lemma_fundamental_div_mod_converse(self.spec_edge_index(e), s, e.0 as int, e.1 as int);
    }

    /// The edges have one list in the order of their indices.
    pub proof fn lemma_one_list_of_edges(&self, a: Seq<Edge>, b: Seq<Edge>)
        requires
            self.lists_edges(a),
            self.lists_edges(b),
        ensures
            a == b,
    {
        assert forall|e: Edge| a.contains(e) == b.contains(e) by {
            if a.contains(e) {
                let i = choose|i: int| 0 <= i < a.len() && a[i] == e;
                assert(self.has_edge(a[i]));
            }
            if b.contains(e) {
                let i = choose|i: int| 0 <= i < b.len() && b[i] == e;
                assert(self.has_edge(b[i]));
            }
        }
        lemma_same_ascending(self, a, b);
    }

    /// Distinct in-range edges have distinct indices.
    pub proof fn lemma_index_injective(&self, a: Edge, b: Edge)
        requires
            self.wf(),
            self.in_range(a),
            self.in_range(b),
            self.spec_edge_index(a) == self.spec_edge_index(b),
        ensures
            a == b,
    {
        self.lemma_index_round_trip(a);
        self.lemma_index_round_trip(b);
    }

    /// `may_share` does not depend on the order of its arguments.
    pub proof fn lemma_may_share_symmetric(&self, a: Edge, b: Edge)
        ensures
            self.spec_may_share(a, b) == self.spec_may_share(b, a),
    {
    }

    /// An edge may share a biclique with itself.
    pub proof fn lemma_may_share_reflexive(&self, a: Edge)
        requires
            self.has_edge(a),
        ensures
            self.spec_may_share(a, a),
    {
    }

    /// The shift for a right side of `right` vertices.
    fn shift_of(right: u32) -> (shift: u8)
        requires
            right <= 0x8000_0000,
        ensures
            shift <= 31,
            shift == shift_for(right as nat),
            right <= pow2(shift as nat) <= 0x8000_0000,
            1 <= pow2(shift as nat),
    {
        let mut shift: u8 = 0;
        let mut stride: u64 = 1;
        proof {
            vstd::arithmetic::power2::lemma2_to64();
        }
        while stride < right as u64
            invariant
                shift <= 31,
                stride >= 1,
                stride == pow2(shift as nat),
                right <= 0x8000_0000,
                shift == 0 || pow2((shift - 1) as nat) < right,
            decreases 0x1_0000_0000 - stride,
        {
            proof {
                lemma_pow2_unfold((shift + 1) as nat);
                if shift >= 31 {
                    vstd::arithmetic::power2::lemma2_to64();
                }
            }
            stride = stride * 2;
            shift = shift + 1;
        }
        proof {
            lemma_shift_for_unique(right as nat, shift as nat);
            if shift < 31 {
                lemma_pow2_strictly_increases(shift as nat, 31);
            }
            vstd::arithmetic::power2::lemma2_to64();
        }
        shift
    }

    /// Whether a graph on `left` and `right` vertices can be made: the right
    /// side has at most 2^31 vertices, and every edge index fits in a
    /// `usize`.
    pub open spec fn spec_can_hold(left: u32, right: u32) -> bool {
        right <= 0x8000_0000 && left as nat * stride_for(right as nat) <= usize::MAX
    }

    /// Whether a graph on `left` and `right` vertices can be made.
    pub fn can_hold(left: u32, right: u32) -> (r: bool)
        ensures
            r == Self::spec_can_hold(left, right),
    {
        if right > 0x8000_0000 {
            return false;
        }
        let shift = Self::shift_of(right);
        proof {
            lemma_usize_shl_is_mul(1usize, shift as usize);
            lemma_usize_shr_is_div(usize::MAX, shift as usize);
            let s = pow2(shift as nat) as int;
            lemma_fundamental_div_mod(usize::MAX as int, s);
            assert(left <= usize::MAX as int / s <==> left * s <= usize::MAX) by (nonlinear_arith)
                requires
                    s > 0,
                    usize::MAX as int == s * (usize::MAX as int / s) + usize::MAX as int % s,
                    0 <= usize::MAX as int % s < s,
                    0 <= left,
            ;
        }
        left as usize <= usize::MAX >> (shift as usize)
    }

    /// A graph on `left` and `right` vertices without edges.
    pub fn new(left: u32, right: u32) -> (g: Bigraph)
        requires
            Self::spec_can_hold(left, right),
        ensures
            g.wf(),
            g.spec_left() == left,
            g.spec_right() == right,
            forall|e: Edge| !g.has_edge(e),
    {
        let shift = Self::shift_of(right);
        Bigraph { left, edge_x_offset: shift, right, entries: set_new() }
    }

    /// The number of left vertices.
    #[verifier::when_used_as_spec(spec_left)]
    pub fn left(&self) -> (n: u32)
        ensures
            n == self.spec_left(),
    {
        self.left
    }

    /// The number of right vertices.
    #[verifier::when_used_as_spec(spec_right)]
    pub fn right(&self) -> (n: u32)
        ensures
            n == self.spec_right(),
    {
        self.right
    }

    /// One more than the largest index that an edge of this graph can have.
    pub fn bound(&self) -> (n: usize)
        requires
            self.wf(),
        ensures
            n == self.index_bound(),
    {
        proof {
            self.lemma_stride();
            lemma_usize_shl_is_mul(self.left as usize, self.edge_x_offset as usize);
        }
        (self.left as usize) << (self.edge_x_offset as usize)
    }

    /// The position of `e` in the packed edge set.
    #[inline(always)]
    pub fn edge_index(&self, e: Edge) -> (index: usize)
        requires
            self.wf(),
            self.in_range(e),
        ensures
            index == self.spec_edge_index(e),
            index < self.index_bound(),
    {
        proof {
            self.lemma_index_bound(e);
            self.lemma_stride();
            assert(e.0 * self.stride() <= usize::MAX);
            lemma_usize_shl_is_mul(e.0 as usize, self.edge_x_offset as usize);
        }
        let x = (e.0 as usize) << (self.edge_x_offset as usize);
        x + e.1 as usize
    }

    /// The edge that is packed at `index`.
    #[inline(always)]
    pub fn edge_from_index(&self, index: usize) -> (e: Edge)
        requires
            self.wf(),
            index < self.index_bound(),
        ensures
            e == self.spec_edge_from_index(index as int),
            e.0 < self.spec_left(),
            self.spec_edge_index(e) == index,
    {
        proof {
            self.lemma_stride();
            let s = self.stride() as int;
            lemma_usize_shr_is_div(index, self.edge_x_offset as usize);
            lemma_usize_shl_is_mul(1usize, self.edge_x_offset as usize);
            lemma_usize_low_bits_mask_is_mod(index, self.edge_x_offset as nat);
            lemma_fundamental_div_mod(index as int, s);
            assert(index as int / s < self.spec_left()) by (nonlinear_arith)
                requires
                    index < self.spec_left() * s,
                    s > 0,
            ;
            assert(s * (index as int / s) == (index as int / s) * s) by (nonlinear_arith);
        }
        let x = index >> (self.edge_x_offset as usize);
        let y = index & ((1usize << (self.edge_x_offset as usize)) - 1);
        Edge(x as u32, y as u32)
    }

    /// Whether `e` is an edge.
    #[inline(always)]
    pub fn get(&self, e: Edge) -> (r: bool)
        requires
            self.wf(),
            self.in_range(e),
        ensures
            r == self.has_edge(e),
    {
        set_get(&self.entries, self.edge_index(e))
    }

    /// Makes `e` an edge; a second `add` of the same edge changes nothing.
    pub fn add(&mut self, e: Edge)
        requires
            old(self).wf(),
            old(self).in_range(e),
        ensures
            final(self).wf(),
            final(self).spec_left() == old(self).spec_left(),
            final(self).spec_right() == old(self).spec_right(),
            forall|o: Edge| final(self).has_edge(o) == (old(self).has_edge(o) || o == e),
    {
        let index = self.edge_index(e);
        proof {
            self.lemma_stride();
            self.lemma_index_round_trip(e);
            lemma_mul_is_commutative(e.0 as int, self.stride() as int);
            lemma_fundamental_div_mod_converse(
                index as int,
                self.stride() as int,
                e.0 as int,
                e.1 as int,
            );
        }
        set_add(&mut self.entries, index);
        proof {
            assert forall|o: Edge| final(self).has_edge(o) == (old(self).has_edge(o) || o == e) by {
                if self.in_range(o) && self.spec_edge_index(o) == index {
                    old(self).lemma_index_injective(o, e);
                }
                if self.in_range(o) {
                    old(self).lemma_index_bound(o);
                }
            }
        }
    }

    /// Whether `a` and `b` may lie in one biclique.
    #[inline(always)]
    pub fn may_share(&self, a: Edge, b: Edge) -> (r: bool)
        requires
            self.wf(),
            self.in_range(a),
            self.in_range(b),
        ensures
            r == self.spec_may_share(a, b),
    {
        self.get(Edge(a.0, b.1)) && self.get(Edge(b.0, a.1))
    }

    /// The edges, in the order of their indices.
    pub fn entries(&self) -> (v: Vec<Edge>)
        requires
            self.wf(),
        ensures
            self.lists_edges(v@),
    {
        let items = set_items(&self.entries);
        let mut v: Vec<Edge> = Vec::new();
        let mut n: usize = 0;
        while n < items.len()
            invariant
                self.wf(),
                n <= items@.len(),
                v@.len() == n,
                forall|i: int, j: int| 0 <= i < j < items@.len() ==> items@[i] < items@[j],
                forall|i: int|
                    0 <= i < items@.len() ==> members(self.entries).contains(#[trigger] items@[i]),
                forall|i: int|
                    0 <= i < n ==> self.has_edge(#[trigger] v@[i]) && self.spec_edge_index(v@[i])
                        == items@[i],
            decreases items@.len() - n,
        {
            let index = items[n];
            proof {
                self.lemma_stride();
            }
            let e = self.edge_from_index(index);
            proof {
                lemma_fundamental_div_mod(index as int, self.stride() as int);
            }
            v.push(e);
            n = n + 1;
        }
        proof {
            assert forall|e: Edge| self.has_edge(e) implies v@.contains(e) by {
                let index = self.spec_edge_index(e) as usize;
                self.lemma_index_bound(e);
                assert(items@.contains(index));
                let i = choose|i: int| 0 <= i < items@.len() && items@[i] == index;
                self.lemma_edge_in_range(v@[i]);
                self.lemma_index_injective(v@[i], e);
            }
        }
        v
    }

    /// The edges at left vertex `x`, by ascending right vertex.
    pub fn left_entries(&self, x: u32) -> (v: Vec<Edge>)
        requires
            self.wf(),
            x < self.spec_left(),
        ensures
            forall|i: int| 0 <= i < v@.len() ==> (#[trigger] v@[i]).0 == x && self.has_edge(v@[i]),
            forall|e: Edge| self.has_edge(e) && e.0 == x ==> v@.contains(e),
            forall|i: int, j: int| 0 <= i < j < v@.len() ==> v@[i].1 < v@[j].1,
    {
        let mut v: Vec<Edge> = Vec::new();
        let mut y: u32 = 0;
        while y < self.right
            invariant
                self.wf(),
                x < self.spec_left(),
                y <= self.spec_right(),
                forall|i: int|
                    0 <= i < v@.len() ==> (#[trigger] v@[i]).0 == x && self.has_edge(v@[i])
                        && v@[i].1 < y,
                forall|e: Edge| self.has_edge(e) && e.0 == x && e.1 < y ==> v@.contains(e),
                forall|i: int, j: int| 0 <= i < j < v@.len() ==> v@[i].1 < v@[j].1,
            decreases self.spec_right() - y,
        {
            let e = Edge(x, y);
            if self.get(e) {
                let ghost before = v@;
                v.push(e);
                proof {
                    assert(v@[before.len() as int] == e);
                    assert forall|o: Edge| self.has_edge(o) && o.0 == x && o.1 < y + 1 implies v@.contains(
                        o,
                    ) by {
                        if o.1 < y {
                            let i = choose|i: int| 0 <= i < before.len() && before[i] == o;
                            assert(v@[i] == o);
                        }
                    }
                }
            }
            y = y + 1;
        }
        v
    }

    /// The edges at right vertex `y`, by ascending left vertex.
    pub fn right_entries(&self, y: u32) -> (v: Vec<Edge>)
        requires
            self.wf(),
            y < self.spec_right(),
        ensures
            forall|i: int| 0 <= i < v@.len() ==> (#[trigger] v@[i]).1 == y && self.has_edge(v@[i]),
            forall|e: Edge| self.has_edge(e) && e.1 == y ==> v@.contains(e),
            forall|i: int, j: int| 0 <= i < j < v@.len() ==> v@[i].0 < v@[j].0,
    {
        let mut v: Vec<Edge> = Vec::new();
        let mut x: u32 = 0;
        while x < self.left
            invariant
                self.wf(),
                y < self.spec_right(),
                x <= self.spec_left(),
                forall|i: int|
                    0 <= i < v@.len() ==> (#[trigger] v@[i]).1 == y && self.has_edge(v@[i])
                        && v@[i].0 < x,
                forall|e: Edge| self.has_edge(e) && e.1 == y && e.0 < x ==> v@.contains(e),
                forall|i: int, j: int| 0 <= i < j < v@.len() ==> v@[i].0 < v@[j].0,
            decreases self.spec_left() - x,
        {
            let e = Edge(x, y);
            if self.get(e) {
                let ghost before = v@;
                v.push(e);
                proof {
                    assert(v@[before.len() as int] == e);
                    assert forall|o: Edge| self.has_edge(o) && o.1 == y && o.0 < x + 1 implies v@.contains(
                        o,
                    ) by {
                        if o.0 < x {
                            let i = choose|i: int| 0 <= i < before.len() && before[i] == o;
                            assert(v@[i] == o);
                        }
                    }
                }
            }
            x = x + 1;
        }
        v
    }
}

/// Whether an array of `rows` rows of `columns` flags can be read as a
/// graph.
pub open spec fn rows_fit(rows: usize, columns: usize) -> bool {
    rows <= u32::MAX && columns <= u32::MAX && Bigraph::spec_can_hold(rows as u32, columns as u32)
}

impl<const L: usize, const R: usize> From<[[bool; R]; L]> for Bigraph {
    /// The graph whose edges are the flags that are set: row `x` of `arr`
    /// holds the edges at left vertex `x`. An array that is too large to be
    /// read as a graph gives the graph without vertices.
    fn from(arr: [[bool; R]; L]) -> (g: Bigraph)
        ensures
            g.wf(),
            rows_fit(L, R) ==> g.spec_left() == L && g.spec_right() == R && forall|e: Edge|
                g.has_edge(e) == (g.in_range(e) && arr@[e.0 as int]@[e.1 as int]),
            !rows_fit(L, R) ==> g.spec_left() == 0 && g.spec_right() == 0,
    {
        if L > u32::MAX as usize || R > u32::MAX as usize || !Bigraph::can_hold(L as u32, R as u32) {
            return Bigraph::new(0, 0);
        }
        let mut g = Bigraph::new(L as u32, R as u32);
        let mut x: usize = 0;
        while x < L
            invariant
                rows_fit(L, R),
                x <= L,
                g.wf(),
                g.spec_left() == L,
                g.spec_right() == R,
                forall|e: Edge|
                    g.has_edge(e) == (g.in_range(e) && e.0 < x && arr@[e.0 as int]@[e.1 as int]),
            decreases L - x,
        {
            let mut y: usize = 0;
            while y < R
                invariant
                    rows_fit(L, R),
                    x < L,
                    y <= R,
                    g.wf(),
                    g.spec_left() == L,
                    g.spec_right() == R,
                    forall|e: Edge|
                        g.has_edge(e) == (g.in_range(e) && (e.0 < x || (e.0 == x && e.1 < y))
                            && arr@[e.0 as int]@[e.1 as int]),
                decreases R - y,
            {
                if arr[x][y] {
                    g.add(Edge(x as u32, y as u32));
                }
                y = y + 1;
            }
            x = x + 1;
        }
        g
    }
}

impl<const L: usize, const R: usize> vstd::std_specs::convert::FromSpecImpl<[[bool; R]; L]> for Bigraph {
    open spec fn obeys_from_spec() -> bool {
        false
    }

    open spec fn from_spec(arr: [[bool; R]; L]) -> Bigraph {
        arbitrary()
    }
}

} // verus!
