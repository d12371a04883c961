//! Covers: bicliques of a graph that between them hold every edge.

use crate::biclique::{sides_of, Biclique, Sides};
use crate::bitset::set32_get;
use crate::graph::{Bigraph, Edge};
use crate::order::{biclique_sort, canonical, lemma_canonical_unique};
use vstd::prelude::*;

verus! {

/// A cover of a graph by bicliques, in canonical order.
#[derive(Debug, Clone, PartialEq, Eq, Hash)]
pub struct BicliqueCover {
    elements: Vec<Biclique>,
}

impl View for BicliqueCover {
    type V = Seq<Sides>;

    closed spec fn view(&self) -> Seq<Sides> {
        sides_of(self.elements@)
    }
}

/// `String::push`: the string gains `c` at its end.
pub assume_specification[ String::push ](s: &mut String, c: char)
    ensures
        final(s)@ == old(s)@.push(c),
;

/// `String::pop`: the string loses its last character, if it has one, and
/// that character is returned.
pub assume_specification[ String::pop ](s: &mut String) -> (c: Option<char>)
    ensures
        old(s)@.len() == 0 ==> c.is_none() && final(s)@ == old(s)@,
        old(s)@.len() > 0 ==> c == Some(old(s)@.last()) && final(s)@ == old(s)@.drop_last(),
;

/// The first `n` vertices as digits: `1` for a member of `side`, `0` for
/// another vertex.
pub open spec fn digits(side: Set<u32>, n: nat) -> Seq<char> {
    Seq::new(
        n,
        |i: int|
            if side.contains(i as u32) {
                '1'
            } else {
                '0'
            },
    )
}

/// One biclique written out: the digits of the left side, a bar, the digits
/// of the right side.
pub open spec fn printed_clique(c: Sides, left: nat, right: nat) -> Seq<char> {
    digits(c.left, left) + seq!['|'] + digits(c.right, right)
}

/// The bicliques written out one after the other, a space after each.
pub open spec fn printed_each(cs: Seq<Sides>, left: nat, right: nat) -> Seq<char>
    decreases cs.len(),
{
    if cs.len() == 0 {
        Seq::empty()
    } else {
        printed_each(cs.drop_last(), left, right) + printed_clique(cs.last(), left, right) + seq![
            ' ',
        ]
    }
}

/// The bicliques written out with a space between them.
pub open spec fn printed(cs: Seq<Sides>, left: nat, right: nat) -> Seq<char> {
    if cs.len() == 0 {
        Seq::empty()
    } else {
        printed_each(cs, left, right).drop_last()
    }
}

/// Two lists with the same members, each as often in the one as in the
/// other, cover the same graphs.
pub proof fn lemma_cover_of_same_members(g: &Bigraph, a: Seq<Sides>, b: Seq<Sides>)
    requires
        g.is_cover(a),
        a.to_multiset() == b.to_multiset(),
    ensures
        g.is_cover(b),
{
    broadcast use vstd::seq_lib::group_to_multiset_ensures;

    assert forall|i: int| 0 <= i < b.len() implies g.bounds(#[trigger] b[i]) && g.is_biclique(
        b[i],
    ) by {
        assert(b.contains(b[i]));
        assert(b.to_multiset().count(b[i]) > 0);
        assert(a.contains(b[i]));
        let j = choose|j: int| 0 <= j < a.len() && a[j] == b[i];
        assert(g.bounds(a[j]) && g.is_biclique(a[j]));
    }
    assert forall|e: Edge| g.has_edge(e) implies exists|i: int|
        0 <= i < b.len() && (#[trigger] b[i]).contains(e) by {
        let j = choose|j: int| 0 <= j < a.len() && (#[trigger] a[j]).contains(e);
        assert(a.contains(a[j]));
        assert(a.to_multiset().count(a[j]) > 0);
        assert(b.contains(a[j]));
        let i = choose|i: int| 0 <= i < b.len() && b[i] == a[j];
        assert(b[i].contains(e));
    }
}

impl BicliqueCover {
    /// Whether the bicliques stand in canonical order.
    pub open spec fn wf(&self) -> bool {
        canonical(self@)
    }

    /// The cover of `g` that is made of `elements`, in canonical order.
    pub(crate) fn new(g: &Bigraph, elements: Vec<Biclique>) -> (cover: Self)
        requires
            g.is_cover(sides_of(elements@)),
        ensures
            cover.wf(),
            g.is_cover(cover@),
            cover@.to_multiset() == sides_of(elements@).to_multiset(),
    {
        let ghost given = sides_of(elements@);
        let mut this = BicliqueCover { elements };
        this.canonicalize();
        proof {
            lemma_cover_of_same_members(g, given, this@);
        }
        this
    }

    /// Puts the bicliques in canonical order. A cover that is in canonical
    /// order stays as it is.
    pub fn canonicalize(&mut self)
        ensures
            final(self).wf(),
            final(self)@.to_multiset() == old(self)@.to_multiset(),
            old(self).wf() ==> final(self)@ == old(self)@,
    {
        let n = self.elements.len();
        proof {
            assert(self.elements@.take(n as int) =~= self.elements@);
        }
        biclique_sort(&mut self.elements, n);
        proof {
            assert(self.elements@.take(n as int) =~= self.elements@);
            if old(self).wf() {
                lemma_canonical_unique(self@, old(self)@);
            }
        }
    }

    /// The bicliques, in canonical order.
    pub fn cliques(&self) -> (cliques: &[Biclique])
        ensures
            sides_of(cliques@) == self@,
    {
        self.elements.as_slice()
    }

    /// The cover as text: each biclique as the digits of its left side (one
    /// digit per left vertex of `g`, `1` for a member), a bar and the digits
    /// of its right side; a space between two bicliques.
    pub fn print(&self, g: &Bigraph) -> (s: String)
        ensures
            s@ == printed(self@, g.spec_left() as nat, g.spec_right() as nat),
    {
        let ghost left = g.spec_left() as nat;
        let ghost right = g.spec_right() as nat;
        let mut s = String::new();
        let mut n: usize = 0;
        while n < self.elements.len()
            invariant
                n <= self.elements@.len(),
                left == g.spec_left(),
                right == g.spec_right(),
                s@ == printed_each(self@.take(n as int), left, right),
            decreases self.elements@.len() - n,
        {
            let c = &self.elements[n];
            let ghost start = s@;
            let mut i: u32 = 0;
            while i < g.left()
                invariant
                    i <= g.spec_left(),
                    left == g.spec_left(),
                    s@ == start + digits(c@.left, i as nat),
                decreases g.spec_left() - i,
            {
                if set32_get(&c.left, i) {
                    s.push('1');
                } else {
                    s.push('0');
                }
                proof {
                    assert(digits(c@.left, (i + 1) as nat) =~= digits(c@.left, i as nat).push(
                        if c@.left.contains(i) {
                            '1'
                        } else {
                            '0'
                        },
                    ));
                    assert(s@ =~= start + digits(c@.left, (i + 1) as nat));
                }
                i = i + 1;
            }
            s.push('|');
            let ghost bar = s@;
            let mut i: u32 = 0;
            while i < g.right()
                invariant
                    i <= g.spec_right(),
                    right == g.spec_right(),
                    s@ == bar + digits(c@.right, i as nat),
                decreases g.spec_right() - i,
            {
                if set32_get(&c.right, i) {
                    s.push('1');
                } else {
                    s.push('0');
                }
                proof {
                    assert(digits(c@.right, (i + 1) as nat) =~= digits(c@.right, i as nat).push(
                        if c@.right.contains(i) {
                            '1'
                        } else {
                            '0'
                        },
                    ));
                    assert(s@ =~= bar + digits(c@.right, (i + 1) as nat));
                }
                i = i + 1;
            }
            s.push(' ');
            proof {
                let cs = self@.take(n + 1);
                assert(cs.drop_last() =~= self@.take(n as int));
                assert(cs.last() == c@);
                assert(s@ =~= printed_each(cs, left, right));
            }
            n = n + 1;
        }
        proof {
            assert(self@.take(n as int) =~= self@);
        }
        s.pop();
        s
    }
}

impl Bigraph {
    /// Whether every biclique of `cover` is maximal.
    pub fn is_maximal_cover(&self, cover: &BicliqueCover) -> (r: bool)
        requires
            self.wf(),
            forall|i: int| 0 <= i < cover@.len() ==> self.bounds(#[trigger] cover@[i]),
        ensures
            r == forall|i: int| 0 <= i < cover@.len() ==> self.spec_is_maximal(#[trigger] cover@[i]),
    {
        let cliques = cover.cliques();
        let mut n: usize = 0;
        while n < cliques.len()
            invariant
                self.wf(),
                n <= cliques@.len(),
                sides_of(cliques@) == cover@,
                forall|i: int| 0 <= i < cover@.len() ==> self.bounds(#[trigger] cover@[i]),
                forall|i: int| 0 <= i < n ==> self.spec_is_maximal(#[trigger] cover@[i]),
            decreases cliques@.len() - n,
        {
            proof {
                assert(cover@[n as int] == cliques@[n as int]@);
            }
            if !self.is_maximal(&cliques[n]) {
                return false;
            }
            n = n + 1;
        }
        true
    }
}

} // verus!
