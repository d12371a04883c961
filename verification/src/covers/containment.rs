//! The store of partial covers that the search has left behind.
//!
//! A layer whose bicliques contain a stored partial cover, member by member,
//! lies in a part of the search that has been gone through, and is dropped.

use crate::biclique::{sides_of, Biclique, Sides};
use crate::bitset::{set_add, set_new};
use crate::covers::matching::{has_matching, sets_of, solve_superset};
use crate::graph::Bigraph;
use crate::order::{biclique_sort, canonical, first_sides};
use tindex::TBitSet;
use vstd::prelude::*;

verus! {

/// `slice::swap`: the elements at `a` and `b` change places.
pub assume_specification<Elem>[ <[Elem]>::swap ](slice: &mut [Elem], a: usize, b: usize)
    requires
        a < old(slice)@.len(),
        b < old(slice)@.len(),
    ensures
        final(slice)@ == old(slice)@.update(a as int, old(slice)@[b as int]).update(
            b as int,
            old(slice)@[a as int],
        ),
;

/// A partial cover as it is stored: first its maximal bicliques, in
/// canonical order, then the others that have a vertex, then the empty ones.
#[derive(Debug)]
pub struct Entry {
    pub(crate) data: Vec<Biclique>,
    pub(crate) maximal: usize,
    pub(crate) empty: usize,
}

/// The places in `data` that can stand for each member of `want`: those of
/// the bicliques with a vertex that contain it.
pub open spec fn options(data: Seq<Sides>, want: Seq<Sides>) -> Seq<Set<usize>> {
    Seq::new(
        want.len(),
        |j: int|
            Set::new(
                |i: usize|
                    i < data.len() && !data[i as int].is_empty() && data[i as int].contains_clique(
                        want[j],
                    ),
            ),
    )
}

/// Whether every one of the first `n` members of `want` is a member of
/// `data`.
pub open spec fn found_in(data: Seq<Sides>, want: Seq<Sides>, n: int) -> bool {
    forall|i: int| 0 <= i < n ==> data.contains(#[trigger] want[i])
}

/// Whether every member of `want` from place `from` up to place `to` lies
/// within some member of `data`.
pub open spec fn held_in(data: Seq<Sides>, want: Seq<Sides>, from: int, to: int) -> bool {
    forall|i: int| from <= i < to ==> holds(data, #[trigger] want[i])
}

/// Whether `c` lies within some member of `data`.
pub open spec fn holds(data: Seq<Sides>, c: Sides) -> bool {
    exists|j: int| 0 <= j < data.len() && (#[trigger] data[j]).contains_clique(c)
}

/// Whether each member of `now` holds the member of `first` at its place.
pub open spec fn grown(now: Seq<Sides>, first: Seq<Sides>) -> bool {
    &&& now.len() == first.len()
    &&& forall|i: int| 0 <= i < now.len() ==> (#[trigger] now[i]).contains_clique(first[i])
}

impl Entry {
    /// The stored bicliques.
    pub open(crate) spec fn members(&self) -> Seq<Sides> {
        sides_of(self.data@)
    }

    /// The number of maximal bicliques, which come first.
    pub open(crate) spec fn spec_maximal(&self) -> nat {
        self.maximal as nat
    }

    /// The place of the first empty biclique that is not maximal.
    pub open(crate) spec fn spec_empty(&self) -> nat {
        self.empty as nat
    }

    /// Whether the bicliques are stored as they should be with respect to
    /// `g`: the maximal ones first and in canonical order, the empty ones
    /// among the others last.
    pub open(crate) spec fn wf(&self, g: &Bigraph) -> bool {
        &&& self.maximal <= self.empty <= self.data@.len()
        &&& forall|i: int| 0 <= i < self.members().len() ==> g.bounds(#[trigger] self.members()[i])
        &&& forall|i: int| 0 <= i < self.maximal ==> g.spec_is_maximal(#[trigger] self.members()[i])
        &&& forall|i: int|
            self.maximal <= i < self.members().len() ==> !g.spec_is_maximal(
                #[trigger] self.members()[i],
            )
        &&& forall|i: int| self.maximal <= i < self.empty ==> !(#[trigger] self.members()[i]).is_empty()
        &&& forall|i: int|
            self.empty <= i < self.members().len() ==> (#[trigger] self.members()[i]).is_empty()
        &&& canonical(self.members().take(self.maximal as int))
    }

    /// The bicliques that are not maximal and have a vertex.
    pub open(crate) spec fn spec_tail(&self) -> Seq<Sides> {
        self.members().subrange(self.maximal as int, self.empty as int)
    }

    /// Whether the bicliques `data` contain this partial cover: each of its
    /// maximal bicliques is one of `data`; and the others with a vertex can
    /// each be given a biclique of `data` that contains it, none of them
    /// twice.
    pub open(crate) spec fn within(&self, data: Seq<Sides>) -> bool {
        &&& found_in(data, self.members(), self.maximal as int)
        &&& held_in(data, self.members(), self.maximal as int, self.empty as int)
        &&& has_matching(options(data, self.spec_tail()))
    }

    /// Stores the bicliques `data`.
    pub fn new(g: &Bigraph, data: Vec<Biclique>) -> (entry: Entry)
        requires
            g.wf(),
            forall|i: int| 0 <= i < data@.len() ==> g.bounds(#[trigger] sides_of(data@)[i]),
        ensures
            entry.wf(g),
            entry.members().to_multiset() == sides_of(data@).to_multiset(),
    {
        let ghost given = sides_of(data@);
        let mut data = data;
        let mut maximal: usize = 0;
        let mut i: usize = 0;
        while i < data.len()
            invariant
                g.wf(),
                maximal <= i <= data@.len(),
                sides_of(data@).to_multiset() == given.to_multiset(),
                forall|j: int| 0 <= j < data@.len() ==> g.bounds(#[trigger] sides_of(data@)[j]),
                forall|j: int| 0 <= j < maximal ==> g.spec_is_maximal(#[trigger] sides_of(data@)[j]),
                forall|j: int| maximal <= j < i ==> !g.spec_is_maximal(#[trigger] sides_of(data@)[j]),
            decreases data@.len() - i,
        {
            proof {
                assert(sides_of(data@)[i as int] == data@[i as int]@);
            }
            if g.is_maximal(&data[i]) {
                let ghost before = data@;
                data.swap(i, maximal);
                proof {
                    lemma_swap_sides(before, i as int, maximal as int, data@);
                }
                maximal = maximal + 1;
            }
            i = i + 1;
        }
        let mut empty: usize = data.len();
        let mut i: usize = data.len();
        while i > maximal
            invariant
                g.wf(),
                maximal <= i <= empty <= data@.len(),
                sides_of(data@).to_multiset() == given.to_multiset(),
                forall|j: int| 0 <= j < data@.len() ==> g.bounds(#[trigger] sides_of(data@)[j]),
                forall|j: int| 0 <= j < maximal ==> g.spec_is_maximal(#[trigger] sides_of(data@)[j]),
                forall|j: int|
                    maximal <= j < data@.len() ==> !g.spec_is_maximal(#[trigger] sides_of(data@)[j]),
                forall|j: int| i <= j < empty ==> !(#[trigger] sides_of(data@)[j]).is_empty(),
                forall|j: int| empty <= j < data@.len() ==> (#[trigger] sides_of(data@)[j]).is_empty(),
            decreases i,
        {
            i = i - 1;
            proof {
                assert(sides_of(data@)[i as int] == data@[i as int]@);
            }
            if data[i].is_empty() {
                empty = empty - 1;
                let ghost before = data@;
                data.swap(i, empty);
                proof {
                    lemma_swap_sides(before, i as int, empty as int, data@);
                }
            }
        }
        let ghost before = data@;
        biclique_sort(&mut data, maximal);
        proof {
            lemma_sorted_front(g, before, data@, maximal);
        }
        Entry { data, maximal, empty }
    }

    /// The maximal bicliques, in canonical order.
    pub fn maximal(&self) -> (cliques: &[Biclique])
        requires
            self.spec_maximal() <= self.members().len(),
        ensures
            sides_of(cliques@) == self.members().take(self.spec_maximal() as int),
    {
        let cliques = &self.data.as_slice()[0..self.maximal];
        proof {
            assert(sides_of(cliques@) =~= self.members().take(self.maximal as int));
        }
        cliques
    }

    /// The bicliques that are not maximal and have a vertex.
    pub fn tail(&self) -> (cliques: &[Biclique])
        requires
            self.spec_maximal() <= self.spec_empty() <= self.members().len(),
        ensures
            sides_of(cliques@) == self.spec_tail(),
    {
        let cliques = &self.data.as_slice()[self.maximal..self.empty];
        proof {
            assert(sides_of(cliques@) =~= self.spec_tail());
        }
        cliques
    }

    /// The number of empty bicliques among those that are not maximal.
    pub fn empty(&self) -> (n: usize)
        requires
            self.spec_empty() <= self.members().len(),
        ensures
            n == self.members().len() - self.spec_empty(),
    {
        self.data.len() - self.empty
    }
}

/// After two members change places the list has the members it had.
pub proof fn lemma_swap_sides(before: Seq<Biclique>, a: int, b: int, after: Seq<Biclique>)
    requires
        0 <= a < before.len(),
        0 <= b < before.len(),
        after == before.update(a, before[b]).update(b, before[a]),
    ensures
        sides_of(after).to_multiset() == sides_of(before).to_multiset(),
        sides_of(after) == sides_of(before).update(a, sides_of(before)[b]).update(
            b,
            sides_of(before)[a],
        ),
{
    let x = sides_of(before);
    let y = sides_of(after);
    assert(y =~= x.update(a, x[b]).update(b, x[a]));
    if a == b {
        assert(y =~= x);
    } else {
        let mid = x.update(a, x[b]);
        vstd::seq_lib::to_multiset_update(x, a, x[b]);
        vstd::seq_lib::to_multiset_update(mid, b, x[a]);
        vstd::seq_lib::to_multiset_contains(x, x[a]);
        vstd::seq_lib::to_multiset_contains(x, x[b]);
        assert(x.contains(x[a]) && x.contains(x[b]));
        assert(y.to_multiset() =~= x.to_multiset());
    }
}

/// Putting the maximal bicliques at the front in order keeps what the rest
/// of the list says, and the members of the list.
pub proof fn lemma_sorted_front(g: &Bigraph, before: Seq<Biclique>, after: Seq<Biclique>, n: usize)
    requires
        n <= before.len(),
        after.len() == before.len(),
        forall|i: int| n <= i < after.len() ==> after[i] == before[i],
        first_sides(after, n).to_multiset() == first_sides(before, n).to_multiset(),
        forall|j: int| 0 <= j < before.len() ==> g.bounds(#[trigger] sides_of(before)[j]),
        forall|j: int| 0 <= j < n ==> g.spec_is_maximal(#[trigger] sides_of(before)[j]),
    ensures
        sides_of(after).to_multiset() == sides_of(before).to_multiset(),
        forall|j: int| 0 <= j < after.len() ==> g.bounds(#[trigger] sides_of(after)[j]),
        forall|j: int| 0 <= j < n ==> g.spec_is_maximal(#[trigger] sides_of(after)[j]),
        forall|j: int| n <= j < after.len() ==> sides_of(after)[j] == sides_of(before)[j],
        sides_of(after).take(n as int) == first_sides(after, n),
{
    broadcast use vstd::seq_lib::group_to_multiset_ensures;

    let x = sides_of(before);
    let y = sides_of(after);
    let xf = first_sides(before, n);
    let yf = first_sides(after, n);
    assert(x.take(n as int) =~= xf);
    assert(y.take(n as int) =~= yf);
    assert(x.skip(n as int) =~= y.skip(n as int));
    assert(x =~= xf + x.skip(n as int));
    assert(y =~= yf + y.skip(n as int));
    vstd::seq_lib::lemma_multiset_commutative(xf, x.skip(n as int));
    vstd::seq_lib::lemma_multiset_commutative(yf, y.skip(n as int));
    assert forall|j: int| 0 <= j < n implies g.spec_is_maximal(#[trigger] y[j]) && g.bounds(
        y[j],
    ) by {
        assert(yf[j] == y[j]);
        assert(yf.contains(yf[j]));
        assert(yf.to_multiset().count(yf[j]) > 0);
        assert(xf.contains(yf[j]));
        let i = choose|i: int| 0 <= i < xf.len() && xf[i] == yf[j];
        assert(xf[i] == x[i]);
    }
    assert forall|j: int| 0 <= j < after.len() implies g.bounds(#[trigger] y[j]) by {
        if j >= n {
            assert(y[j] == x[j]);
        }
    }
}

/// Whether `data` holds each maximal biclique of `entry` as it is, and each
/// other biclique of `entry` with a vertex within one of its own.
pub fn contains_reject(data: &[Biclique], entry: &Entry) -> (r: bool)
    requires
        entry.spec_maximal() <= entry.spec_empty() <= entry.members().len(),
    ensures
        r == (found_in(sides_of(data@), entry.members(), entry.spec_maximal() as int) && held_in(
            sides_of(data@),
            entry.members(),
            entry.spec_maximal() as int,
            entry.spec_empty() as int,
        )),
{
    let ghost have = sides_of(data@);
    let ghost want = entry.members();
    let maximal = entry.maximal();
    proof {
        assert(sides_of(maximal@).len() == maximal@.len());
    }
    let mut i: usize = 0;
    while i < maximal.len()
        invariant
            have == sides_of(data@),
            want == entry.members(),
            sides_of(maximal@) == want.take(entry.spec_maximal() as int),
            maximal@.len() == entry.spec_maximal(),
            entry.spec_maximal() <= want.len(),
            i <= maximal@.len(),
            found_in(have, want, i as int),
        decreases maximal@.len() - i,
    {
        proof {
            assert(sides_of(maximal@)[i as int] == want[i as int]);
        }
        let mut found = false;
        let mut q: usize = 0;
        while q < data.len() && !found
            invariant
                have == sides_of(data@),
                i < maximal@.len(),
                maximal@[i as int]@ == want[i as int],
                q <= data@.len(),
                !found ==> forall|p: int| 0 <= p < q ==> have[p] != want[i as int],
                found ==> have.contains(want[i as int]),
            decreases data@.len() - q + (if found { 0int } else { 1int }),
        {
            if data[q] == maximal[i] {
                found = true;
                proof {
                    assert(have[q as int] == want[i as int]);
                }
            } else {
                q = q + 1;
            }
        }
        if !found {
            proof {
                assert(!have.contains(want[i as int]));
            }
            return false;
        }
        i = i + 1;
    }
    let tail = entry.tail();
    let ghost from = entry.spec_maximal() as int;
    proof {
        assert(sides_of(tail@).len() == tail@.len());
    }
    let mut i: usize = 0;
    while i < tail.len()
        invariant
            have == sides_of(data@),
            want == entry.members(),
            sides_of(tail@) == entry.spec_tail(),
            tail@.len() == entry.spec_empty() - entry.spec_maximal(),
            from == entry.spec_maximal(),
            entry.spec_maximal() <= entry.spec_empty() <= want.len(),
            i <= tail@.len(),
            found_in(have, want, from),
            held_in(have, want, from, from + i),
        decreases tail@.len() - i,
    {
        proof {
            assert(sides_of(tail@)[i as int] == want[from + i]);
        }
        let mut found = false;
        let mut q: usize = 0;
        while q < data.len() && !found
            invariant
                have == sides_of(data@),
                i < tail@.len(),
                tail@[i as int]@ == want[from + i],
                q <= data@.len(),
                !found ==> forall|p: int|
                    0 <= p < q ==> !(#[trigger] have[p]).contains_clique(want[from + i]),
                found ==> holds(have, want[from + i]),
            decreases data@.len() - q + (if found { 0int } else { 1int }),
        {
            if data[q].contains_clique(&tail[i]) {
                found = true;
                proof {
                    assert(have[q as int].contains_clique(want[from + i]));
                }
            } else {
                q = q + 1;
            }
        }
        if !found {
            proof {
                assert(!holds(have, want[from + i]));
            }
            return false;
        }
        i = i + 1;
    }
    true
}

/// Whether the bicliques of `entry` that are not maximal and have a vertex
/// can each be given a biclique of `data` with a vertex that contains it,
/// none of them twice.
pub fn contains_slow(data: &[Biclique], entry: &Entry) -> (r: bool)
    requires
        entry.spec_maximal() <= entry.spec_empty() <= entry.members().len(),
    ensures
        r == has_matching(options(sides_of(data@), entry.spec_tail())),
{
    let ghost have = sides_of(data@);
    let ghost want = entry.spec_tail();
    let tail = entry.tail();
    proof {
        assert(sides_of(tail@).len() == tail@.len());
    }
    let mut superset: Vec<TBitSet<usize>> = Vec::new();
    let mut j: usize = 0;
    while j < tail.len()
        invariant
            j <= tail@.len(),
            superset@.len() == j,
            forall|p: int|
                0 <= p < j ==> crate::bitset::members(#[trigger] superset@[p]) == Set::<
                    usize,
                >::empty(),
        decreases tail@.len() - j,
    {
        superset.push(set_new());
        j = j + 1;
    }
    let mut i: usize = 0;
    while i < data.len()
        invariant
            have == sides_of(data@),
            want == sides_of(tail@),
            want.len() == tail@.len(),
            i <= data@.len(),
            superset@.len() == tail@.len(),
            forall|p: int, q: usize|
                #![trigger sets_of(superset@)[p].contains(q)]
                0 <= p < tail@.len() ==> (sets_of(superset@)[p].contains(q) <==> q < i && options(
                    have,
                    want,
                )[p].contains(q)),
        decreases data@.len() - i,
    {
        proof {
            assert(have[i as int] == data@[i as int]@);
        }
        if !data[i].is_empty() {
            let mut j: usize = 0;
            while j < tail.len()
                invariant
                    have == sides_of(data@),
                    want == sides_of(tail@),
                    want.len() == tail@.len(),
                    i < data@.len(),
                    j <= tail@.len(),
                    !have[i as int].is_empty(),
                    superset@.len() == tail@.len(),
                    forall|p: int, q: usize|
                        #![trigger sets_of(superset@)[p].contains(q)]
                        0 <= p < tail@.len() ==> (sets_of(superset@)[p].contains(q) <==> (q < i || (
                        q == i && p < j)) && options(have, want)[p].contains(q)),
                decreases tail@.len() - j,
            {
                proof {
                    assert(want[j as int] == tail@[j as int]@);
                }
                if data[i].contains_clique(&tail[j]) {
                    let ghost before = sets_of(superset@);
                    set_add(&mut superset[j], i);
                    proof {
                        assert(sets_of(superset@) =~= before.update(
                            j as int,
                            before[j as int].insert(i),
                        ));
                    }
                }
                j = j + 1;
            }
        }
        i = i + 1;
    }
    proof {
        assert(sets_of(superset@) =~= options(have, want)) by {
            assert forall|p: int| 0 <= p < tail@.len() implies sets_of(superset@)[p] =~= options(
                have,
                want,
            )[p] by {}
        }
    }
    solve_superset(superset)
}

/// Whether the bicliques `data` contain the partial cover `entry`.
pub fn contains(data: &[Biclique], entry: &Entry) -> (r: bool)
    requires
        entry.spec_maximal() <= entry.spec_empty() <= entry.members().len(),
    ensures
        r == entry.within(sides_of(data@)),
{
    contains_reject(data, entry) && contains_slow(data, entry)
}

/// A copy of the bicliques `data`.
pub fn copy_cliques(data: &[Biclique]) -> (r: Vec<Biclique>)
    ensures
        sides_of(r@) == sides_of(data@),
{
    let mut r: Vec<Biclique> = Vec::new();
    let mut i: usize = 0;
    while i < data.len()
        invariant
            i <= data@.len(),
            r@.len() == i,
            forall|j: int| 0 <= j < i ==> (#[trigger] r@[j])@ == data@[j]@,
        decreases data@.len() - i,
    {
        r.push(data[i].clone());
        i = i + 1;
    }
    proof {
        assert(sides_of(r@) =~= sides_of(data@));
    }
    r
}

/// The store of partial covers that the search has left behind, and the
/// partial covers that it is in at the moment.
///
/// Every layer that the search is in has a frame: the bicliques that it had
/// when the search went into it, and the number of partial covers that were
/// stored at that time. When the search leaves the layer, those bicliques
/// are stored in place of what was stored since.
#[derive(Debug)]
pub struct Containment {
    pub(crate) entries: Vec<Entry>,
    pub(crate) layers: Vec<(usize, Vec<Biclique>)>,
}

impl Containment {
    /// The partial covers that are stored.
    pub open(crate) spec fn stored(&self) -> Seq<Entry> {
        self.entries@
    }

    /// The number of layers that the search is in.
    pub open(crate) spec fn depth(&self) -> nat {
        self.layers@.len()
    }

    /// The number of partial covers that were stored when the search went
    /// into layer `i`.
    pub open(crate) spec fn mark(&self, i: int) -> nat {
        self.layers@[i].0 as nat
    }

    /// The bicliques that layer `i` had when the search went into it.
    pub open(crate) spec fn frame(&self, i: int) -> Seq<Sides> {
        sides_of(self.layers@[i].1@)
    }

    /// The invariant: the stored partial covers are well formed; the frames
    /// hold vertices of `g` only; and no frame remembers more stored partial
    /// covers than there are, nor more than a later frame does.
    pub open(crate) spec fn wf(&self, g: &Bigraph) -> bool {
        &&& forall|i: int| 0 <= i < self.stored().len() ==> (#[trigger] self.stored()[i]).wf(g)
        &&& forall|i: int| 0 <= i < self.depth() ==> #[trigger] self.mark(i) <= self.stored().len()
        &&& forall|i: int, j: int| 0 <= i < j < self.depth() ==> self.mark(i) <= self.mark(j)
        &&& forall|i: int, j: int|
            0 <= i < self.depth() && 0 <= j < self.frame(i).len() ==> g.bounds(
                #[trigger] self.frame(i)[j],
            )
    }

    /// Whether a stored partial cover says that bicliques `data` need not be
    /// searched: `data` contains it.
    pub open(crate) spec fn discards(&self, data: Seq<Sides>) -> bool {
        exists|i: int| 0 <= i < self.stored().len() && (#[trigger] self.stored()[i]).within(data)
    }

    /// An empty store, with the search in a first layer whose bicliques are
    /// `init`.
    pub fn init(g: &Bigraph, init: &[Biclique]) -> (c: Containment)
        requires
            forall|j: int| 0 <= j < init@.len() ==> g.bounds(#[trigger] sides_of(init@)[j]),
        ensures
            c.wf(g),
            c.stored().len() == 0,
            c.depth() == 1,
            c.mark(0) == 0,
            c.frame(0) == sides_of(init@),
    {
        let mut c = Containment { entries: Vec::new(), layers: Vec::new() };
        c.reinit(g, init);
        c
    }

    /// Empties the store, and puts the search in a first layer whose
    /// bicliques are `init`.
    pub fn reinit(&mut self, g: &Bigraph, init: &[Biclique])
        requires
            old(self).depth() == 0,
            forall|j: int| 0 <= j < init@.len() ==> g.bounds(#[trigger] sides_of(init@)[j]),
        ensures
            final(self).wf(g),
            final(self).stored().len() == 0,
            final(self).depth() == 1,
            final(self).mark(0) == 0,
            final(self).frame(0) == sides_of(init@),
    {
        self.entries.clear();
        self.layers.push((0, copy_cliques(init)));
    }

    /// Goes into a layer whose bicliques are `data`, unless a stored partial
    /// cover says that it need not be searched. Says whether it went in.
    pub fn start_layer(&mut self, g: &Bigraph, data: &[Biclique]) -> (r: bool)
        requires
            old(self).wf(g),
            forall|j: int| 0 <= j < data@.len() ==> g.bounds(#[trigger] sides_of(data@)[j]),
        ensures
            r == !old(self).discards(sides_of(data@)),
            final(self).wf(g),
            final(self).stored() == old(self).stored(),
            !r ==> *final(self) == *old(self),
            r ==> final(self).depth() == old(self).depth() + 1 && final(self).mark(
                old(self).depth() as int,
            ) == old(self).stored().len() && final(self).frame(old(self).depth() as int)
                == sides_of(data@) && forall|i: int|
                0 <= i < old(self).depth() ==> final(self).mark(i) == old(self).mark(i)
                    && final(self).frame(i) == old(self).frame(i),
    {
        if self.should_discard(g, data) {
            return false;
        }
        let ghost before = *self;
        self.layers.push((self.entries.len(), copy_cliques(data)));
        proof {
            assert forall|i: int| 0 <= i < before.depth() implies self.mark(i) == before.mark(i)
                && self.frame(i) == before.frame(i) by {
                assert(self.layers@[i] == before.layers@[i]);
            }
            assert forall|i: int, j: int| 0 <= i < j < self.depth() implies self.mark(i)
                <= self.mark(j) by {
                if j < before.depth() {
                    assert(before.mark(i) <= before.mark(j));
                } else {
                    assert(before.mark(i) <= before.stored().len());
                }
            }
            assert forall|i: int, j: int|
                0 <= i < self.depth() && 0 <= j < self.frame(i).len() implies g.bounds(
                #[trigger] self.frame(i)[j],
            ) by {
                if i < before.depth() {
                    assert(g.bounds(before.frame(i)[j]));
                } else {
                    assert(self.frame(i)[j] == sides_of(data@)[j]);
                }
            }
            assert forall|i: int| 0 <= i < self.stored().len() implies (#[trigger] self.stored()[i]).wf(
                g,
            ) by {
                assert(before.stored()[i].wf(g));
            }
            assert forall|i: int| 0 <= i < self.depth() implies #[trigger] self.mark(i)
                <= self.stored().len() by {
                if i < before.depth() {
                    assert(before.mark(i) <= before.stored().len());
                }
            }
        }
        true
    }

    /// Leaves the layer that the search went into last: the bicliques that
    /// it had then are stored, in place of every partial cover that was
    /// stored since. The bicliques `data` that it has now, which have grown
    /// from those, are not stored.
    pub fn finish_layer(&mut self, g: &Bigraph, data: Vec<Biclique>)
        requires
            g.wf(),
            old(self).wf(g),
            old(self).depth() > 0,
            grown(sides_of(data@), old(self).frame(old(self).depth() - 1)),
        ensures
            final(self).wf(g),
            final(self).depth() == old(self).depth() - 1,
            forall|i: int|
                0 <= i < final(self).depth() ==> final(self).mark(i) == old(self).mark(i)
                    && final(self).frame(i) == old(self).frame(i),
            final(self).stored().len() == old(self).mark(old(self).depth() - 1) + 1,
            forall|i: int|
                0 <= i < final(self).stored().len() - 1 ==> final(self).stored()[i] == old(
                    self,
                ).stored()[i],
            final(self).stored().last().members().to_multiset() == old(self).frame(
                old(self).depth() - 1,
            ).to_multiset(),
    {
        let ghost before = *self;
        let ghost top = self.depth() - 1;
        proof {
            assert(self.mark(top) <= self.stored().len());
        }
        match self.layers.pop() {
            Some((start, clique)) => {
                proof {
                    assert(before.layers@[top] == (start, clique));
                    assert forall|i: int| 0 <= i < clique@.len() implies g.bounds(
                        #[trigger] sides_of(clique@)[i],
                    ) by {
                        assert(g.bounds(before.frame(top)[i]));
                    }
                }
                let entry = Entry::new(g, clique);
                self.entries.truncate(start);
                self.entries.push(entry);
                proof {
                    assert forall|i: int| 0 <= i < self.depth() implies self.mark(i) == before.mark(
                        i,
                    ) && self.frame(i) == before.frame(i) by {
                        assert(self.layers@[i] == before.layers@[i]);
                    }
                    assert forall|i: int| 0 <= i < self.stored().len() implies (
                    #[trigger] self.stored()[i]).wf(g) by {
                        if i < start {
                            assert(before.stored()[i].wf(g));
                        }
                    }
                    assert forall|i: int| 0 <= i < self.depth() implies #[trigger] self.mark(i)
                        <= self.stored().len() by {
                        assert(before.mark(i) <= before.mark(top));
                    }
                    assert forall|i: int, j: int| 0 <= i < j < self.depth() implies self.mark(i)
                        <= self.mark(j) by {
                        assert(before.mark(i) <= before.mark(j));
                    }
                    assert forall|i: int, j: int|
                        0 <= i < self.depth() && 0 <= j < self.frame(i).len() implies g.bounds(
                        #[trigger] self.frame(i)[j],
                    ) by {
                        assert(g.bounds(before.frame(i)[j]));
                    }
                }
            },
            None => {},
        }
    }

    /// Whether a stored partial cover says that bicliques `data` need not be
    /// searched.
    pub fn should_discard(&mut self, g: &Bigraph, data: &[Biclique]) -> (r: bool)
        requires
            old(self).wf(g),
        ensures
            *final(self) == *old(self),
            r == old(self).discards(sides_of(data@)),
    {
        let ghost have = sides_of(data@);
        let mut n: usize = 0;
        while n < self.entries.len()
            invariant
                *self == *old(self),
                self.wf(g),
                have == sides_of(data@),
                n <= self.entries@.len(),
                forall|i: int| 0 <= i < n ==> !(#[trigger] self.stored()[i]).within(have),
            decreases self.entries@.len() - n,
        {
            proof {
                assert(self.stored()[n as int].wf(g));
            }
            if contains(data, &self.entries[n]) {
                return true;
            }
            n = n + 1;
        }
        false
    }
}

} // verus!
