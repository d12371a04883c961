//! The search for covers.
//!
//! For each size in turn the search starts from the layer that the forced
//! edges seed, and goes through a stack of layers: the layer on top is filled
//! in as far as it must be; where a choice is left, the layer is split in
//! two. A layer that covers the graph is handed on as a cover, after every
//! cover that can be had from it by putting more edges into its bicliques.

pub mod containment;
pub mod layer;
pub mod matching;

use crate::biclique::{sides_of, Biclique, Sides};
use crate::bitset::{
    members32, set32_add, set32_items, set32_new, set32_remove, set_clear, set_items,
};
use crate::cover::BicliqueCover;
use crate::forced::pairwise_apart;
use crate::covers::containment::{copy_cliques, grown, Containment};
use crate::covers::layer::{
    among, fits, lemma_among_step, lemma_grown_same, lemma_grown_twice, lemma_same_state, seed,
    seeds, Layer,
};
use crate::graph::{Bigraph, Edge};
use std::ops::ControlFlow;
use tindex::TBitSet;
use vstd::prelude::*;

verus! {

/// The left vertices that are joined to every right vertex that all of the
/// left side of `side` is joined to: the left side of `side` at its fullest.
pub open spec fn full_left(g: &Bigraph, side: Sides) -> Set<u32> {
    Set::new(
        |x: u32|
            x < g.spec_left() && forall|y: u32|
                y < g.spec_right() && g.column_fits(side, y) ==> g.has_edge(Edge(x, y)),
    )
}

/// The right vertices that are joined to every left vertex that all of the
/// right side of `side` is joined to: the right side of `side` at its
/// fullest.
pub open spec fn full_right(g: &Bigraph, side: Sides) -> Set<u32> {
    Set::new(
        |y: u32|
            y < g.spec_right() && forall|x: u32|
                x < g.spec_left() && g.row_fits(side, x) ==> g.has_edge(Edge(x, y)),
    )
}

/// The right vertices that every left vertex of `clique` is joined to.
fn common_right(g: &Bigraph, clique: &Biclique) -> (maximal: TBitSet<u32>)
    requires
        g.wf(),
        g.bounds(clique@),
    ensures
        members32(maximal) == Set::new(|y: u32| y < g.spec_right() && g.column_fits(clique@, y)),
{
    let mut maximal = set32_new();
    let mut y: u32 = 0;
    while y < g.right()
        invariant
            y <= g.spec_right(),
            members32(maximal) == Set::new(|o: u32| o < y),
        decreases g.spec_right() - y,
    {
        set32_add(&mut maximal, y);
        proof {
            assert(members32(maximal) =~= Set::new(|o: u32| o < y + 1));
        }
        y = y + 1;
    }
    let xs = set32_items(&clique.left);
    let mut n: usize = 0;
    while n < xs.len()
        invariant
            g.wf(),
            g.bounds(clique@),
            n <= xs@.len(),
            forall|i: int| 0 <= i < xs@.len() ==> clique@.left.contains(#[trigger] xs@[i]),
            members32(maximal) == Set::new(
                |o: u32|
                    o < g.spec_right() && forall|i: int|
                        0 <= i < n ==> g.has_edge(Edge(#[trigger] xs@[i], o)),
            ),
        decreases xs@.len() - n,
    {
        let x = xs[n];
        let ghost top = members32(maximal);
        let mut y: u32 = 0;
        while y < g.right()
            invariant
                g.wf(),
                x < g.spec_left(),
                y <= g.spec_right(),
                members32(maximal) == Set::new(
                    |o: u32| top.contains(o) && (o < y ==> g.has_edge(Edge(x, o))),
                ),
            decreases g.spec_right() - y,
        {
            if !g.get(Edge(x, y)) {
                set32_remove(&mut maximal, y);
            }
            proof {
                assert(members32(maximal) =~= Set::new(
                    |o: u32| top.contains(o) && (o < y + 1 ==> g.has_edge(Edge(x, o))),
                ));
            }
            y = y + 1;
        }
        proof {
            assert(members32(maximal) =~= Set::new(
                |o: u32|
                    o < g.spec_right() && forall|i: int|
                        0 <= i < n + 1 ==> g.has_edge(Edge(#[trigger] xs@[i], o)),
            )) by {
                assert forall|o: u32| o < g.spec_right() implies ((forall|i: int|
                    0 <= i < n + 1 ==> g.has_edge(Edge(#[trigger] xs@[i], o))) <==> ((forall|
                    i: int,
                |
                    0 <= i < n ==> g.has_edge(Edge(#[trigger] xs@[i], o))) && g.has_edge(
                    Edge(x, o),
                ))) by {
                    if (forall|i: int| 0 <= i < n + 1 ==> g.has_edge(Edge(#[trigger] xs@[i], o))) {
                        assert(g.has_edge(Edge(xs@[n as int], o)));
                    }
                }
            }
        }
        n = n + 1;
    }
    proof {
        assert(members32(maximal) =~= Set::new(
            |y: u32| y < g.spec_right() && g.column_fits(clique@, y),
        )) by {
            assert forall|o: u32| o < g.spec_right() implies ((forall|i: int|
                0 <= i < xs@.len() ==> g.has_edge(Edge(#[trigger] xs@[i], o))) <==> g.column_fits(
                clique@,
                o,
            )) by {
                if (forall|i: int| 0 <= i < xs@.len() ==> g.has_edge(Edge(#[trigger] xs@[i], o))) {
                    assert forall|x: u32| clique@.left.contains(x) implies g.has_edge(
                        Edge(x, o),
                    ) by {
                        let i = choose|i: int| 0 <= i < xs@.len() && xs@[i] == x;
                        assert(g.has_edge(Edge(xs@[i], o)));
                    }
                }
            }
        }
    }
    maximal
}

/// The left vertices that every right vertex of `clique` is joined to.
fn common_left(g: &Bigraph, clique: &Biclique) -> (maximal: TBitSet<u32>)
    requires
        g.wf(),
        g.bounds(clique@),
    ensures
        members32(maximal) == Set::new(|x: u32| x < g.spec_left() && g.row_fits(clique@, x)),
{
    let mut maximal = set32_new();
    let mut x: u32 = 0;
    while x < g.left()
        invariant
            x <= g.spec_left(),
            members32(maximal) == Set::new(|o: u32| o < x),
        decreases g.spec_left() - x,
    {
        set32_add(&mut maximal, x);
        proof {
            assert(members32(maximal) =~= Set::new(|o: u32| o < x + 1));
        }
        x = x + 1;
    }
    let ys = set32_items(&clique.right);
    let mut n: usize = 0;
    while n < ys.len()
        invariant
            g.wf(),
            g.bounds(clique@),
            n <= ys@.len(),
            forall|i: int| 0 <= i < ys@.len() ==> clique@.right.contains(#[trigger] ys@[i]),
            members32(maximal) == Set::new(
                |o: u32|
                    o < g.spec_left() && forall|i: int|
                        0 <= i < n ==> g.has_edge(Edge(o, #[trigger] ys@[i])),
            ),
        decreases ys@.len() - n,
    {
        let y = ys[n];
        let ghost top = members32(maximal);
        let mut x: u32 = 0;
        while x < g.left()
            invariant
                g.wf(),
                y < g.spec_right(),
                x <= g.spec_left(),
                members32(maximal) == Set::new(
                    |o: u32| top.contains(o) && (o < x ==> g.has_edge(Edge(o, y))),
                ),
            decreases g.spec_left() - x,
        {
            if !g.get(Edge(x, y)) {
                set32_remove(&mut maximal, x);
            }
            proof {
                assert(members32(maximal) =~= Set::new(
                    |o: u32| top.contains(o) && (o < x + 1 ==> g.has_edge(Edge(o, y))),
                ));
            }
            x = x + 1;
        }
        proof {
            assert(members32(maximal) =~= Set::new(
                |o: u32|
                    o < g.spec_left() && forall|i: int|
                        0 <= i < n + 1 ==> g.has_edge(Edge(o, #[trigger] ys@[i])),
            )) by {
                assert forall|o: u32| o < g.spec_left() implies ((forall|i: int|
                    0 <= i < n + 1 ==> g.has_edge(Edge(o, #[trigger] ys@[i]))) <==> ((forall|
                    i: int,
                |
                    0 <= i < n ==> g.has_edge(Edge(o, #[trigger] ys@[i]))) && g.has_edge(
                    Edge(o, y),
                ))) by {
                    if (forall|i: int| 0 <= i < n + 1 ==> g.has_edge(Edge(o, #[trigger] ys@[i]))) {
                        assert(g.has_edge(Edge(o, ys@[n as int])));
                    }
                }
            }
        }
        n = n + 1;
    }
    proof {
        assert(members32(maximal) =~= Set::new(
            |x: u32| x < g.spec_left() && g.row_fits(clique@, x),
        )) by {
            assert forall|o: u32| o < g.spec_left() implies ((forall|i: int|
                0 <= i < ys@.len() ==> g.has_edge(Edge(o, #[trigger] ys@[i]))) <==> g.row_fits(
                clique@,
                o,
            )) by {
                if (forall|i: int| 0 <= i < ys@.len() ==> g.has_edge(Edge(o, #[trigger] ys@[i]))) {
                    assert forall|y: u32| clique@.right.contains(y) implies g.has_edge(
                        Edge(o, y),
                    ) by {
                        let i = choose|i: int| 0 <= i < ys@.len() && ys@[i] == y;
                        assert(g.has_edge(Edge(o, ys@[i])));
                    }
                }
            }
        }
    }
    maximal
}

/// Whether left vertex `x` is joined to every one of the right vertices
/// `ys`.
fn joined_left(g: &Bigraph, x: u32, ys: &Vec<u32>) -> (r: bool)
    requires
        g.wf(),
        x < g.spec_left(),
        forall|i: int| 0 <= i < ys@.len() ==> #[trigger] ys@[i] < g.spec_right(),
    ensures
        r == forall|i: int| 0 <= i < ys@.len() ==> g.has_edge(Edge(x, #[trigger] ys@[i])),
{
    let mut n: usize = 0;
    while n < ys.len()
        invariant
            g.wf(),
            x < g.spec_left(),
            n <= ys@.len(),
            forall|i: int| 0 <= i < ys@.len() ==> #[trigger] ys@[i] < g.spec_right(),
            forall|i: int| 0 <= i < n ==> g.has_edge(Edge(x, #[trigger] ys@[i])),
        decreases ys@.len() - n,
    {
        if !g.get(Edge(x, ys[n])) {
            return false;
        }
        n = n + 1;
    }
    true
}

/// Whether right vertex `y` is joined to every one of the left vertices
/// `xs`.
fn joined_right(g: &Bigraph, xs: &Vec<u32>, y: u32) -> (r: bool)
    requires
        g.wf(),
        y < g.spec_right(),
        forall|i: int| 0 <= i < xs@.len() ==> #[trigger] xs@[i] < g.spec_left(),
    ensures
        r == forall|i: int| 0 <= i < xs@.len() ==> g.has_edge(Edge(#[trigger] xs@[i], y)),
{
    let mut n: usize = 0;
    while n < xs.len()
        invariant
            g.wf(),
            y < g.spec_right(),
            n <= xs@.len(),
            forall|i: int| 0 <= i < xs@.len() ==> #[trigger] xs@[i] < g.spec_left(),
            forall|i: int| 0 <= i < n ==> g.has_edge(Edge(#[trigger] xs@[i], y)),
        decreases xs@.len() - n,
    {
        if !g.get(Edge(xs[n], y)) {
            return false;
        }
        n = n + 1;
    }
    true
}

/// Gives biclique `c` every left vertex that it can have with the right
/// vertices that it could have.
pub fn left_maximal(g: &Bigraph, layer: &mut Layer, c: usize)
    requires
        old(layer).wf(g),
        c < old(layer).k(),
    ensures
        final(layer).wf(g),
        final(layer).grown_from(old(layer), g),
        final(layer).cliques() == old(layer).cliques().update(
            c as int,
            Sides {
                left: full_left(g, old(layer).cliques()[c as int]),
                right: old(layer).cliques()[c as int].right,
            },
        ),
        final(layer).changed() == if exists|o: u32|
            full_left(g, old(layer).cliques()[c as int]).contains(o) {
            old(layer).changed().insert(c)
        } else {
            old(layer).changed()
        },
{
    let ghost pre = *layer;
    let ghost side = layer.cliques()[c as int];
    proof {
        assert(g.bounds(side) && g.is_biclique(side));
        assert(side == layer.bicliques@[c as int]@);
        lemma_grown_same(&pre, g);
    }
    let maximal = common_right(g, &layer.bicliques[c]);
    let ms = set32_items(&maximal);
    let mut x: u32 = 0;
    let ghost mut grew = false;
    proof {
        let none = Sides {
            left: side.left.union(Set::new(|o: u32| o < 0 && full_left(g, side).contains(o))),
            right: side.right,
        };
        assert(none.left =~= side.left);
        assert(layer.cliques() =~= pre.cliques().update(c as int, none));
    }
    while x < g.left()
        invariant
            pre == *old(layer),
            pre.wf(g),
            layer.wf(g),
            layer.grown_from(&pre, g),
            c < pre.k(),
            side == pre.cliques()[c as int],
            g.bounds(side) && g.is_biclique(side),
            x <= g.spec_left(),
            members32(maximal) == Set::new(|y: u32| y < g.spec_right() && g.column_fits(side, y)),
            forall|i: int| 0 <= i < ms@.len() ==> members32(maximal).contains(#[trigger] ms@[i]),
            forall|y: u32| members32(maximal).contains(y) ==> ms@.contains(y),
            layer.cliques() == pre.cliques().update(
                c as int,
                Sides {
                    left: side.left.union(
                        Set::new(|o: u32| o < x && full_left(g, side).contains(o)),
                    ),
                    right: side.right,
                },
            ),
            grew == exists|o: u32| o < x && full_left(g, side).contains(o),
            layer.changed() == if grew {
                pre.changed().insert(c)
            } else {
                pre.changed()
            },
        decreases g.spec_left() - x,
    {
        let ok = joined_left(g, x, &ms);
        proof {
            if ok {
                assert forall|y: u32| y < g.spec_right() && g.column_fits(side, y) implies g.has_edge(
                    Edge(x, y),
                ) by {
                    assert(members32(maximal).contains(y));
                    let i = choose|i: int| 0 <= i < ms@.len() && ms@[i] == y;
                    assert(g.has_edge(Edge(x, ms@[i])));
                }
            } else {
                let i = choose|i: int| 0 <= i < ms@.len() && !g.has_edge(Edge(x, #[trigger] ms@[i]));
                assert(members32(maximal).contains(ms@[i]));
            }
            assert(ok == full_left(g, side).contains(x));
        }
        let ghost cur = layer.cliques()[c as int];
        if ok {
            let ghost mid = *layer;
            proof {
                assert forall|y: u32| cur.right.contains(y) implies g.has_edge(Edge(x, y)) by {
                    assert(side.right.contains(y));
                    assert(g.column_fits(side, y)) by {
                        assert forall|o: u32| side.left.contains(o) implies g.has_edge(
                            Edge(o, y),
                        ) by {}
                    }
                }
            }
            layer.add_left(g, c, x);
            proof {
                lemma_grown_twice(&pre, &mid, layer, g);
                assert(x < x + 1 && full_left(g, side).contains(x));
                assert(layer.changed() =~= pre.changed().insert(c));
                grew = true;
            }
        }
        proof {
            let next = Sides {
                left: side.left.union(
                    Set::new(|o: u32| o < x + 1 && full_left(g, side).contains(o)),
                ),
                right: side.right,
            };
            assert(layer.cliques()[c as int].left =~= next.left);
            assert(layer.cliques() =~= pre.cliques().update(c as int, next));
            if !ok && (exists|o: u32| o < x + 1 && full_left(g, side).contains(o)) {
                let o = choose|o: u32| o < x + 1 && full_left(g, side).contains(o);
                assert(o < x);
            }
        }
        x = x + 1;
    }
    proof {
        let full = Sides { left: full_left(g, side), right: side.right };
        assert(layer.cliques()[c as int].left =~= full.left) by {
            assert forall|o: u32| side.left.contains(o) implies full_left(g, side).contains(o) by {}
        }
        assert(layer.cliques() =~= pre.cliques().update(c as int, full));
        if exists|o: u32| full_left(g, side).contains(o) {
            let o = choose|o: u32| full_left(g, side).contains(o);
            assert(o < x && full_left(g, side).contains(o));
        }
    }
}

/// Gives biclique `c` every right vertex that it can have with the left
/// vertices that it could have.
pub fn right_maximal(g: &Bigraph, layer: &mut Layer, c: usize)
    requires
        old(layer).wf(g),
        c < old(layer).k(),
    ensures
        final(layer).wf(g),
        final(layer).grown_from(old(layer), g),
        final(layer).cliques() == old(layer).cliques().update(
            c as int,
            Sides {
                left: old(layer).cliques()[c as int].left,
                right: full_right(g, old(layer).cliques()[c as int]),
            },
        ),
        final(layer).changed() == if exists|o: u32|
            full_right(g, old(layer).cliques()[c as int]).contains(o) {
            old(layer).changed().insert(c)
        } else {
            old(layer).changed()
        },
{
    let ghost pre = *layer;
    let ghost side = layer.cliques()[c as int];
    proof {
        assert(g.bounds(side) && g.is_biclique(side));
        assert(side == layer.bicliques@[c as int]@);
        lemma_grown_same(&pre, g);
    }
    let maximal = common_left(g, &layer.bicliques[c]);
    let ms = set32_items(&maximal);
    let mut y: u32 = 0;
    let ghost mut grew = false;
    proof {
        let none = Sides {
            left: side.left,
            right: side.right.union(Set::new(|o: u32| o < 0 && full_right(g, side).contains(o))),
        };
        assert(none.right =~= side.right);
        assert(layer.cliques() =~= pre.cliques().update(c as int, none));
    }
    while y < g.right()
        invariant
            pre == *old(layer),
            pre.wf(g),
            layer.wf(g),
            layer.grown_from(&pre, g),
            c < pre.k(),
            side == pre.cliques()[c as int],
            g.bounds(side) && g.is_biclique(side),
            y <= g.spec_right(),
            members32(maximal) == Set::new(|x: u32| x < g.spec_left() && g.row_fits(side, x)),
            forall|i: int| 0 <= i < ms@.len() ==> members32(maximal).contains(#[trigger] ms@[i]),
            forall|x: u32| members32(maximal).contains(x) ==> ms@.contains(x),
            layer.cliques() == pre.cliques().update(
                c as int,
                Sides {
                    left: side.left,
                    right: side.right.union(
                        Set::new(|o: u32| o < y && full_right(g, side).contains(o)),
                    ),
                },
            ),
            grew == exists|o: u32| o < y && full_right(g, side).contains(o),
            layer.changed() == if grew {
                pre.changed().insert(c)
            } else {
                pre.changed()
            },
        decreases g.spec_right() - y,
    {
        let ok = joined_right(g, &ms, y);
        proof {
            if ok {
                assert forall|x: u32| x < g.spec_left() && g.row_fits(side, x) implies g.has_edge(
                    Edge(x, y),
                ) by {
                    assert(members32(maximal).contains(x));
                    let i = choose|i: int| 0 <= i < ms@.len() && ms@[i] == x;
                    assert(g.has_edge(Edge(ms@[i], y)));
                }
            } else {
                let i = choose|i: int| 0 <= i < ms@.len() && !g.has_edge(Edge(#[trigger] ms@[i], y));
                assert(members32(maximal).contains(ms@[i]));
            }
            assert(ok == full_right(g, side).contains(y));
        }
        let ghost cur = layer.cliques()[c as int];
        if ok {
            let ghost mid = *layer;
            proof {
                assert forall|x: u32| cur.left.contains(x) implies g.has_edge(Edge(x, y)) by {
                    assert(side.left.contains(x));
                    assert(g.row_fits(side, x)) by {
                        assert forall|o: u32| side.right.contains(o) implies g.has_edge(
                            Edge(x, o),
                        ) by {}
                    }
                }
            }
            layer.add_right(g, c, y);
            proof {
                lemma_grown_twice(&pre, &mid, layer, g);
                assert(y < y + 1 && full_right(g, side).contains(y));
                assert(layer.changed() =~= pre.changed().insert(c));
                grew = true;
            }
        }
        proof {
            let next = Sides {
                left: side.left,
                right: side.right.union(
                    Set::new(|o: u32| o < y + 1 && full_right(g, side).contains(o)),
                ),
            };
            assert(layer.cliques()[c as int].right =~= next.right);
            assert(layer.cliques() =~= pre.cliques().update(c as int, next));
            if !ok && (exists|o: u32| o < y + 1 && full_right(g, side).contains(o)) {
                let o = choose|o: u32| o < y + 1 && full_right(g, side).contains(o);
                assert(o < y);
            }
        }
        y = y + 1;
    }
    proof {
        let full = Sides { left: side.left, right: full_right(g, side) };
        assert(layer.cliques()[c as int].right =~= full.right) by {
            assert forall|o: u32| side.right.contains(o) implies full_right(g, side).contains(o) by {}
        }
        assert(layer.cliques() =~= pre.cliques().update(c as int, full));
        if exists|o: u32| full_right(g, side).contains(o) {
            let o = choose|o: u32| full_right(g, side).contains(o);
            assert(o < y && full_right(g, side).contains(o));
        }
    }
}

/// The biclique `side` at its fullest: first with every right vertex that it
/// can have with the left vertices that it could have, and then with every
/// left vertex that it can have with the right vertices that it could have.
pub open spec fn extended(g: &Bigraph, side: Sides) -> Sides {
    let wide = Sides { left: side.left, right: full_right(g, side) };
    Sides { left: full_left(g, wide), right: wide.right }
}

/// The bicliques `cliques` with those at the places `changed` at their
/// fullest.
pub open spec fn extended_at(g: &Bigraph, cliques: Seq<Sides>, changed: Set<usize>) -> Seq<Sides> {
    Seq::new(
        cliques.len(),
        |c: int|
            if changed.contains(c as usize) {
                extended(g, cliques[c])
            } else {
                cliques[c]
            },
    )
}

/// Extends every biclique that has grown, first on the right and then on
/// the left, and fills the layer in as far as it must be: from the layer
/// with the extended bicliques, of which none counts as grown, edges are
/// put where they have to go.
pub fn restrict_layer(g: &Bigraph, layer: &mut Layer) -> (r: Result<(), ()>)
    requires
        old(layer).wf(g),
    ensures
        final(layer).wf(g),
        final(layer).grown_from(old(layer), g),
        r.is_ok() ==> final(layer).settled(g),
        r.is_err() ==> exists|e: Edge| final(layer).stuck(g, e),
        exists|run: Seq<Layer>|
            #![trigger Layer::forced_run(run, g)]
            run.len() > 0 && run[0].wf(g) && run[0].grown_from(old(layer), g) && run[0].cliques()
                == extended_at(g, old(layer).cliques(), old(layer).changed())
                && run[0].changed() == Set::<usize>::empty() && run.last() == *final(layer)
                && Layer::forced_run(run, g),
{
    let ghost pre = *layer;
    proof {
        lemma_grown_same(&pre, g);
    }
    let changed = set_items(&layer.changed);
    let k = layer.bicliques().len();
    set_clear(&mut layer.changed);
    proof {
        assert(pre.cliques().len() == k);
        lemma_same_state(layer, &pre, g);
        assert forall|i: int| 0 <= i < changed@.len() implies #[trigger] changed@[i] < pre.k() by {
            assert(pre.changed().contains(changed@[i]));
        }
        assert(layer.cliques() =~= extended_at(g, pre.cliques(), Set::<usize>::empty()));
    }
    let mut n: usize = 0;
    while n < changed.len()
        invariant
            pre == *old(layer),
            pre.wf(g),
            pre.k() == k,
            layer.wf(g),
            layer.grown_from(&pre, g),
            n <= changed@.len(),
            forall|i: int| 0 <= i < changed@.len() ==> #[trigger] changed@[i] < pre.k(),
            forall|i: int, j: int| 0 <= i < j < changed@.len() ==> changed@[i] < changed@[j],
            layer.cliques() == extended_at(
                g,
                pre.cliques(),
                Set::new(|c: usize| among(changed@, n as int, c)),
            ),
        decreases changed@.len() - n,
    {
        let c = changed[n];
        let ghost one = *layer;
        proof {
            // Biclique `c` has not been extended yet.
            assert(!among(changed@, n as int, c)) by {
                if among(changed@, n as int, c) {
                    let i = choose|i: int| 0 <= i < n && changed@[i] == c;
                    assert(changed@[i] < changed@[n as int]);
                }
            }
            assert(one.cliques()[c as int] == pre.cliques()[c as int]);
        }
        right_maximal(g, layer, c);
        let ghost two = *layer;
        left_maximal(g, layer, c);
        proof {
            lemma_grown_twice(&pre, &one, &two, g);
            lemma_grown_twice(&pre, &two, layer, g);
            assert forall|o: usize| among(changed@, n + 1, o) == (among(changed@, n as int, o) || o
                == c) by {
                lemma_among_step(changed@, n as int, o);
            }
            let before = Set::new(|o: usize| among(changed@, n as int, o));
            let after = Set::new(|o: usize| among(changed@, n + 1, o));
            assert(layer.cliques().len() == pre.cliques().len());
            assert forall|d: int| 0 <= d < layer.cliques().len() implies layer.cliques()[d]
                == extended_at(g, pre.cliques(), after)[d] by {
                if d == c {
                    assert(after.contains(c));
                    assert(two.cliques()[d] == Sides {
                        left: pre.cliques()[d].left,
                        right: full_right(g, pre.cliques()[d]),
                    });
                } else {
                    assert(after.contains(d as usize) == before.contains(d as usize));
                    assert(one.cliques()[d] == extended_at(g, pre.cliques(), before)[d]);
                    assert(two.cliques()[d] == one.cliques()[d]);
                }
            }
            assert(layer.cliques() =~= extended_at(g, pre.cliques(), after));
        }
        n = n + 1;
    }
    let ghost full = *layer;
    set_clear(&mut layer.changed);
    let ghost mid = *layer;
    proof {
        lemma_same_state(&mid, &full, g);
        lemma_grown_twice(&pre, &full, &mid, g);
        assert(Set::new(|o: usize| among(changed@, changed@.len() as int, o)) =~= pre.changed()) by {
            assert forall|o: usize| among(changed@, changed@.len() as int, o)
                == pre.changed().contains(o) by {
                if pre.changed().contains(o) {
                    let i = choose|i: int| 0 <= i < changed@.len() && changed@[i] == o;
                    assert(changed@[i] == o);
                }
                if among(changed@, changed@.len() as int, o) {
                    let i = choose|i: int| 0 <= i < changed@.len() && changed@[i] == o;
                    assert(pre.changed().contains(changed@[i]));
                }
            }
        }
    }
    let r = layer.forced_updates(g);
    proof {
        lemma_grown_twice(&pre, &mid, layer, g);
        let run = choose|run: Seq<Layer>|
            #![trigger Layer::forced_run(run, g)]
            run.len() > 0 && run[0] == mid && run.last() == *layer && Layer::forced_run(run, g);
        assert(run[0].cliques() == extended_at(g, pre.cliques(), pre.changed()));
        assert(Layer::forced_run(run, g));
    }
    r
}

/// What a layer with `n` open flags can cost the search: one unit for the
/// layer, and twice the cost of a layer with one open flag fewer, for the
/// two layers that a choice splits it into.
pub open spec fn weight(n: nat) -> nat
    decreases n,
{
    if n == 0 {
        1
    } else {
        2 * weight((n - 1) as nat) + 1
    }
}

/// What the layers of `stack` can cost the search between them.
pub open spec fn load(stack: Seq<Layer>, g: &Bigraph) -> nat
    decreases stack.len(),
{
    if stack.len() == 0 {
        0
    } else {
        load(stack.drop_last(), g) + weight(stack.last().open_count(g))
    }
}

/// A layer with fewer open flags costs no more.
pub proof fn lemma_weight_grows(a: nat, b: nat)
    requires
        a <= b,
    ensures
        weight(a) <= weight(b),
    decreases b,
{
    if a < b {
        lemma_weight_grows(a, (b - 1) as nat);
    }
}

/// The two layers that a choice splits a layer into cost less than the
/// layer.
pub proof fn lemma_weight_split(a: nat, b: nat, n: nat)
    requires
        a < n,
        b < n,
    ensures
        weight(a) + weight(b) < weight(n),
{
    lemma_weight_grows(a, (n - 1) as nat);
    lemma_weight_grows(b, (n - 1) as nat);
}

/// A stack with one more layer costs what it did and what the layer costs.
pub proof fn lemma_load_push(stack: Seq<Layer>, layer: Layer, g: &Bigraph)
    ensures
        load(stack.push(layer), g) == load(stack, g) + weight(layer.open_count(g)),
{
    assert(stack.push(layer).drop_last() =~= stack);
}

/// Bicliques that have grown from a cover are a cover.
pub proof fn lemma_cover_grows(g: &Bigraph, a: Seq<Sides>, b: Seq<Sides>)
    requires
        g.is_cover(a),
        a.len() == b.len(),
        forall|i: int| 0 <= i < b.len() ==> (#[trigger] b[i]).contains_clique(a[i]),
        forall|i: int| 0 <= i < b.len() ==> g.bounds(#[trigger] b[i]) && g.is_biclique(b[i]),
    ensures
        g.is_cover(b),
{
    assert forall|e: Edge| g.has_edge(e) implies exists|i: int|
        0 <= i < b.len() && (#[trigger] b[i]).contains(e) by {
        let i = choose|i: int| 0 <= i < a.len() && (#[trigger] a[i]).contains(e);
        assert(b[i].contains_clique(a[i]));
        assert(b[i].contains(e));
    }
}

/// A layer that has grown from a layer whose bicliques hold those of
/// `frame`, place by place, has bicliques that hold them too.
pub proof fn lemma_grown_on(now: &Layer, before: &Layer, g: &Bigraph, frame: Seq<Sides>)
    requires
        now.grown_from(before, g),
        grown(before.cliques(), frame),
    ensures
        grown(now.cliques(), frame),
{
    assert(now.cliques().len() == now.k());
    assert(before.cliques().len() == before.k());
    assert forall|i: int| 0 <= i < now.cliques().len() implies (
    #[trigger] now.cliques()[i]).contains_clique(frame[i]) by {
        assert(now.cliques()[i].contains_clique(before.cliques()[i]));
        assert(before.cliques()[i].contains_clique(frame[i]));
    }
}

/// A layer that fits a larger size fits a smaller one.
pub proof fn lemma_fits_less(g: &Bigraph, k: nat, max: nat)
    requires
        k <= max,
        fits(g, max),
    ensures
        fits(g, k),
{
    let n = g.index_bound() as int;
    assert(n * (k + 1) <= n * (max + 1)) by (nonlinear_arith)
        requires
            0 <= n,
            k <= max,
    ;
}

/// Whether the covers `log` can be what was handed to `f`, one after the
/// other, before `r` was returned: `f` said to go on after each of them
/// but the last, and after the last it said to go on where `r` says so, and
/// else what `r` is.
pub open spec fn handed<T, F: FnMut(BicliqueCover) -> ControlFlow<T>>(
    f: F,
    log: Seq<BicliqueCover>,
    r: ControlFlow<T>,
) -> bool {
    &&& forall|i: int|
        0 <= i < log.len() && (i < log.len() - 1 || r is Continue) ==> call_ensures(
            f,
            (#[trigger] log[i],),
            ControlFlow::<T, ()>::Continue(()),
        )
    &&& r is Break ==> log.len() > 0 && call_ensures(f, (log.last(),), r)
}

/// Whether every cover of `log` is a cover of `g` in canonical order, by at
/// least `least` and at most `most` bicliques.
pub open spec fn all_covers(g: &Bigraph, log: Seq<BicliqueCover>, least: int, most: int) -> bool {
    forall|i: int|
        0 <= i < log.len() ==> g.is_cover((#[trigger] log[i])@) && log[i].wf() && least
            <= log[i]@.len() <= most
}

/// Whether no cover of `log` has more bicliques than a later one.
pub open spec fn by_size(log: Seq<BicliqueCover>) -> bool {
    forall|i: int, j: int| 0 <= i < j < log.len() ==> log[i]@.len() <= log[j]@.len()
}

/// What was handed over before the search went on, and what was handed
/// over after that, is what was handed over.
pub proof fn lemma_handed_join<T, F: FnMut(BicliqueCover) -> ControlFlow<T>>(
    f: F,
    a: Seq<BicliqueCover>,
    b: Seq<BicliqueCover>,
    r: ControlFlow<T>,
)
    requires
        handed(f, a, ControlFlow::<T, ()>::Continue(())),
        handed(f, b, r),
    ensures
        handed(f, a + b, r),
{
    let all = a + b;
    assert forall|i: int|
        0 <= i < all.len() && (i < all.len() - 1 || r is Continue) implies call_ensures(
        f,
        (#[trigger] all[i],),
        ControlFlow::<T, ()>::Continue(()),
    ) by {
        if i < a.len() {
            assert(all[i] == a[i]);
        } else {
            assert(all[i] == b[i - a.len()]);
        }
    }
    if r is Break {
        assert(all.last() == b.last());
    }
}

/// A set of vertices below `limit` has at most `limit` members.
pub proof fn lemma_side_finite(s: Set<u32>, limit: u32)
    requires
        forall|x: u32| s.contains(x) ==> x < limit,
    ensures
        s.finite(),
        s.len() <= limit,
    decreases limit,
{
    if limit == 0 {
        assert(s =~= Set::<u32>::empty());
    } else {
        let top = (limit - 1) as u32;
        let rest = s.remove(top);
        lemma_side_finite(rest, top);
        if s.contains(top) {
            assert(s =~= rest.insert(top));
        } else {
            assert(s =~= rest);
        }
    }
}

/// The number of vertices of a biclique, both sides together.
pub open spec fn girth(c: Sides) -> nat {
    c.left.len() + c.right.len()
}

/// The number of vertices in the bicliques of `cs`, a vertex counted once
/// for every biclique that it is in.
pub open spec fn bulk(cs: Seq<Sides>) -> nat
    decreases cs.len(),
{
    if cs.len() == 0 {
        0
    } else {
        bulk(cs.drop_last()) + girth(cs.last())
    }
}

/// The bulk of a list is the bulk of the list without one member, and
/// the vertices of that member.
pub proof fn lemma_bulk_remove(cs: Seq<Sides>, j: int)
    requires
        0 <= j < cs.len(),
    ensures
        bulk(cs) == bulk(cs.remove(j)) + girth(cs[j]),
    decreases cs.len(),
{
    if j == cs.len() - 1 {
        assert(cs.remove(j) =~= cs.drop_last());
    } else {
        lemma_bulk_remove(cs.drop_last(), j);
        assert(cs.drop_last().remove(j) =~= cs.remove(j).drop_last());
        assert(cs.remove(j).last() == cs.last());
    }
}

/// Lists with the same members, each as often in one as in the other, have
/// the same bulk.
pub proof fn lemma_bulk_same(a: Seq<Sides>, b: Seq<Sides>)
    requires
        a.to_multiset() == b.to_multiset(),
    ensures
        bulk(a) == bulk(b),
    decreases a.len(),
{
    broadcast use vstd::seq_lib::group_to_multiset_ensures;

    vstd::seq_lib::to_multiset_len(a);
    vstd::seq_lib::to_multiset_len(b);
    if a.len() > 0 {
        let x = a.last();
        assert(a.contains(x));
        assert(a.to_multiset().count(x) > 0);
        assert(b.contains(x));
        let j = choose|j: int| 0 <= j < b.len() && b[j] == x;
        let a2 = a.drop_last();
        let b2 = b.remove(j);
        assert(a2 =~= a.remove(a.len() - 1));
        vstd::seq_lib::to_multiset_remove(a, a.len() - 1);
        vstd::seq_lib::to_multiset_remove(b, j);
        assert(a2.to_multiset() =~= b2.to_multiset());
        lemma_bulk_same(a2, b2);
        lemma_bulk_remove(b, j);
    }
}

/// Bicliques that have grown have no less bulk.
pub proof fn lemma_bulk_grown(g: &Bigraph, now: Seq<Sides>, first: Seq<Sides>)
    requires
        grown(now, first),
        forall|i: int| 0 <= i < now.len() ==> g.bounds(#[trigger] now[i]),
    ensures
        bulk(first) <= bulk(now),
    decreases now.len(),
{
    if now.len() > 0 {
        let a = now.drop_last();
        let b = first.drop_last();
        assert forall|i: int| 0 <= i < a.len() implies (#[trigger] a[i]).contains_clique(b[i]) by {
            assert(now[i].contains_clique(first[i]));
        }
        assert forall|i: int| 0 <= i < a.len() implies g.bounds(#[trigger] a[i]) by {
            assert(g.bounds(now[i]));
        }
        lemma_bulk_grown(g, a, b);
        let x = now.last();
        let y = first.last();
        assert(x.contains_clique(y));
        assert(g.bounds(x));
        lemma_side_finite(x.left, g.spec_left());
        lemma_side_finite(x.right, g.spec_right());
        vstd::set_lib::lemma_len_subset(y.left, x.left);
        vstd::set_lib::lemma_len_subset(y.right, x.right);
    }
}

/// Bicliques that have grown by an edge have more bulk.
pub proof fn lemma_bulk_more(g: &Bigraph, now: Seq<Sides>, first: Seq<Sides>, c: int, e: Edge)
    requires
        grown(now, first),
        forall|i: int| 0 <= i < now.len() ==> g.bounds(#[trigger] now[i]),
        0 <= c < now.len(),
        now[c].contains(e),
        !first[c].contains(e),
    ensures
        bulk(first) < bulk(now),
{
    let a = now.remove(c);
    let b = first.remove(c);
    assert forall|i: int| 0 <= i < a.len() implies (#[trigger] a[i]).contains_clique(b[i]) by {
        if i < c {
            assert(now[i].contains_clique(first[i]));
        } else {
            assert(now[i + 1].contains_clique(first[i + 1]));
        }
    }
    assert forall|i: int| 0 <= i < a.len() implies g.bounds(#[trigger] a[i]) by {
        if i < c {
            assert(g.bounds(now[i]));
        } else {
            assert(g.bounds(now[i + 1]));
        }
    }
    lemma_bulk_grown(g, a, b);
    lemma_bulk_remove(now, c);
    lemma_bulk_remove(first, c);
    let x = now[c];
    let y = first[c];
    assert(x.contains_clique(y));
    assert(g.bounds(x));
    lemma_side_finite(x.left, g.spec_left());
    lemma_side_finite(x.right, g.spec_right());
    vstd::set_lib::lemma_len_subset(y.left, x.left);
    vstd::set_lib::lemma_len_subset(y.right, x.right);
    if girth(x) == girth(y) {
        vstd::set_lib::lemma_subset_equality(y.left, x.left);
        vstd::set_lib::lemma_subset_equality(y.right, x.right);
    }
}

/// A function that never says to go on is handed one cover at most, and
/// where it is handed one, the search returns what the function said of it.
pub proof fn lemma_break_stops<T, F: FnMut(BicliqueCover) -> ControlFlow<T>>(
    f: F,
    log: Seq<BicliqueCover>,
    r: ControlFlow<T>,
)
    requires
        handed(f, log, r),
        forall|c: BicliqueCover| !call_ensures(f, (c,), ControlFlow::<T, ()>::Continue(())),
    ensures
        log.len() <= 1,
        log.len() == 1 ==> r is Break && call_ensures(f, (log[0],), r),
        log.len() == 0 ==> r is Continue,
{
    if log.len() > 1 {
        assert(call_ensures(f, (log[0],), ControlFlow::<T, ()>::Continue(())));
    }
    if log.len() == 1 {
        if r is Continue {
            assert(call_ensures(f, (log[0],), ControlFlow::<T, ()>::Continue(())));
        }
        assert(log.last() == log[0]);
    }
}

/// Hands on every cover that can be had from `layer`, which covers the
/// graph, by putting more edges into its bicliques, and then, last, the
/// bicliques of `layer` itself: these alone where the layer cannot be
/// split. Every cover that comes before the layer's own has more vertices
/// in its bicliques, and so is another cover. Stops when the function `f`
/// that the covers are handed to says so, and returns what it said, with
/// the covers that were handed to `f`.
pub(crate) fn iterate_sat<T, F: FnMut(BicliqueCover) -> ControlFlow<T>>(
    g: &Bigraph,
    containment: &mut Containment,
    layer: Layer,
    f: &mut F,
) -> (r: (ControlFlow<T>, Ghost<Seq<BicliqueCover>>))
    requires
        layer.wf(g),
        g.is_cover(layer.cliques()),
        old(containment).wf(g),
        old(containment).depth() > 0,
        grown(layer.cliques(), old(containment).frame(old(containment).depth() - 1)),
        forall|c: BicliqueCover|
            g.is_cover(c@) && c.wf() && c@.len() == layer.k() ==> call_requires(*old(f), (c,)),
    ensures
        *final(f) == *old(f),
        r.0 is Continue ==> final(containment).wf(g) && final(containment).depth() == old(
            containment,
        ).depth() - 1 && forall|i: int|
            0 <= i < final(containment).depth() ==> final(containment).frame(i) == old(
                containment,
            ).frame(i),
        handed(*old(f), r.1@, r.0),
        all_covers(g, r.1@, layer.k() as int, layer.k() as int),
        r.1@.len() > 0,
        r.0 is Continue ==> r.1@.last()@.to_multiset() == layer.cliques().to_multiset(),
        layer.fixed(g) ==> r.1@.len() == 1,
        forall|i: int| 0 <= i < r.1@.len() ==> bulk(layer.cliques()) <= bulk(#[trigger] r.1@[i]@),
        forall|i: int|
            0 <= i < r.1@.len() - 1 ==> bulk(layer.cliques()) < bulk(#[trigger] r.1@[i]@),
        r.0 is Continue ==> forall|i: int|
            0 <= i < r.1@.len() - 1 ==> #[trigger] r.1@[i]@ != r.1@.last()@,
    decreases layer.open_count(g),
{
    let mut here = layer;
    let ghost mut log: Seq<BicliqueCover> = Seq::empty();
    loop
        invariant
            handed(*old(f), log, ControlFlow::<T, ()>::Continue(())),
            all_covers(g, log, layer.k() as int, layer.k() as int),
            layer.wf(g),
            here.wf(g),
            here.k() == layer.k(),
            here.cliques() == layer.cliques(),
            layer.fixed(g) ==> log.len() == 0 && here == layer,
            forall|i: int| 0 <= i < log.len() ==> bulk(layer.cliques()) < bulk(#[trigger] log[i]@),
            g.is_cover(here.cliques()),
            here.open_count(g) <= layer.open_count(g),
            containment.wf(g),
            containment.depth() == old(containment).depth(),
            containment.depth() > 0,
            forall|i: int|
                0 <= i < containment.depth() ==> containment.frame(i) == old(containment).frame(i),
            grown(here.cliques(), containment.frame(containment.depth() - 1)),
            *f == *old(f),
            forall|c: BicliqueCover|
                g.is_cover(c@) && c.wf() && c@.len() == layer.k() ==> call_requires(*old(f), (c,)),
        decreases here.open_count(g),
    {
        let ghost before = here;
        match here.guess_edge(g) {
            None => {
                break ;
            },
            Some(child) => {
                let mut new_layer = child;
                let ghost fresh = new_layer;
                proof {
                    let (e, c) = choose|e: Edge, c: int|
                        here.branched(&before, &fresh, g, e, c) && before.first_choice(g, e, c, 2);
                    assert(!layer.fixed(g));
                    g.lemma_edge_in_range(e);
                    assert(fresh.cliques()[c].contains(e));
                    fresh.lemma_open_count_lt(&before, g, e, c);
                    here.lemma_open_count_lt(&before, g, e, c);
                }
                match restrict_layer(g, &mut new_layer) {
                    Ok(()) => {
                        proof {
                            lemma_grown_twice(&before, &fresh, &new_layer, g);
                            new_layer.lemma_open_count_le(&fresh, g);
                            lemma_cover_grows(g, before.cliques(), new_layer.cliques());
                        }
                        if containment.start_layer(g, new_layer.bicliques.as_slice()) {
                            proof {
                                assert(grown(
                                    new_layer.cliques(),
                                    containment.frame(containment.depth() - 1),
                                ));
                            }
                            let (q, Ghost(more)) = iterate_sat(g, containment, new_layer, f);
                            proof {
                                lemma_handed_join(*old(f), log, more, q);
                                let (e, c) = choose|e: Edge, c: int|
                                    here.branched(&before, &fresh, g, e, c);
                                assert(new_layer.cliques()[c].contains_clique(fresh.cliques()[c]));
                                assert(fresh.cliques()[c].contains(e));
                                assert(!before.cliques()[c].contains(e));
                                assert(grown(new_layer.cliques(), layer.cliques())) by {
                                    assert forall|i: int|
                                        0 <= i < new_layer.k() implies (
                                    #[trigger] new_layer.cliques()[i]).contains_clique(
                                        layer.cliques()[i],
                                    ) by {
                                        assert(new_layer.cliques()[i].contains_clique(
                                            before.cliques()[i],
                                        ));
                                    }
                                }
                                lemma_bulk_more(g, new_layer.cliques(), layer.cliques(), c, e);
                                let all = log + more;
                                assert forall|i: int| 0 <= i < all.len() implies bulk(
                                    layer.cliques(),
                                ) < bulk(#[trigger] all[i]@) by {
                                    if i < log.len() {
                                        assert(all[i] == log[i]);
                                    } else {
                                        let j = i - log.len();
                                        assert(all[i] == more[j]);
                                        assert(bulk(new_layer.cliques()) <= bulk(more[j]@));
                                    }
                                }
                                log = all;
                            }
                            match q {
                                ControlFlow::Continue(()) => {},
                                ControlFlow::Break(v) => {
                                    return (ControlFlow::Break(v), Ghost(log));
                                },
                            }
                        }
                    },
                    Err(()) => {},
                }
            },
        }
    }
    containment.finish_layer(g, copy_cliques(here.bicliques.as_slice()));
    let cover = BicliqueCover::new(g, copy_cliques(here.bicliques.as_slice()));
    proof {
        vstd::seq_lib::to_multiset_len(cover@);
        vstd::seq_lib::to_multiset_len(here.cliques());
    }
    let ghost last = cover;
    let r = f(cover);
    proof {
        let one = seq![last];
        assert(call_ensures(*old(f), (last,), r));
        assert(one[0] == last && one.last() == last);
        match r {
            ControlFlow::Continue(unit) => {
                assert(unit == ());
            },
            ControlFlow::Break(_) => {},
        }
        assert(handed(*old(f), one, r));
        lemma_handed_join(*old(f), log, seq![last], r);
        lemma_bulk_same(last@, layer.cliques());
        let all = log + seq![last];
        assert(all.last() == last);
        assert forall|i: int| 0 <= i < all.len() - 1 implies bulk(layer.cliques()) < bulk(
            #[trigger] all[i]@,
        ) && all[i]@ != all.last()@ by {
            assert(all[i] == log[i]);
        }
        assert forall|i: int| 0 <= i < all.len() implies bulk(layer.cliques()) <= bulk(
            #[trigger] all[i]@,
        ) by {
            if i < log.len() {
                assert(all[i] == log[i]);
            }
        }
        log = all;
    }
    (r, Ghost(log))
}

/// Whether the forced edges, each as a biclique of its own, cover the graph:
/// the forced edges are all the edges.
pub open spec fn seeds_suffice(g: &Bigraph, forced: Seq<Edge>) -> bool {
    g.is_cover(seeds(forced, forced.len()))
}

/// Whether one biclique covers the graph.
pub open spec fn one_suffices(g: &Bigraph) -> bool {
    exists|t: Sides| g.is_cover(seq![t])
}

/// Whether the search of one size is sure to come to a cover at once, from
/// the layer `first` that it starts with: the layer covers the graph as it
/// is, or it has one biclique and a cover can be had from it.
pub open spec fn sure(g: &Bigraph, first: &Layer) -> bool {
    g.is_cover(first.cliques()) || (first.k() == 1 && exists|t: Seq<Sides>| first.leads_to(g, t))
}

/// A layer that has grown from a layer that covers the graph covers the
/// graph, and no edge is stuck in it.
pub proof fn lemma_stays_cover(now: &Layer, before: &Layer, g: &Bigraph)
    requires
        now.wf(g),
        now.grown_from(before, g),
        g.is_cover(before.cliques()),
    ensures
        g.is_cover(now.cliques()),
        forall|e: Edge| !now.sticks(g, e),
{
    assert(now.cliques().len() == now.k());
    assert(before.cliques().len() == before.k());
    lemma_cover_grows(g, before.cliques(), now.cliques());
    now.lemma_cover_moves(g);
}

/// The layer that the search of one size starts with leads to every cover
/// of that size whose bicliques hold the forced edges at their places.
pub proof fn lemma_initial_leads(first: &Layer, g: &Bigraph, forced: Seq<Edge>, t: Seq<Sides>)
    requires
        first.wf(g),
        first.cliques() == seeds(forced, first.k()),
        forall|e: Edge, c: int|
            g.in_range(e) && 0 <= c < first.k() ==> #[trigger] first.may(g, e, c) == (g.has_edge(e)
                && !first.cliques()[c].contains(e) && g.spec_may_add(first.cliques()[c], e)),
        t.len() == first.k(),
        g.is_cover(t),
        forall|c: int| 0 <= c < t.len() ==> (#[trigger] t[c]).contains_clique(seed(forced, c)),
    ensures
        first.leads_to(g, t),
{
    assert forall|c: int| 0 <= c < first.k() implies (#[trigger] t[c]).contains_clique(
        first.cliques()[c],
    ) by {
        assert(first.cliques()[c] == seed(forced, c));
    }
    assert forall|e: Edge, c: int|
        #![trigger t[c].contains(e)]
        0 <= c < first.k() && g.has_edge(e) && t[c].contains(e) && !first.cliques()[c].contains(
            e,
        ) implies first.may(g, e, c) by {
        g.lemma_edge_in_range(e);
        assert(t[c].contains_clique(first.cliques()[c]));
        assert(g.bounds(t[c]) && g.is_biclique(t[c]));
        assert(g.spec_may_add(first.cliques()[c], e)) by {
            assert forall|x: u32| first.cliques()[c].left.contains(x) implies g.has_edge(
                Edge(x, e.1),
            ) by {
                assert(t[c].left.contains(x) && t[c].right.contains(e.1));
            }
            assert forall|y: u32| first.cliques()[c].right.contains(y) implies g.has_edge(
                Edge(e.0, y),
            ) by {
                assert(t[c].left.contains(e.0) && t[c].right.contains(y));
            }
        }
    }
}

/// Whether the search is sure to hand over one cover and no more: the one
/// size that it goes through is the number of the forced edges, and either
/// these are all the edges, or there is one of them and one biclique covers
/// the graph.
pub open spec fn lone(g: &Bigraph, forced: Seq<Edge>, max_size: usize) -> bool {
    &&& forced.len() == max_size
    &&& (pairwise_apart(g, forced) && seeds_suffice(g, forced)) || (one_suffices(g) && forced.len()
        == 1)
}

/// The layer that the search starts with cannot be split where the forced
/// edges are all the edges and no biclique is left without one.
pub proof fn lemma_seeds_fixed(first: &Layer, g: &Bigraph, forced: Seq<Edge>)
    requires
        first.k() == forced.len(),
        first.cliques() == seeds(forced, first.k()),
        forall|e: Edge, c: int|
            g.in_range(e) && 0 <= c < first.k() ==> #[trigger] first.may(g, e, c) == (g.has_edge(e)
                && !first.cliques()[c].contains(e) && g.spec_may_add(first.cliques()[c], e)),
        pairwise_apart(g, forced),
        seeds_suffice(g, forced),
    ensures
        first.fixed(g),
{
    let all = seeds(forced, forced.len());
    assert forall|e: Edge, c: int| g.has_edge(e) && 0 <= c < first.k() implies !#[trigger] first.may(
        g,
        e,
        c,
    ) by {
        g.lemma_edge_in_range(e);
        if first.may(g, e, c) {
            let j = choose|j: int| 0 <= j < all.len() && (#[trigger] all[j]).contains(e);
            assert(all[j] == seed(forced, j));
            assert(first.cliques()[c] == seed(forced, c));
            assert(e == forced[j]);
            assert(j != c);
            let o = forced[c];
            assert(seed(forced, c).left.contains(o.0));
            assert(seed(forced, c).right.contains(o.1));
            assert(g.spec_may_share(o, e));
            g.lemma_may_share_symmetric(o, e);
        }
    }
}

/// Whether the search has come to a cover where it is sure to, once the
/// sizes below `done` are through: at the size of the forced edges where
/// these are all the edges, and at size one where one biclique covers the
/// graph. The cover is the first of `log` then.
pub open spec fn begun(g: &Bigraph, forced: Seq<Edge>, log: Seq<BicliqueCover>, done: int) -> bool {
    &&& seeds_suffice(g, forced) && done > forced.len() ==> log.len() > 0 && log[0]@.len()
        == forced.len()
    &&& one_suffices(g) && forced.len() <= 1 && done > 1 ==> log.len() > 0 && log[0]@.len() <= 1
}

/// What the search has come to stays the first of what it hands over.
pub proof fn lemma_begun_more(
    g: &Bigraph,
    forced: Seq<Edge>,
    log: Seq<BicliqueCover>,
    more: Seq<BicliqueCover>,
    done: int,
)
    requires
        begun(g, forced, log, done),
    ensures
        begun(g, forced, log + more, done),
{
    if log.len() > 0 {
        assert((log + more)[0] == log[0]);
    }
}

/// Once a cover is handed over at size `k`, the search has come to a cover
/// wherever it is sure to.
pub proof fn lemma_begun_found(
    g: &Bigraph,
    forced: Seq<Edge>,
    log: Seq<BicliqueCover>,
    k: int,
    done: int,
)
    requires
        begun(g, forced, log, k),
        forced.len() <= k,
        log.len() > 0,
        all_covers(g, log, forced.len() as int, k),
    ensures
        begun(g, forced, log, done),
{
    assert(g.is_cover(log[0]@) && forced.len() <= log[0]@.len() <= k);
}

/// Searches for the covers of every size from the number of the forced
/// edges to `max_size`, and hands each to `f`.
///
/// Whatever is handed to `f` is a cover of `g` in canonical order. The
/// search stops when `f` says so, and returns what it said, with the covers
/// that were handed to `f`. A layer that does not cover the graph yet is
/// split on an edge with a single biclique to choose from before any other;
/// a layer that covers the graph is split as `guess_edge` does. Where the
/// forced edges are all the edges, and
/// where one biclique covers the graph, the first cover is handed over at
/// the first size that can have one; where that is the only size, it is the
/// only cover.
pub(crate) fn iterate<T, F: FnMut(BicliqueCover) -> ControlFlow<T>>(
    g: &Bigraph,
    max_size: usize,
    forced: Vec<Edge>,
    f: F,
) -> (r: (ControlFlow<T>, Ghost<Seq<BicliqueCover>>))
    requires
        g.wf(),
        fits(g, max_size as nat),
        forall|i: int| 0 <= i < forced@.len() ==> g.has_edge(#[trigger] forced@[i]),
        forall|c: BicliqueCover|
            g.is_cover(c@) && c.wf() && forced@.len() <= c@.len() <= max_size ==> call_requires(
                f,
                (c,),
            ),
    ensures
        handed(f, r.1@, r.0),
        all_covers(g, r.1@, forced@.len() as int, max_size as int),
        by_size(r.1@),
        seeds_suffice(g, forced@) && forced@.len() <= max_size ==> r.1@.len() > 0
            && r.1@[0]@.len() == forced@.len(),
        one_suffices(g) && forced@.len() <= 1 <= max_size ==> r.1@.len() > 0 && r.1@[0]@.len()
            <= 1,
        lone(g, forced@, max_size) ==> r.1@.len() == 1,
{
    let mut sink = f;
    let ghost mut log: Seq<BicliqueCover> = Seq::empty();
    let mut k: usize = forced.len();
    let ghost mut done: int = k as int;
    while k <= max_size
        invariant_except_break
            done == k,
            k == forced@.len() ==> log.len() == 0,
        invariant
            begun(g, forced@, log, done),
            lone(g, forced@, max_size) && done > max_size ==> log.len() == 1,
            handed(f, log, ControlFlow::<T, ()>::Continue(())),
            all_covers(g, log, forced@.len() as int, max_size as int),
            all_covers(g, log, forced@.len() as int, k as int),
            by_size(log),
            g.wf(),
            fits(g, max_size as nat),
            forced@.len() <= k,
            sink == f,
            forall|i: int| 0 <= i < forced@.len() ==> g.has_edge(#[trigger] forced@[i]),
            forall|c: BicliqueCover|
                g.is_cover(c@) && c.wf() && forced@.len() <= c@.len() <= max_size
                    ==> call_requires(f, (c,)),
        ensures
            done > max_size,
            begun(g, forced@, log, done),
            lone(g, forced@, max_size) ==> log.len() == 1,
            handed(f, log, ControlFlow::<T, ()>::Continue(())),
            all_covers(g, log, forced@.len() as int, max_size as int),
            by_size(log),
        decreases max_size - k,
    {
        proof {
            lemma_fits_less(g, k as nat, max_size as nat);
        }
        let layer = Layer::initial(g, k, forced.as_slice());
        let ghost first = layer;
        let ghost hoped = sure(g, &first);
        let ghost alone = k == forced@.len() && lone(g, forced@, max_size);
        proof {
            if alone {
                if pairwise_apart(g, forced@) && seeds_suffice(g, forced@) {
                    lemma_seeds_fixed(&first, g, forced@);
                }
                assert(first.fixed(g));
            }
            assert forall|j: int| 0 <= j < layer.bicliques@.len() implies g.bounds(
                #[trigger] sides_of(layer.bicliques@)[j],
            ) by {
                assert(g.bounds(layer.cliques()[j]));
            }
            assert(first.cliques().len() == first.k());
            if k == 1 && forced@.len() <= 1 && one_suffices(g) {
                let t = choose|t: Sides| g.is_cover(seq![t]);
                let one = seq![t];
                assert forall|c: int| 0 <= c < one.len() implies (#[trigger] one[c]).contains_clique(
                    seed(forced@, c),
                ) by {
                    if forced@.len() == 1 {
                        let i = choose|i: int|
                            0 <= i < one.len() && (#[trigger] one[i]).contains(forced@[0]);
                        assert(one[0].contains(forced@[0]));
                    }
                }
                lemma_initial_leads(&first, g, forced@, one);
                assert(hoped);
            }
            if k == forced@.len() && seeds_suffice(g, forced@) {
                assert(g.is_cover(first.cliques()));
                assert(hoped);
            }
            assert(alone ==> hoped);
        }
        let mut containment = Containment::init(g, layer.bicliques.as_slice());
        let mut stack: Vec<Layer> = Vec::new();
        proof {
            assert(layer.cliques().len() == layer.bicliques@.len());
        }
        stack.push(layer);
        let ghost mut fresh = true;
        loop
            invariant
                begun(g, forced@, log, k as int),
                hoped == sure(g, &first),
                first.wf(g),
                first.k() == k,
                fresh ==> stack@.len() == 1 && stack@[0] == first && containment.stored().len() == 0,
                !fresh && hoped ==> log.len() > 0,
                alone == (k == forced@.len() && lone(g, forced@, max_size)),
                alone ==> hoped && first.fixed(g),
                alone && fresh ==> log.len() == 0,
                alone && !fresh ==> log.len() == 1 && stack@.len() == 0,
                handed(f, log, ControlFlow::<T, ()>::Continue(())),
                all_covers(g, log, forced@.len() as int, max_size as int),
                all_covers(g, log, forced@.len() as int, k as int),
                by_size(log),
                g.wf(),
                forced@.len() <= k <= max_size,
                sink == f,
                containment.wf(g),
                containment.depth() == stack@.len(),
                forall|i: int|
                    0 <= i < stack@.len() ==> (#[trigger] stack@[i]).wf(g) && stack@[i].k() == k
                        && grown(stack@[i].cliques(), containment.frame(i)),
                forall|c: BicliqueCover|
                    g.is_cover(c@) && c.wf() && forced@.len() <= c@.len() <= max_size
                        ==> call_requires(f, (c,)),
            ensures
                hoped ==> log.len() > 0,
                alone ==> log.len() == 1,
            decreases load(stack@, g),
        {
            let ghost full = stack@;
            let mut layer = match stack.pop() {
                None => {
                    proof {
                        assert(stack@.len() == 0);
                    }
                    break ;
                },
                Some(layer) => layer,
            };
            let ghost top = layer;
            proof {
                assert(stack@ =~= full.drop_last());
                assert(full.last() == top);
                assert forall|i: int| 0 <= i < stack@.len() implies (#[trigger] stack@[i]).wf(g)
                    && stack@[i].k() == k && grown(stack@[i].cliques(), containment.frame(i)) by {
                    assert(full[i].wf(g));
                }
                assert(grown(top.cliques(), containment.frame(stack@.len() as int)));
            }
            // Whether this is the layer that the search of this size starts
            // with, and the search is sure to come to a cover from it.
            let ghost must = fresh && hoped;
            proof {
                fresh = false;
            }
            let ghost frame = containment.frame(stack@.len() as int);
            let r = layer.forced_updates(g);
            proof {
                lemma_grown_on(&layer, &top, g, frame);
                if must {
                    if g.is_cover(top.cliques()) {
                        lemma_stays_cover(&layer, &top, g);
                        if r.is_err() {
                            let e = choose|e: Edge| layer.stuck(g, e);
                            assert(layer.sticks(g, e));
                        }
                    } else {
                        layer.lemma_single_settled(g);
                    }
                    assert(r.is_ok() && g.is_cover(layer.cliques()));
                    if alone {
                        layer.lemma_fixed_on(&top, g);
                    }
                }
            }
            match r {
                Ok(()) => {},
                Err(()) => {
                    containment.finish_layer(g, layer.bicliques);
                    continue ;
                },
            }
            let ghost forced_in = layer;
            let r = restrict_layer(g, &mut layer);
            proof {
                lemma_grown_on(&layer, &forced_in, g, frame);
                if must {
                    lemma_stays_cover(&layer, &forced_in, g);
                    if r.is_err() {
                        let e = choose|e: Edge| layer.stuck(g, e);
                        assert(layer.sticks(g, e));
                    }
                    assert(r.is_ok() && g.is_cover(layer.cliques()));
                    if alone {
                        layer.lemma_fixed_on(&forced_in, g);
                    }
                }
            }
            match r {
                Ok(()) => {},
                Err(()) => {
                    containment.finish_layer(g, layer.bicliques);
                    continue ;
                },
            }
            proof {
                lemma_grown_twice(&top, &forced_in, &layer, g);
                layer.lemma_open_count_le(&top, g);
            }
            if containment.should_discard(g, layer.bicliques.as_slice()) {
                proof {
                    assert(!must);
                }
                containment.finish_layer(g, layer.bicliques);
                continue ;
            }
            proof {
                assert(must ==> g.is_cover(layer.cliques()));
            }
            if layer.covers(g) {
                let (q, Ghost(more)) = iterate_sat(g, &mut containment, layer, &mut sink);
                proof {
                    lemma_handed_join(f, log, more, q);
                    let all = log + more;
                    assert forall|i: int, j: int| 0 <= i < j < all.len() implies all[i]@.len()
                        <= all[j]@.len() by {
                        if j < log.len() {
                            assert(all[i] == log[i] && all[j] == log[j]);
                        } else {
                            assert(all[j] == more[j - log.len()]);
                            if i < log.len() {
                                assert(all[i] == log[i]);
                            } else {
                                assert(all[i] == more[i - log.len()]);
                            }
                        }
                    }
                    lemma_begun_more(g, forced@, log, more, k as int);
                    log = all;
                }
                match q {
                    ControlFlow::Continue(()) => {},
                    ControlFlow::Break(v) => {
                        proof {
                            assert(all_covers(g, log, forced@.len() as int, k as int));
                            lemma_begun_found(g, forced@, log, k as int, max_size + 1);
                            assert(lone(g, forced@, max_size) ==> alone && log.len() == 1);
                        }
                        return (ControlFlow::Break(v), Ghost(log));
                    },
                }
            } else {
                let mut child: Option<Layer> = None;
                let ghost depth = containment.depth();
                let ghost before_guess = containment;
                loop
                    invariant_except_break
                        child is None,
                        containment.depth() == depth,
                    invariant
                        g.wf(),
                        layer.wf(g),
                        layer.k() == k,
                        top.wf(g),
                        top.k() == k,
                        layer.open_count(g) <= top.open_count(g),
                        containment.wf(g),
                        depth == stack@.len() + 1,
                        grown(layer.cliques(), frame),
                        forall|i: int|
                            0 <= i < stack@.len() ==> containment.frame(i) == before_guess.frame(i),
                        containment.frame(depth - 1) == frame,
                    ensures
                        layer.wf(g),
                        layer.k() == k,
                        containment.wf(g),
                        grown(layer.cliques(), frame),
                        forall|i: int|
                            0 <= i < stack@.len() ==> containment.frame(i) == before_guess.frame(i),
                        containment.frame(depth - 1) == frame,
                        match child {
                            Some(next) => next.wf(g) && next.k() == k && containment.depth() == depth
                                + 1 && layer.open_count(g) < top.open_count(g) && next.open_count(g)
                                < top.open_count(g) && containment.frame(depth as int)
                                == next.cliques(),
                            None => containment.depth() == depth,
                        },
                    decreases layer.open_count(g),
                {
                    let ghost before = layer;
                    match layer.guess_from(g, 1) {
                        None => {
                            break ;
                        },
                        Some(new_layer) => {
                            proof {
                                let (e, c) = choose|e: Edge, c: int|
                                    layer.branched(&before, &new_layer, g, e, c);
                                g.lemma_edge_in_range(e);
                                assert(new_layer.cliques()[c].contains(e));
                                new_layer.lemma_open_count_lt(&before, g, e, c);
                                layer.lemma_open_count_lt(&before, g, e, c);
                                assert forall|j: int|
                                    0 <= j < new_layer.bicliques@.len() implies g.bounds(
                                    #[trigger] sides_of(new_layer.bicliques@)[j],
                                ) by {
                                    assert(g.bounds(new_layer.cliques()[j]));
                                }
                            }
                            if containment.start_layer(g, new_layer.bicliques.as_slice()) {
                                child = Some(new_layer);
                                break ;
                            }
                        },
                    }
                }
                match child {
                    Some(next) => {
                        proof {
                            let longer = stack@.push(layer).push(next);
                            assert forall|i: int| 0 <= i < longer.len() implies (
                            #[trigger] longer[i]).wf(g) && longer[i].k() == k && grown(
                                longer[i].cliques(),
                                containment.frame(i),
                            ) by {
                                if i < stack@.len() {
                                    assert(stack@[i].wf(g));
                                }
                            }
                            lemma_load_push(stack@, layer, g);
                            lemma_load_push(stack@.push(layer), next, g);
                            lemma_weight_split(
                                layer.open_count(g),
                                next.open_count(g),
                                top.open_count(g),
                            );
                        }
                        stack.push(layer);
                        stack.push(next);
                    },
                    None => {
                        containment.finish_layer(g, layer.bicliques);
                    },
                }
            }
        }
        proof {
            // Where the search of this size was sure to come to a cover, it
            // has handed one over.
            if log.len() > 0 {
                lemma_begun_found(g, forced@, log, k as int, k + 1);
            }
            assert(begun(g, forced@, log, k + 1));
            done = k + 1;
        }
        if k == max_size {
            break ;
        }
        k = k + 1;
    }
    (ControlFlow::Continue(()), Ghost(log))
}

} // verus!
