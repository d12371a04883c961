//! Choosing a different member from each of several sets.

use crate::bitset::{members, set_clone, set_items, set_remove};
use tindex::TBitSet;
use vstd::prelude::*;

verus! {

/// The members of each bitset of `sup`.
pub open spec fn sets_of(sup: Seq<TBitSet<usize>>) -> Seq<Set<usize>> {
    sup.map_values(|s: TBitSet<usize>| members(s))
}

/// Whether `m` picks a member from each set of `sup`, and never the same
/// one twice.
pub open spec fn is_matching(sup: Seq<Set<usize>>, m: Seq<usize>) -> bool {
    &&& m.len() == sup.len()
    &&& forall|j: int| 0 <= j < sup.len() ==> (#[trigger] sup[j]).contains(m[j])
    &&& forall|i: int, j: int| 0 <= i < j < m.len() ==> m[i] != m[j]
}

/// Whether a different member can be picked from each set of `sup`.
pub open spec fn has_matching(sup: Seq<Set<usize>>) -> bool {
    exists|m: Seq<usize>| is_matching(sup, m)
}

/// The sets of `sup`, each without `x`.
pub open spec fn without(sup: Seq<Set<usize>>, x: usize) -> Seq<Set<usize>> {
    sup.map_values(|s: Set<usize>| s.remove(x))
}

/// The sets of `sup` after the set at place `i`, whose only member is `x`,
/// has been settled: the last set takes its place, and no set keeps `x`.
pub open spec fn settled(sup: Seq<Set<usize>>, i: int, x: usize) -> Seq<Set<usize>> {
    without(sup.update(i, sup.last()).drop_last(), x)
}

/// A pick for all sets but the last that avoids `x` extends by `x`.
pub proof fn lemma_matching_extend(sup: Seq<Set<usize>>, x: usize, m: Seq<usize>)
    requires
        sup.len() > 0,
        sup.last().contains(x),
        is_matching(without(sup.drop_last(), x), m),
    ensures
        is_matching(sup, m.push(x)),
{
    let rest = without(sup.drop_last(), x);
    let full = m.push(x);
    assert forall|j: int| 0 <= j < sup.len() implies (#[trigger] sup[j]).contains(full[j]) by {
        if j < sup.len() - 1 {
            assert(rest[j].contains(m[j]));
        }
    }
    assert forall|i: int, j: int| 0 <= i < j < full.len() implies full[i] != full[j] by {
        if j == full.len() - 1 {
            assert(rest[i].contains(m[i]));
        }
    }
}

/// A pick for all sets is, without its last, a pick for the other sets that
/// avoids its last.
pub proof fn lemma_matching_shrink(sup: Seq<Set<usize>>, m: Seq<usize>)
    requires
        sup.len() > 0,
        is_matching(sup, m),
    ensures
        sup.last().contains(m.last()),
        is_matching(without(sup.drop_last(), m.last()), m.drop_last()),
{
    let rest = without(sup.drop_last(), m.last());
    let less = m.drop_last();
    assert(sup[sup.len() - 1].contains(m[sup.len() - 1]));
    assert forall|j: int| 0 <= j < rest.len() implies (#[trigger] rest[j]).contains(less[j]) by {
        assert(sup[j].contains(m[j]));
        assert(m[j] != m[m.len() - 1]);
    }
}

/// Settling a set with a single member neither makes nor breaks a pick.
pub proof fn lemma_matching_settled(sup: Seq<Set<usize>>, i: int, x: usize)
    requires
        0 <= i < sup.len(),
        sup[i].contains(x),
        forall|y: usize| sup[i].contains(y) ==> y == x,
    ensures
        has_matching(sup) == has_matching(settled(sup, i, x)),
{
    let after = settled(sup, i, x);
    let last = sup.len() - 1;
    if has_matching(sup) {
        let m = choose|m: Seq<usize>| is_matching(sup, m);
        assert(sup[i].contains(m[i]));
        let less = m.update(i, m.last()).drop_last();
        assert forall|j: int| 0 <= j < after.len() implies (#[trigger] after[j]).contains(
            less[j],
        ) by {
            if j == i {
                assert(sup[last].contains(m[last]));
                assert(m[i] != m[last]);
            } else {
                assert(sup[j].contains(m[j]));
                if j < i {
                    assert(m[j] != m[i]);
                } else {
                    assert(m[i] != m[j]);
                }
            }
        }
        assert forall|a: int, b: int| 0 <= a < b < less.len() implies less[a] != less[b] by {
            if a == i {
                assert(m[b] != m[last]);
            } else if b == i {
                assert(m[a] != m[last]);
            } else {
                assert(m[a] != m[b]);
            }
        }
        assert(is_matching(after, less));
    }
    if has_matching(after) {
        let less = choose|m: Seq<usize>| is_matching(after, m);
        let m = if i == last {
            less.push(x)
        } else {
            less.update(i, x).push(less[i])
        };
        assert forall|j: int| 0 <= j < sup.len() implies (#[trigger] sup[j]).contains(m[j]) by {
            if j == i {
            } else if j == last {
                assert(after[i].contains(less[i]));
            } else {
                assert(after[j].contains(less[j]));
            }
        }
        assert forall|a: int, b: int| 0 <= a < b < m.len() implies m[a] != m[b] by {
            if a != i && a != last {
                assert(after[a].contains(less[a]));
            }
            if b != i && b != last {
                assert(after[b].contains(less[b]));
            }
            if i != last {
                assert(after[i].contains(less[i]));
            }
            if a != i && b != i && b == last {
                assert(less[a] != less[i]);
            }
        }
        assert(is_matching(sup, m));
    }
}

/// Takes `item` out of every set.
pub(crate) fn strike(sup: &mut Vec<TBitSet<usize>>, item: usize)
    ensures
        final(sup)@.len() == old(sup)@.len(),
        sets_of(final(sup)@) == without(sets_of(old(sup)@), item),
{
    let ghost prior = sup@;
    let mut j: usize = 0;
    while j < sup.len()
        invariant
            j <= sup@.len(),
            sup@.len() == prior.len(),
            forall|p: int| 0 <= p < j ==> members(#[trigger] sup@[p]) == members(prior[p]).remove(item),
            forall|p: int| j <= p < sup@.len() ==> sup@[p] == prior[p],
        decreases sup@.len() - j,
    {
        set_remove(&mut sup[j], item);
        j = j + 1;
    }
    proof {
        assert(sets_of(sup@) =~= without(sets_of(prior), item));
    }
}

/// A copy of the sets, each without `item`.
pub(crate) fn struck(sup: &Vec<TBitSet<usize>>, item: usize) -> (r: Vec<TBitSet<usize>>)
    ensures
        r@.len() == sup@.len(),
        sets_of(r@) == without(sets_of(sup@), item),
{
    let mut r: Vec<TBitSet<usize>> = Vec::new();
    let mut j: usize = 0;
    while j < sup.len()
        invariant
            j <= sup@.len(),
            r@.len() == j,
            forall|p: int| 0 <= p < j ==> members(#[trigger] r@[p]) == members(sup@[p]).remove(item),
        decreases sup@.len() - j,
    {
        let mut q = set_clone(&sup[j]);
        set_remove(&mut q, item);
        r.push(q);
        j = j + 1;
    }
    proof {
        assert(sets_of(r@) =~= without(sets_of(sup@), item));
    }
    r
}

/// Whether a different member can be picked from each set, found by trying
/// every member of the last set in turn.
pub(crate) fn recurse(sup: Vec<TBitSet<usize>>) -> (r: bool)
    ensures
        r == has_matching(sets_of(sup@)),
    decreases sup@.len(),
{
    let ghost all = sets_of(sup@);
    let mut work = sup;
    match work.pop() {
        Some(e) => {
            let ghost rest = sets_of(work@);
            proof {
                assert(rest =~= all.drop_last());
                assert(all.last() == members(e));
            }
            let items = set_items(&e);
            if items.len() == 0 {
                proof {
                    if has_matching(all) {
                        let m = choose|m: Seq<usize>| is_matching(all, m);
                        lemma_matching_shrink(all, m);
                        assert(items@.contains(m.last()));
                    }
                }
                return false;
            }
            let mut n: usize = 0;
            while n < items.len()
                invariant
                    n <= items@.len(),
                    all.len() > 0,
                    all == sets_of(sup@),
                    rest == sets_of(work@),
                    rest == all.drop_last(),
                    all.last() == members(e),
                    work@.len() < sup@.len(),
                    forall|i: int| 0 <= i < items@.len() ==> members(e).contains(#[trigger] items@[i]),
                    forall|i: int| 0 <= i < n ==> !has_matching(without(rest, #[trigger] items@[i])),
                decreases items@.len() - n,
            {
                let item = items[n];
                let r = struck(&work, item);
                if recurse(r) {
                    proof {
                        let m = choose|m: Seq<usize>| is_matching(without(rest, item), m);
                        lemma_matching_extend(all, item, m);
                    }
                    return true;
                }
                n = n + 1;
            }
            proof {
                if has_matching(all) {
                    let m = choose|m: Seq<usize>| is_matching(all, m);
                    lemma_matching_shrink(all, m);
                    assert(items@.contains(m.last()));
                    let i = choose|i: int| 0 <= i < items@.len() && items@[i] == m.last();
                    assert(!has_matching(without(rest, items@[i])));
                }
            }
            false
        },
        None => {
            proof {
                assert(is_matching(all, Seq::<usize>::empty()));
            }
            true
        },
    }
}

/// Whether a different member can be picked from each set.
///
/// A set with one member settles that member: the set is dropped and the
/// member leaves every other set. When no such set is left, the members of
/// the last set are tried in turn.
pub fn solve_superset(superset: Vec<TBitSet<usize>>) -> (r: bool)
    ensures
        r == has_matching(sets_of(superset@)),
{
    let ghost given = sets_of(superset@);
    let mut sets = superset;
    let mut changed = true;
    while changed
        invariant
            given == sets_of(superset@),
            has_matching(sets_of(sets@)) == has_matching(given),
        decreases sets@.len() + (if changed { 1int } else { 0int }),
    {
        changed = false;
        let ghost start = sets@.len();
        let mut i: usize = 0;
        while i < sets.len()
            invariant
                given == sets_of(superset@),
                i <= sets@.len(),
                sets@.len() <= start,
                changed ==> sets@.len() < start,
                has_matching(sets_of(sets@)) == has_matching(given),
            decreases sets@.len() - i,
        {
            let items = set_items(&sets[i]);
            let ghost now = sets_of(sets@);
            if items.len() == 0 {
                proof {
                    if has_matching(now) {
                        let m = choose|m: Seq<usize>| is_matching(now, m);
                        assert(now[i as int].contains(m[i as int]));
                        assert(items@.contains(m[i as int]));
                    }
                }
                return false;
            } else if items.len() == 1 {
                let fst = items[0];
                proof {
                    assert forall|y: usize| now[i as int].contains(y) implies y == fst by {
                        assert(items@.contains(y));
                    }
                    assert(now[i as int].contains(items@[0]));
                    lemma_matching_settled(now, i as int, fst);
                }
                changed = true;
                sets.swap_remove(i);
                proof {
                    assert(sets_of(sets@) =~= now.update(i as int, now.last()).drop_last());
                }
                strike(&mut sets, fst);
            } else {
                i = i + 1;
            }
        }
    }
    recurse(sets)
}

} // verus!
