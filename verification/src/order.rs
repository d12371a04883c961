//! The order in which the bicliques of a cover are written down.
//!
//! Two sets of vertices are compared like two numbers in binary: the set
//! that holds the largest vertex on which they differ is the greater one.
//! Bicliques are compared by their left sides, then by their right sides, and
//! a cover lists its bicliques from the greatest down.

use crate::biclique::{sides_of, Biclique, Sides};
use crate::bitset::{members32, set32_items};
use std::cmp::Ordering;
use tindex::TBitSet;
use vstd::prelude::*;

verus! {

/// How one value stands to another in an order.
#[derive(Debug, Clone, Copy, PartialEq, Eq, Structural)]
pub enum Rank {
    Below,
    Same,
    Above,
}

/// Whether `a` comes before `b`: the largest vertex that only one of them
/// holds is held by `b`.
pub open spec fn set_below(a: Set<u32>, b: Set<u32>) -> bool {
    exists|m: u32|
        #![trigger b.contains(m)]
        b.contains(m) && !a.contains(m) && forall|j: u32| j > m ==> a.contains(j) == b.contains(j)
}

/// Whether `a` comes before `b`: by the left sides, and by the right sides
/// where the left sides are the same.
pub open spec fn sides_below(a: Sides, b: Sides) -> bool {
    set_below(a.left, b.left) || (a.left == b.left && set_below(a.right, b.right))
}

/// Whether `cs` is in canonical order: no member comes before a later one.
pub open spec fn canonical(cs: Seq<Sides>) -> bool {
    forall|i: int, j: int| 0 <= i < j < cs.len() ==> !sides_below(cs[i], cs[j])
}

/// How `a` stands to `b` in the order of vertex sets.
pub open spec fn set_rank(a: Set<u32>, b: Set<u32>) -> Rank {
    if set_below(a, b) {
        Rank::Below
    } else if a == b {
        Rank::Same
    } else {
        Rank::Above
    }
}

/// No set comes before itself.
pub proof fn lemma_set_below_irreflexive(a: Set<u32>)
    ensures
        !set_below(a, a),
{
}

/// Of two sets at most one comes before the other.
pub proof fn lemma_set_below_asymmetric(a: Set<u32>, b: Set<u32>)
    requires
        set_below(a, b),
    ensures
        !set_below(b, a),
{
    if set_below(b, a) {
        let m1 = choose|m: u32|
            #![trigger b.contains(m)]
            b.contains(m) && !a.contains(m) && forall|j: u32|
                j > m ==> a.contains(j) == b.contains(j);
        let m2 = choose|m: u32|
            #![trigger a.contains(m)]
            a.contains(m) && !b.contains(m) && forall|j: u32|
                j > m ==> b.contains(j) == a.contains(j);
        if m1 < m2 {
            assert(a.contains(m2) == b.contains(m2));
        } else if m2 < m1 {
            assert(b.contains(m1) == a.contains(m1));
        }
    }
}

/// The order of vertex sets is transitive.
pub proof fn lemma_set_below_transitive(a: Set<u32>, b: Set<u32>, c: Set<u32>)
    requires
        set_below(a, b),
        set_below(b, c),
    ensures
        set_below(a, c),
{
    let m1 = choose|m: u32|
        #![trigger b.contains(m)]
        b.contains(m) && !a.contains(m) && forall|j: u32| j > m ==> a.contains(j) == b.contains(j);
    let m2 = choose|m: u32|
        #![trigger c.contains(m)]
        c.contains(m) && !b.contains(m) && forall|j: u32| j > m ==> b.contains(j) == c.contains(j);
    if m1 > m2 {
        assert(b.contains(m1) == c.contains(m1));
        assert(c.contains(m1) && !a.contains(m1));
        assert forall|j: u32| j > m1 implies a.contains(j) == c.contains(j) by {
            assert(a.contains(j) == b.contains(j));
            assert(b.contains(j) == c.contains(j));
        }
    } else {
        assert(m1 != m2);
        assert(a.contains(m2) == b.contains(m2));
        assert(c.contains(m2) && !a.contains(m2));
        assert forall|j: u32| j > m2 implies a.contains(j) == c.contains(j) by {
            assert(a.contains(j) == b.contains(j));
            assert(b.contains(j) == c.contains(j));
        }
    }
}

/// Two sets that agree above `n` and differ at or below it are ordered one
/// way or the other.
proof fn lemma_set_below_total_upto(a: Set<u32>, b: Set<u32>, n: int)
    requires
        -1 <= n <= u32::MAX,
        forall|j: u32| j > n ==> a.contains(j) == b.contains(j),
        a != b,
    ensures
        set_below(a, b) || set_below(b, a),
    decreases n + 1,
{
    if n < 0 {
        assert(a =~= b);
    } else {
        let m = n as u32;
        if a.contains(m) == b.contains(m) {
            assert forall|j: u32| j > n - 1 implies a.contains(j) == b.contains(j) by {
                if j != m {
                    assert(j > n);
                }
            }
            lemma_set_below_total_upto(a, b, n - 1);
        } else if b.contains(m) {
            assert(b.contains(m) && !a.contains(m));
        } else {
            assert(a.contains(m) && !b.contains(m));
        }
    }
}

/// Any two different sets are ordered one way or the other.
pub proof fn lemma_set_below_total(a: Set<u32>, b: Set<u32>)
    requires
        a != b,
    ensures
        set_below(a, b) || set_below(b, a),
{
    lemma_set_below_total_upto(a, b, u32::MAX as int);
}

/// No biclique comes before itself, and of two bicliques at most one comes
/// before the other.
pub proof fn lemma_sides_below_asymmetric(a: Sides, b: Sides)
    requires
        sides_below(a, b),
    ensures
        !sides_below(b, a),
        a != b,
{
    if set_below(a.left, b.left) {
        lemma_set_below_asymmetric(a.left, b.left);
    } else {
        lemma_set_below_asymmetric(a.right, b.right);
    }
}

/// The order of bicliques is transitive.
pub proof fn lemma_sides_below_transitive(a: Sides, b: Sides, c: Sides)
    requires
        sides_below(a, b),
        sides_below(b, c),
    ensures
        sides_below(a, c),
{
    if set_below(a.left, b.left) && set_below(b.left, c.left) {
        lemma_set_below_transitive(a.left, b.left, c.left);
    } else if a.left == b.left && b.left == c.left {
        lemma_set_below_transitive(a.right, b.right, c.right);
    }
}

/// Any two different bicliques are ordered one way or the other.
pub proof fn lemma_sides_below_total(a: Sides, b: Sides)
    requires
        a != b,
    ensures
        sides_below(a, b) || sides_below(b, a),
{
    if a.left != b.left {
        lemma_set_below_total(a.left, b.left);
    } else {
        assert(a.right != b.right);
        lemma_set_below_total(a.right, b.right);
    }
}

/// A list of bicliques has one canonical order only: two canonical lists
/// with the same members, each as often in the one as in the other, are the
/// same list. To put a canonical list in canonical order again is to leave
/// it as it is.
pub proof fn lemma_canonical_unique(a: Seq<Sides>, b: Seq<Sides>)
    requires
        canonical(a),
        canonical(b),
        a.to_multiset() == b.to_multiset(),
    ensures
        a == b,
    decreases a.len(),
{
    broadcast use vstd::seq_lib::group_to_multiset_ensures;

    vstd::seq_lib::to_multiset_len(a);
    vstd::seq_lib::to_multiset_len(b);
    if a.len() == 0 {
        assert(a =~= b);
    } else {
        let x = a[0];
        let y = b[0];
        assert(a.contains(x));
        assert(b.contains(y));
        assert(a.to_multiset().count(x) > 0);
        assert(b.to_multiset().count(y) > 0);
        assert(b.contains(x));
        assert(a.contains(y));
        let j = choose|j: int| 0 <= j < b.len() && b[j] == x;
        let i = choose|i: int| 0 <= i < a.len() && a[i] == y;
        if x != y {
            assert(!sides_below(b[0], b[j]));
            assert(!sides_below(a[0], a[i]));
            lemma_sides_below_total(x, y);
        }
        let ta = a.drop_first();
        let tb = b.drop_first();
        assert(ta =~= a.remove(0));
        assert(tb =~= b.remove(0));
        vstd::seq_lib::to_multiset_remove(a, 0);
        vstd::seq_lib::to_multiset_remove(b, 0);
        assert(ta.to_multiset() =~= tb.to_multiset());
        assert forall|p: int, q: int| 0 <= p < q < ta.len() implies !sides_below(ta[p], ta[q]) by {
            assert(!sides_below(a[p + 1], a[q + 1]));
        }
        assert forall|p: int, q: int| 0 <= p < q < tb.len() implies !sides_below(tb[p], tb[q]) by {
            assert(!sides_below(b[p + 1], b[q + 1]));
        }
        lemma_canonical_unique(ta, tb);
        assert(a =~= seq![x] + ta);
        assert(b =~= seq![y] + tb);
    }
}

/// How `a` stands to `b` in the order of vertex sets: the two are read from
/// their largest members down, until one has a member that the other lacks.
pub fn bitset_ord(a: &TBitSet<u32>, b: &TBitSet<u32>) -> (r: Rank)
    ensures
        r == set_rank(members32(*a), members32(*b)),
{
    let xs = set32_items(a);
    let ys = set32_items(b);
    let ghost sa = members32(*a);
    let ghost sb = members32(*b);
    let mut i: usize = xs.len();
    let mut j: usize = ys.len();
    loop
        invariant
            i <= xs@.len(),
            j <= ys@.len(),
            xs@.len() - i == ys@.len() - j,
            forall|s: int| i <= s < xs@.len() ==> #[trigger] xs@[s] == ys@[s - i + j],
            forall|s: int, t: int| 0 <= s < t < xs@.len() ==> xs@[s] < xs@[t],
            forall|s: int, t: int| 0 <= s < t < ys@.len() ==> ys@[s] < ys@[t],
            forall|s: int| 0 <= s < xs@.len() ==> sa.contains(#[trigger] xs@[s]),
            forall|s: int| 0 <= s < ys@.len() ==> sb.contains(#[trigger] ys@[s]),
            forall|v: u32| sa.contains(v) ==> xs@.contains(v),
            forall|v: u32| sb.contains(v) ==> ys@.contains(v),
            sa == members32(*a),
            sb == members32(*b),
        decreases i + j,
    {
        if i == 0 && j == 0 {
            proof {
                assert forall|v: u32| sa.contains(v) == sb.contains(v) by {
                    if sa.contains(v) {
                        let s = choose|s: int| 0 <= s < xs@.len() && xs@[s] == v;
                        assert(xs@[s] == ys@[s]);
                    }
                    if sb.contains(v) {
                        let s = choose|s: int| 0 <= s < ys@.len() && ys@[s] == v;
                        assert(xs@[s] == ys@[s]);
                    }
                }
                assert(sa =~= sb);
                lemma_set_below_irreflexive(sa);
            }
            return Rank::Same;
        }
        let below = if i == 0 {
            true
        } else if j == 0 {
            false
        } else if xs[i - 1] < ys[j - 1] {
            true
        } else if xs[i - 1] > ys[j - 1] {
            false
        } else {
            i = i - 1;
            j = j - 1;
            continue ;
        };
        proof {
            if below {
                lemma_first_difference(xs@, ys@, i as int, j as int, sa, sb);
            } else {
                lemma_first_difference(ys@, xs@, j as int, i as int, sb, sa);
                lemma_set_below_asymmetric(sb, sa);
                assert(sa != sb) by {
                    lemma_set_below_irreflexive(sa);
                }
            }
        }
        return if below {
            Rank::Below
        } else {
            Rank::Above
        };
    }
}

/// Where two ascending lists agree from places `i` and `j` on, and the
/// member before `j` in the second is larger than the member before `i` in
/// the first, if there is one, the first set comes before the second.
proof fn lemma_first_difference(
    xs: Seq<u32>,
    ys: Seq<u32>,
    i: int,
    j: int,
    sa: Set<u32>,
    sb: Set<u32>,
)
    requires
        0 <= i <= xs.len(),
        0 < j <= ys.len(),
        xs.len() - i == ys.len() - j,
        forall|s: int| i <= s < xs.len() ==> #[trigger] xs[s] == ys[s - i + j],
        forall|s: int, t: int| 0 <= s < t < xs.len() ==> xs[s] < xs[t],
        forall|s: int, t: int| 0 <= s < t < ys.len() ==> ys[s] < ys[t],
        forall|s: int| 0 <= s < xs.len() ==> sa.contains(#[trigger] xs[s]),
        forall|s: int| 0 <= s < ys.len() ==> sb.contains(#[trigger] ys[s]),
        forall|v: u32| sa.contains(v) ==> xs.contains(v),
        forall|v: u32| sb.contains(v) ==> ys.contains(v),
        i == 0 || xs[i - 1] < ys[j - 1],
    ensures
        set_below(sa, sb),
{
    let m = ys[j - 1];
    assert(sb.contains(m));
    if sa.contains(m) {
        let s = choose|s: int| 0 <= s < xs.len() && xs[s] == m;
        if s >= i {
            assert(xs[s] == ys[s - i + j]);
        } else if s < i - 1 {
            assert(xs[s] < xs[i - 1]);
        }
    }
    assert forall|v: u32| v > m implies sa.contains(v) == sb.contains(v) by {
        if sa.contains(v) {
            let s = choose|s: int| 0 <= s < xs.len() && xs[s] == v;
            if s >= i {
                assert(xs[s] == ys[s - i + j]);
            } else if s < i - 1 {
                assert(xs[s] < xs[i - 1]);
            }
        }
        if sb.contains(v) {
            let s = choose|s: int| 0 <= s < ys.len() && ys[s] == v;
            if s >= j {
                assert(xs[s - j + i] == ys[s]);
            } else if s < j - 1 {
                assert(ys[s] < ys[j - 1]);
            }
        }
    }
}

/// The members of the first `n` of `cliques`.
pub open spec fn first_sides(cliques: Seq<Biclique>, n: usize) -> Seq<Sides> {
    sides_of(cliques.take(n as int))
}

/// The comparison that puts bicliques in canonical order: the greater
/// biclique goes first.
pub fn biclique_ord(a: &Biclique, b: &Biclique) -> (r: Ordering)
    ensures
        (r == Ordering::Less) == sides_below(b@, a@),
        (r == Ordering::Equal) == (a@ == b@),
        (r == Ordering::Greater) == sides_below(a@, b@),
{
    proof {
        if sides_below(b@, a@) {
            lemma_sides_below_asymmetric(b@, a@);
        }
        if sides_below(a@, b@) {
            lemma_sides_below_asymmetric(a@, b@);
        }
        if a@.left != b@.left && !set_below(a@.left, b@.left) {
            lemma_set_below_total(a@.left, b@.left);
        }
        if a@.right != b@.right && !set_below(a@.right, b@.right) {
            lemma_set_below_total(a@.right, b@.right);
        }
    }
    match bitset_ord(&a.left, &b.left) {
        Rank::Below => Ordering::Greater,
        Rank::Above => Ordering::Less,
        Rank::Same => match bitset_ord(&a.right, &b.right) {
            Rank::Below => Ordering::Greater,
            Rank::Above => Ordering::Less,
            Rank::Same => Ordering::Equal,
        },
    }
}

/// `slice::sort_by` on the first `n` bicliques, with [`biclique_ord`] as the
/// comparison: they are rearranged into canonical order, and the bicliques
/// after them stay as they are.
#[verifier::external_body]
pub(crate) fn biclique_sort(bicliques: &mut Vec<Biclique>, n: usize)
    requires
        n <= old(bicliques)@.len(),
    ensures
        final(bicliques)@.len() == old(bicliques)@.len(),
        forall|i: int| n <= i < final(bicliques)@.len() ==> final(bicliques)@[i] == old(bicliques)@[i],
        first_sides(final(bicliques)@, n).to_multiset() == first_sides(
            old(bicliques)@,
            n,
        ).to_multiset(),
        canonical(first_sides(final(bicliques)@, n)),
{
    bicliques[..n].sort_by(|a, b| biclique_ord(a, b))
}

} // verus!
