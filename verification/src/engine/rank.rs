//! Ranking: a stable insertion sort over any type that says when one value
//! ranks before another.

use vstd::prelude::*;
use crate::engine::text::views;

verus! {

/// A type whose values are ranked by their views.
pub trait Ranked: View + Sized {
    /// Whether a value with this view can be compared without overflow.
    spec fn rankable(a: Self::V) -> bool;

    /// Whether a value with view `a` ranks strictly before one with view `b`.
    spec fn outranks(a: Self::V, b: Self::V) -> bool;

    /// Decides whether `self` ranks strictly before `other`.
    fn ranks_before(&self, other: &Self) -> (r: bool)
        requires
            Self::rankable(self@),
            Self::rankable(other@),
        ensures
            r == Self::outranks(self@, other@),
    ;
}

/// Where `h` enters a ranking: the first position whose element does not
/// rank before `h`.
pub open spec fn entry_point<T: Ranked>(s: Seq<T::V>, h: T::V) -> int
    decreases s.len(),
{
    if s.len() == 0 {
        0
    } else if !T::outranks(s[0], h) {
        0
    } else {
        1 + entry_point::<T>(s.drop_first(), h)
    }
}

/// The ranking of a sequence: each element, from the last to the first,
/// enters the ranking of those behind it. Elements of which neither ranks
/// before the other keep their order.
pub open spec fn ranked<T: Ranked>(s: Seq<T::V>) -> Seq<T::V>
    decreases s.len(),
{
    if s.len() == 0 {
        Seq::empty()
    } else {
        let rest = ranked::<T>(s.drop_first());
        rest.insert(entry_point::<T>(rest, s[0]), s[0])
    }
}

/// Whether no element of `s` ranks before one that stands in front of it.
pub open spec fn in_rank_order<T: Ranked>(s: Seq<T::V>) -> bool {
    forall|i: int, j: int| 0 <= i < j < s.len() ==> !(#[trigger] T::outranks(s[j], s[i]))
}

/// Where an element enters: every element in front of that place ranks
/// before it, and the one at that place does not.
pub proof fn lemma_entry_point<T: Ranked>(s: Seq<T::V>, h: T::V)
    ensures
        0 <= entry_point::<T>(s, h) <= s.len(),
        forall|i: int| 0 <= i < entry_point::<T>(s, h) ==> #[trigger] T::outranks(s[i], h),
        entry_point::<T>(s, h) < s.len() ==> !T::outranks(s[entry_point::<T>(s, h)], h),
    decreases s.len(),
{
    if s.len() > 0 && T::outranks(s[0], h) {
        lemma_entry_point::<T>(s.drop_first(), h);
        let p = entry_point::<T>(s.drop_first(), h);
        assert forall|i: int| 0 <= i < p + 1 implies #[trigger] T::outranks(s[i], h) by {
            if i > 0 {
                assert(s[i] == s.drop_first()[i - 1]);
            }
        }
        if p + 1 < s.len() {
            assert(s[p + 1] == s.drop_first()[p]);
        }
    }
}

/// A ranking holds exactly the elements that went in, each as often.
pub proof fn lemma_ranked_permutes<T: Ranked>(s: Seq<T::V>)
    ensures
        ranked::<T>(s).to_multiset() == s.to_multiset(),
        ranked::<T>(s).len() == s.len(),
    decreases s.len(),
{
    broadcast use vstd::seq_lib::group_to_multiset_ensures;

    if s.len() == 0 {
        assert(ranked::<T>(s) =~= s);
    } else {
        let rest = ranked::<T>(s.drop_first());
        lemma_ranked_permutes::<T>(s.drop_first());
        lemma_entry_point::<T>(rest, s[0]);
        vstd::seq_lib::to_multiset_insert(rest, entry_point::<T>(rest, s[0]), s[0]);
        assert(s =~= s.drop_first().insert(0, s[0]));
        vstd::seq_lib::to_multiset_insert(s.drop_first(), 0, s[0]);
    }
}

/// A ranking order that is a strict weak order: it never holds both ways,
/// and being not before carries over a chain.
pub trait RankLaws: Ranked {
    proof fn lemma_asymmetric(a: Self::V, b: Self::V)
        requires
            Self::rankable(a),
            Self::rankable(b),
        ensures
            !(Self::outranks(a, b) && Self::outranks(b, a)),
    ;

    proof fn lemma_not_before_chain(a: Self::V, b: Self::V, c: Self::V)
        requires
            Self::rankable(a),
            Self::rankable(b),
            Self::rankable(c),
            !Self::outranks(a, b),
            !Self::outranks(b, c),
        ensures
            !Self::outranks(a, c),
    ;
}

/// In a ranking no element ranks before one that stands in front of it.
pub proof fn lemma_ranked_in_order<T: RankLaws>(s: Seq<T::V>)
    requires
        forall|i: int| 0 <= i < s.len() ==> #[trigger] T::rankable(s[i]),
    ensures
        in_rank_order::<T>(ranked::<T>(s)),
        forall|i: int| 0 <= i < s.len() ==> #[trigger] T::rankable(ranked::<T>(s)[i]),
        ranked::<T>(s).len() == s.len(),
    decreases s.len(),
{
    if s.len() > 0 {
        let h = s[0];
        let rest = ranked::<T>(s.drop_first());
        assert forall|i: int| 0 <= i < s.drop_first().len() implies #[trigger] T::rankable(
            s.drop_first()[i],
        ) by {
            assert(s.drop_first()[i] == s[i + 1]);
        }
        lemma_ranked_in_order::<T>(s.drop_first());
        lemma_entry_point::<T>(rest, h);
        let p = entry_point::<T>(rest, h);
        let r = rest.insert(p, h);
        assert forall|i: int| 0 <= i < r.len() implies #[trigger] T::rankable(r[i]) by {
            if i < p {
                assert(r[i] == rest[i]);
            } else if i > p {
                assert(r[i] == rest[i - 1]);
            }
        }
        assert forall|i: int, j: int| 0 <= i < j < r.len() implies !(#[trigger] T::outranks(
            r[j],
            r[i],
        )) by {
            if j < p {
                assert(!T::outranks(rest[j], rest[i]));
            } else if j == p {
                assert(T::outranks(rest[i], h));
                T::lemma_asymmetric(rest[i], h);
            } else if i < p {
                assert(!T::outranks(rest[j - 1], rest[i]));
            } else if i == p {
                if j - 1 > p {
                    assert(!T::outranks(rest[j - 1], rest[p]));
                    T::lemma_not_before_chain(rest[j - 1], rest[p], h);
                }
            } else {
                assert(!T::outranks(rest[j - 1], rest[i - 1]));
            }
        }
    }
}

/// Whether every element of `s` ranks before each one behind it.
pub open spec fn strictly_ranked<T: Ranked>(s: Seq<T::V>) -> bool {
    forall|i: int, j: int| 0 <= i < j < s.len() ==> #[trigger] T::outranks(s[i], s[j])
}

/// There is one order at most in which the same elements stand each
/// before all behind it: two sequences of the same elements that are
/// both strictly ranked are one sequence.
pub proof fn lemma_ranking_unique<T: RankLaws>(a: Seq<T::V>, b: Seq<T::V>)
    requires
        strictly_ranked::<T>(a),
        strictly_ranked::<T>(b),
        a.to_multiset() == b.to_multiset(),
        forall|i: int| 0 <= i < a.len() ==> #[trigger] T::rankable(a[i]),
        forall|i: int| 0 <= i < b.len() ==> #[trigger] T::rankable(b[i]),
    ensures
        a == b,
    decreases a.len(),
{
    broadcast use vstd::seq_lib::group_to_multiset_ensures;

    vstd::seq_lib::to_multiset_len(a);
    vstd::seq_lib::to_multiset_len(b);
    assert(a.len() == b.len());
    if a.len() == 0 {
        assert(a =~= b);
    } else {
        assert(a.contains(a[0]));
        assert(b.to_multiset().count(a[0]) > 0);
        assert(b.contains(a[0]));
        let p = choose|p: int| 0 <= p < b.len() && b[p] == a[0];
        if p > 0 {
            assert(T::outranks(b[0], b[p]));
            assert(b.contains(b[0]));
            assert(a.to_multiset().count(b[0]) > 0);
            assert(a.contains(b[0]));
            let q = choose|q: int| 0 <= q < a.len() && a[q] == b[0];
            T::lemma_asymmetric(a[0], b[0]);
            if q > 0 {
                assert(T::outranks(a[0], a[q]));
            }
        }
        assert(a[0] == b[0]);
        let ta = a.remove(0);
        let tb = b.remove(0);
        vstd::seq_lib::to_multiset_remove(a, 0);
        vstd::seq_lib::to_multiset_remove(b, 0);
        assert forall|i: int, j: int| 0 <= i < j < ta.len() implies #[trigger] T::outranks(
            ta[i],
            ta[j],
        ) by {
            assert(T::outranks(a[i + 1], a[j + 1]));
        }
        assert forall|i: int, j: int| 0 <= i < j < tb.len() implies #[trigger] T::outranks(
            tb[i],
            tb[j],
        ) by {
            assert(T::outranks(b[i + 1], b[j + 1]));
        }
        assert forall|i: int| 0 <= i < ta.len() implies #[trigger] T::rankable(ta[i]) by {
            assert(ta[i] == a[i + 1]);
        }
        assert forall|i: int| 0 <= i < tb.len() implies #[trigger] T::rankable(tb[i]) by {
            assert(tb[i] == b[i + 1]);
        }
        lemma_ranking_unique::<T>(ta, tb);
        assert(a =~= seq![a[0]] + ta);
        assert(b =~= seq![b[0]] + tb);
    }
}

/// Whether of every two elements of `s` one ranks before the other.
pub open spec fn all_decided<T: Ranked>(s: Seq<T::V>) -> bool {
    forall|i: int, j: int|
        0 <= i < s.len() && 0 <= j < s.len() && i != j ==> s[i] != s[j] && (#[trigger] T::outranks(
            s[i],
            s[j],
        ) || T::outranks(s[j], s[i]))
}

/// Where of every two elements one ranks before the other, the ranking
/// is strict: each element ranks before all behind it.
pub proof fn lemma_ranked_strict<T: RankLaws>(s: Seq<T::V>)
    requires
        all_decided::<T>(s),
        forall|i: int| 0 <= i < s.len() ==> #[trigger] T::rankable(s[i]),
    ensures
        strictly_ranked::<T>(ranked::<T>(s)),
{
    broadcast use vstd::seq_lib::group_to_multiset_ensures;

    let r = ranked::<T>(s);
    assert(s.no_duplicates()) by {
        assert forall|i: int, j: int| 0 <= i < s.len() && 0 <= j < s.len() && i != j implies s[i]
            != s[j] by {
            assert(T::outranks(s[i], s[j]) || T::outranks(s[j], s[i]));
        }
    }
    s.lemma_multiset_has_no_duplicates();
    lemma_ranked_permutes::<T>(s);
    r.lemma_multiset_has_no_duplicates_conv();
    lemma_ranked_in_order::<T>(s);
    assert forall|i: int, j: int| 0 <= i < j < r.len() implies #[trigger] T::outranks(r[i], r[j]) by {
        assert(!T::outranks(r[j], r[i]));
        assert(r[i] != r[j]);
        assert(r.contains(r[i]));
        assert(r.contains(r[j]));
        assert(r.to_multiset().count(r[i]) > 0);
        assert(r.to_multiset().count(r[j]) > 0);
        assert(s.contains(r[i]));
        assert(s.contains(r[j]));
        let a = choose|a: int| 0 <= a < s.len() && s[a] == r[i];
        let b = choose|b: int| 0 <= b < s.len() && s[b] == r[j];
        assert(T::outranks(s[a], s[b]) || T::outranks(s[b], s[a]));
    }
}

/// Sorts `v` into its ranking.
pub fn sort_ranked<T: Ranked>(v: Vec<T>) -> (out: Vec<T>)
    requires
        forall|i: int| 0 <= i < v.len() ==> T::rankable(#[trigger] v[i]@),
    ensures
        views(out@) == ranked::<T>(views(v@)),
        out.len() == v.len(),
{
    let ghost all = views(v@);
    let mut v = v;
    let mut out: Vec<T> = Vec::new();
    proof {
        assert(all.skip(all.len() as int) =~= Seq::<T::V>::empty());
        assert(views(out@) =~= Seq::<T::V>::empty());
    }
    while v.len() > 0
        invariant
            views(v@) == all.take(v.len() as int),
            v.len() <= all.len(),
            views(out@) == ranked::<T>(all.skip(v.len() as int)),
            out.len() == all.len() - v.len(),
            forall|i: int| 0 <= i < all.len() ==> #[trigger] T::rankable(all[i]),
            forall|i: int| 0 <= i < out.len() ==> T::rankable(#[trigger] out[i]@),
        decreases v.len(),
    {
        let ghost n = v.len() as int;
        let ghost vv = views(v@);
        let h = v.pop().unwrap();
        assert(h@ == vv[n - 1]);
        let mut p: usize = 0;
        let ghost ov = views(out@);
        assert(ov.skip(0) =~= ov);
        while p < out.len() && out[p].ranks_before(&h)
            invariant
                p <= out.len(),
                ov == views(out@),
                T::rankable(h@),
                forall|i: int| 0 <= i < out.len() ==> T::rankable(#[trigger] out[i]@),
                entry_point::<T>(ov, h@) == p + entry_point::<T>(ov.skip(p as int), h@),
            decreases out.len() - p,
        {
            assert(ov.skip(p as int).drop_first() =~= ov.skip(p + 1));
            assert(ov.skip(p as int)[0] == out[p as int]@);
            p += 1;
        }
        proof {
            if (p as int) < out.len() {
                assert(ov.skip(p as int)[0] == out[p as int]@);
            }
            assert(all.skip(n - 1).drop_first() =~= all.skip(n));
            assert(all.skip(n - 1)[0] == h@);
            assert(views(v@) =~= all.take(n - 1));
        }
        let ghost before = out@;
        out.insert(p, h);
        assert(views(out@) =~= ov.insert(p as int, h@));
        assert forall|i: int| 0 <= i < out.len() implies T::rankable(#[trigger] out[i]@) by {
            if i < p {
                assert(out[i] == before[i]);
            } else if i > p {
                assert(out[i] == before[i - 1]);
            }
        }
    }
    assert(all.skip(0) =~= all);
    out
}

/// Whether the ratio `n1 / d1` lies above `n2 / d2`, for positive `d1`, `d2`.
pub open spec fn ratio_above(n1: int, d1: int, n2: int, d2: int) -> bool {
    n1 * d2 > n2 * d1
}

/// Ratios with positive denominators are ordered as numbers are: the
/// relations below, read across a common denominator, carry over a chain.
pub proof fn lemma_ratio_order(n1: int, d1: int, n2: int, d2: int, n3: int, d3: int)
    requires
        d1 > 0,
        d2 > 0,
        d3 > 0,
    ensures
        n1 * d2 <= n2 * d1 && n2 * d3 < n3 * d2 ==> n1 * d3 < n3 * d1,
        n1 * d2 < n2 * d1 && n2 * d3 <= n3 * d2 ==> n1 * d3 < n3 * d1,
        n1 * d2 == n2 * d1 && n2 * d3 == n3 * d2 ==> n1 * d3 == n3 * d1,
{
    let x1 = n1 * (d2 * d3);
    let x2 = n2 * (d1 * d3);
    let x3 = n3 * (d1 * d2);
    assert((n1 * d2 <= n2 * d1) == (x1 <= x2) && (n1 * d2 < n2 * d1) == (x1 < x2)) by (nonlinear_arith)
        requires
            d3 > 0,
            x1 == n1 * (d2 * d3),
            x2 == n2 * (d1 * d3),
    ;
    assert((n2 * d3 <= n3 * d2) == (x2 <= x3) && (n2 * d3 < n3 * d2) == (x2 < x3)) by (nonlinear_arith)
        requires
            d1 > 0,
            x2 == n2 * (d1 * d3),
            x3 == n3 * (d1 * d2),
    ;
    assert((n1 * d3 <= n3 * d1) == (x1 <= x3) && (n1 * d3 < n3 * d1) == (x1 < x3)) by (nonlinear_arith)
        requires
            d2 > 0,
            x1 == n1 * (d2 * d3),
            x3 == n3 * (d1 * d2),
    ;
}

} // verus!
