//! Ranked lists: entries that pair a position in the corpus with a score, and
//! the total order that every stage of the pipeline sorts by.

use vstd::prelude::*;
use vstd::relations::{sorted_by, total_ordering};
use vstd::seq_lib::{lemma_multiset_commutative, lemma_sorted_unique};

verus! {

/// A corpus position together with the score it currently carries.
#[derive(Clone, Copy, Debug, PartialEq, Eq, Structural)]
pub struct Ranked {
    pub index: usize,
    pub score: u128,
}

/// `a` comes no later than `b`: a higher score first, and among equal scores
/// the lower corpus position first.
pub open spec fn outranks(a: Ranked, b: Ranked) -> bool {
    a.score > b.score || (a.score == b.score && a.index <= b.index)
}

/// The ranking order as a relation.
pub open spec fn rank_order() -> spec_fn(Ranked, Ranked) -> bool {
    |a: Ranked, b: Ranked| outranks(a, b)
}

/// The entries of `s` arranged in ranking order.
pub open spec fn in_rank_order(s: Seq<Ranked>) -> Seq<Ranked> {
    s.sort_by(rank_order())
}

/// The corpus positions of a ranked list, in order.
pub open spec fn positions(s: Seq<Ranked>) -> Seq<usize> {
    s.map_values(|r: Ranked| r.index)
}

/// The ranking order is total: any two entries compare, and only identical
/// entries compare both ways.
pub proof fn lemma_rank_order_total()
    ensures
        total_ordering(rank_order()),
{
    let leq = rank_order();
    assert forall|x: Ranked, y: Ranked| #[trigger] leq(x, y) && #[trigger] leq(y, x) implies x
        == y by {}
    assert(vstd::relations::reflexive(leq));
    assert(vstd::relations::antisymmetric(leq));
    assert(vstd::relations::transitive(leq));
    assert(vstd::relations::strongly_connected(leq));
}

/// A sequence in ranking order with the same entries as `s` is the ranking of `s`.
pub proof fn lemma_rank_order_unique(s: Seq<Ranked>, t: Seq<Ranked>)
    requires
        sorted_by(t, rank_order()),
        t.to_multiset() == s.to_multiset(),
    ensures
        t == in_rank_order(s),
{
    lemma_rank_order_total();
    s.lemma_sort_by_ensures(rank_order());
    lemma_sorted_unique(t, s.sort_by(rank_order()), rank_order());
}

/// Ranking keeps exactly the entries it was given.
pub proof fn lemma_rank_order_keeps_entries(s: Seq<Ranked>)
    ensures
        in_rank_order(s).len() == s.len(),
        in_rank_order(s).to_multiset() == s.to_multiset(),
        sorted_by(in_rank_order(s), rank_order()),
        forall|x: Ranked| s.contains(x) <==> #[trigger] in_rank_order(s).contains(x),
{
    broadcast use vstd::seq_lib::group_to_multiset_ensures;

    lemma_rank_order_total();
    s.lemma_sort_by_ensures(rank_order());
    let t = in_rank_order(s);
    assert(t.to_multiset().len() == s.to_multiset().len());
    assert forall|x: Ranked| s.contains(x) <==> #[trigger] t.contains(x) by {
        assert(s.contains(x) <==> s.to_multiset().count(x) > 0);
        assert(t.contains(x) <==> t.to_multiset().count(x) > 0);
    }
}

/// No corpus position occurs twice in the list.
pub open spec fn distinct_positions(s: Seq<Ranked>) -> bool {
    forall|i: int, j: int| 0 <= i < j < s.len() ==> (#[trigger] s[i]).index != (#[trigger] s[j]).index
}

/// In a list without repeated positions no entry occurs twice.
pub proof fn lemma_distinct_positions_count(s: Seq<Ranked>, x: Ranked)
    requires
        distinct_positions(s),
    ensures
        s.to_multiset().count(x) <= 1,
    decreases s.len(),
{
    broadcast use vstd::seq_lib::group_to_multiset_ensures;

    if s.len() > 0 {
        let front = s.drop_last();
        assert(distinct_positions(front)) by {
            assert forall|i: int, j: int| 0 <= i < j < front.len() implies (#[trigger] front[i]).index
                != (#[trigger] front[j]).index by {
                assert(front[i] == s[i] && front[j] == s[j]);
            }
        }
        lemma_distinct_positions_count(front, x);
        assert(s =~= front.push(s.last()));
        vstd::seq_lib::to_multiset_build(front, s.last());
        if s.last() == x && front.to_multiset().count(x) > 0 {
            assert(front.contains(x));
            let i = choose|i: int| 0 <= i < front.len() && front[i] == x;
            assert(s[i].index == s[s.len() - 1].index);
        }
    }
}

/// An entry that stands at two places of a list occurs at least twice in it.
pub proof fn lemma_repeated_entry_count(t: Seq<Ranked>, i: int, j: int)
    requires
        0 <= i < j < t.len(),
        t[i] == t[j],
    ensures
        t.to_multiset().count(t[i]) >= 2,
{
    broadcast use vstd::seq_lib::group_to_multiset_ensures;

    let head = t.take(j);
    let tail = t.skip(j);
    assert(t =~= head + tail);
    lemma_multiset_commutative(head, tail);
    assert(head[i] == t[i]);
    assert(head.contains(t[i]));
    assert(tail[0] == t[j]);
    assert(tail.contains(t[i]));
}

/// Ranking a list without repeated positions gives a list without repeated
/// positions.
pub proof fn lemma_rank_order_keeps_distinct(s: Seq<Ranked>)
    requires
        distinct_positions(s),
    ensures
        distinct_positions(in_rank_order(s)),
{
    let t = in_rank_order(s);
    lemma_rank_order_keeps_entries(s);
    assert forall|i: int, j: int| 0 <= i < j < t.len() implies (#[trigger] t[i]).index != (
    #[trigger] t[j]).index by {
        if t[i].index == t[j].index {
            assert(t.contains(t[i]) && t.contains(t[j]));
            assert(s.contains(t[i]) && s.contains(t[j]));
            let p = choose|p: int| 0 <= p < s.len() && s[p] == t[i];
            let q = choose|q: int| 0 <= q < s.len() && s[q] == t[j];
            if p == q {
                lemma_repeated_entry_count(t, i, j);
                lemma_distinct_positions_count(s, t[i]);
            } else if p < q {
                assert(s[p].index != s[q].index);
            } else {
                assert(s[q].index != s[p].index);
            }
        }
    }
}

fn precedes(a: &Ranked, b: &Ranked) -> (r: bool)
    ensures
        r == outranks(*a, *b),
{
    a.score > b.score || (a.score == b.score && a.index <= b.index)
}

fn merge(a: &Vec<Ranked>, b: &Vec<Ranked>) -> (out: Vec<Ranked>)
    requires
        sorted_by(a@, rank_order()),
        sorted_by(b@, rank_order()),
    ensures
        sorted_by(out@, rank_order()),
        out@.to_multiset() == a@.to_multiset().add(b@.to_multiset()),
{
    broadcast use vstd::seq_lib::group_to_multiset_ensures;
    broadcast use vstd::multiset::group_multiset_axioms;

    let mut out: Vec<Ranked> = Vec::new();
    let mut i: usize = 0;
    let mut j: usize = 0;
    proof {
        assert(a@.subrange(0, 0) =~= Seq::<Ranked>::empty());
        assert(b@.subrange(0, 0) =~= Seq::<Ranked>::empty());
        assert(out@.to_multiset() =~= a@.subrange(0, 0).to_multiset().add(
            b@.subrange(0, 0).to_multiset(),
        ));
    }
    while i < a.len() || j < b.len()
        invariant
            i <= a.len(),
            j <= b.len(),
            sorted_by(a@, rank_order()),
            sorted_by(b@, rank_order()),
            sorted_by(out@, rank_order()),
            out@.to_multiset() == a@.subrange(0, i as int).to_multiset().add(
                b@.subrange(0, j as int).to_multiset(),
            ),
            forall|k: int, m: int|
                #![trigger out@[k], a@[m]]
                0 <= k < out@.len() && i <= m < a@.len() ==> outranks(out@[k], a@[m]),
            forall|k: int, m: int|
                #![trigger out@[k], b@[m]]
                0 <= k < out@.len() && j <= m < b@.len() ==> outranks(out@[k], b@[m]),
        decreases a.len() - i + (b.len() - j),
    {
        let take_left = if i >= a.len() {
            false
        } else if j >= b.len() {
            true
        } else {
            precedes(&a[i], &b[j])
        };
        let ghost prev = out@;
        if take_left {
            let x = a[i];
            out.push(x);
            proof {
                assert(out@ =~= prev.push(x));
                assert(a@.subrange(0, i + 1) =~= a@.subrange(0, i as int).push(x));
                vstd::seq_lib::to_multiset_build(prev, x);
                vstd::seq_lib::to_multiset_build(a@.subrange(0, i as int), x);
                assert(out@.to_multiset() =~= a@.subrange(0, i + 1).to_multiset().add(
                    b@.subrange(0, j as int).to_multiset(),
                ));
                assert forall|k: int, m: int|
                    #![trigger out@[k], a@[m]]
                    0 <= k < out@.len() && i + 1 <= m < a@.len() implies outranks(out@[k], a@[m]) by {
                    if k == prev.len() {
                        assert(rank_order()(a@[i as int], a@[m]));
                    }
                }
                assert forall|k: int, m: int|
                    #![trigger out@[k], b@[m]]
                    0 <= k < out@.len() && j <= m < b@.len() implies outranks(out@[k], b@[m]) by {
                    if k == prev.len() {
                        assert(rank_order()(b@[j as int], b@[m]) || m == j);
                    }
                }
                assert forall|k: int, m: int| 0 <= k < m < out@.len() implies rank_order()(
                    out@[k],
                    out@[m],
                ) by {
                    if m == prev.len() {
                        assert(outranks(prev[k], a@[i as int]));
                    } else {
                        assert(rank_order()(prev[k], prev[m]));
                    }
                }
            }
            i = i + 1;
        } else {
            let x = b[j];
            out.push(x);
            proof {
                assert(out@ =~= prev.push(x));
                assert(b@.subrange(0, j + 1) =~= b@.subrange(0, j as int).push(x));
                vstd::seq_lib::to_multiset_build(prev, x);
                vstd::seq_lib::to_multiset_build(b@.subrange(0, j as int), x);
                assert(out@.to_multiset() =~= a@.subrange(0, i as int).to_multiset().add(
                    b@.subrange(0, j + 1).to_multiset(),
                ));
                assert forall|k: int, m: int|
                    #![trigger out@[k], b@[m]]
                    0 <= k < out@.len() && j + 1 <= m < b@.len() implies outranks(out@[k], b@[m]) by {
                    if k == prev.len() {
                        assert(rank_order()(b@[j as int], b@[m]));
                    }
                }
                assert forall|k: int, m: int|
                    #![trigger out@[k], a@[m]]
                    0 <= k < out@.len() && i <= m < a@.len() implies outranks(out@[k], a@[m]) by {
                    if k == prev.len() {
                        assert(rank_order()(a@[i as int], a@[m]) || m == i);
                    }
                }
                assert forall|k: int, m: int| 0 <= k < m < out@.len() implies rank_order()(
                    out@[k],
                    out@[m],
                ) by {
                    if m == prev.len() {
                        assert(outranks(prev[k], b@[j as int]));
                    } else {
                        assert(rank_order()(prev[k], prev[m]));
                    }
                }
            }
            j = j + 1;
        }
    }
    proof {
        assert(a@.subrange(0, i as int) =~= a@);
        assert(b@.subrange(0, j as int) =~= b@);
    }
    out
}

fn sort_range(v: &Vec<Ranked>, lo: usize, hi: usize) -> (out: Vec<Ranked>)
    requires
        lo <= hi <= v.len(),
    ensures
        sorted_by(out@, rank_order()),
        out@.to_multiset() == v@.subrange(lo as int, hi as int).to_multiset(),
    decreases hi - lo,
{
    broadcast use vstd::seq_lib::group_to_multiset_ensures;

    if hi - lo == 0 {
        Vec::new()
    } else if hi - lo == 1 {
        let mut out: Vec<Ranked> = Vec::new();
        out.push(v[lo]);
        proof {
            assert(v@.subrange(lo as int, hi as int) =~= Seq::<Ranked>::empty().push(v@[lo as int]));
            assert(out@ =~= Seq::<Ranked>::empty().push(v@[lo as int]));
        }
        out
    } else {
        let mid = lo + (hi - lo) / 2;
        let left = sort_range(v, lo, mid);
        let right = sort_range(v, mid, hi);
        proof {
            assert(v@.subrange(lo as int, hi as int) =~= v@.subrange(lo as int, mid as int)
                + v@.subrange(mid as int, hi as int));
            lemma_multiset_commutative(
                v@.subrange(lo as int, mid as int),
                v@.subrange(mid as int, hi as int),
            );
        }
        merge(&left, &right)
    }
}

/// Arranges a list in ranking order.
pub fn sort_ranked(v: &Vec<Ranked>) -> (out: Vec<Ranked>)
    ensures
        out@ == in_rank_order(v@),
{
    let out = sort_range(v, 0, v.len());
    proof {
        assert(v@.subrange(0, v@.len() as int) =~= v@);
        lemma_rank_order_unique(v@, out@);
    }
    out
}

/// The corpus positions of a ranked list.
pub fn positions_of(v: &Vec<Ranked>) -> (out: Vec<usize>)
    ensures
        out@ == positions(v@),
{
    let mut out: Vec<usize> = Vec::new();
    let mut i: usize = 0;
    while i < v.len()
        invariant
            i <= v.len(),
            out@ == positions(v@.subrange(0, i as int)),
        decreases v.len() - i,
    {
        out.push(v[i].index);
        proof {
            assert(positions(v@.subrange(0, i + 1)) =~= positions(v@.subrange(0, i as int)).push(
                v@[i as int].index,
            ));
        }
        i = i + 1;
    }
    proof {
        assert(v@.subrange(0, i as int) =~= v@);
    }
    out
}

} // verus!
