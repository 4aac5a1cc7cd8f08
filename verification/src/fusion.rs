//! Reciprocal rank fusion of two ranked lists of corpus positions.

use vstd::prelude::*;
use crate::fixed::SCALE;
use crate::policy::RRF_K;
use crate::ranking::{in_rank_order, sort_ranked, Ranked};

verus! {

/// The largest sum one list can contribute to a single position.
pub const LIST_SCORE_LIMIT: u64 = 500_000_000_000_000_000;

/// What a list adds to the fused score of the entry it holds at `rank`,
/// counted from zero: `1 / (k + rank + 1)`, rounded down.
pub open spec fn rank_contribution(k: int, rank: int) -> int {
    SCALE as int / (k + rank + 1)
}

/// The sum of the contributions of every rank at which `list` holds `index`.
pub open spec fn list_score(k: int, list: Seq<usize>, index: int) -> int
    decreases list.len(),
{
    if list.len() == 0 {
        0
    } else {
        list_score(k, list.drop_last(), index) + if list.last() == index {
            rank_contribution(k, list.len() - 1)
        } else {
            0
        }
    }
}

/// The fused score of a corpus position: what both lists contribute, summed.
pub open spec fn fused_score(k: int, a: Seq<usize>, b: Seq<usize>, index: int) -> int {
    list_score(k, a, index) + list_score(k, b, index)
}

/// The positions below `n` that occur in either list, in ascending order,
/// each with its fused score.
pub open spec fn fused_entries(k: int, a: Seq<usize>, b: Seq<usize>, n: int) -> Seq<Ranked>
    decreases n,
{
    if n <= 0 {
        Seq::empty()
    } else {
        let rest = fused_entries(k, a, b, n - 1);
        let index = (n - 1) as usize;
        if a.contains(index) || b.contains(index) {
            rest.push(Ranked { index, score: fused_score(k, a, b, n - 1) as u128 })
        } else {
            rest
        }
    }
}

/// The fused ranking of a corpus of `n` memories with fusion constant `k`.
pub open spec fn fused_ranking(k: int, a: Seq<usize>, b: Seq<usize>, n: int) -> Seq<Ranked> {
    in_rank_order(fused_entries(k, a, b, n))
}

/// A rank contributes at most one half, no more than any rank before it,
/// and nothing at all once the rank reaches `SCALE`.
pub proof fn lemma_rank_contribution_bounds(k: int, rank: int)
    requires
        k >= 1,
        rank >= 0,
    ensures
        0 <= rank_contribution(k, rank) <= rank_contribution(k, 0) <= SCALE / 2,
        rank >= SCALE ==> rank_contribution(k, rank) == 0,
{
    let d = k + rank + 1;
    vstd::arithmetic::div_mod::lemma_div_is_ordered_by_denominator(SCALE as int, k + 1, d);
    vstd::arithmetic::div_mod::lemma_div_is_ordered_by_denominator(SCALE as int, 2, k + 1);
    vstd::arithmetic::div_mod::lemma_div_pos_is_pos(SCALE as int, d);
    if rank >= SCALE {
        vstd::arithmetic::div_mod::lemma_basic_div(SCALE as int, d);
    }
}

/// No list contributes more than `LIST_SCORE_LIMIT` to one position, however
/// long it is and however often it repeats the position.
pub proof fn lemma_list_score_bounds(k: int, list: Seq<usize>, index: int)
    requires
        k >= 1,
    ensures
        0 <= list_score(k, list, index) <= LIST_SCORE_LIMIT,
        list_score(k, list, index) <= list.len() * 500_000_000,
    decreases list.len(),
{
    if list.len() > 0 {
        lemma_list_score_bounds(k, list.drop_last(), index);
        lemma_rank_contribution_bounds(k, list.len() - 1);
        let r = list.len() - 1;
        assert(r * 500_000_000 + 500_000_000 == list.len() * 500_000_000) by (nonlinear_arith)
            requires
                r == list.len() - 1,
        ;
        if r < SCALE {
            assert(list.len() * 500_000_000 <= LIST_SCORE_LIMIT) by (nonlinear_arith)
                requires
                    list.len() <= 1_000_000_000,
                    LIST_SCORE_LIMIT == 500_000_000_000_000_000,
            ;
        }
    }
}

/// A position that a list does not hold gets nothing from it.
pub proof fn lemma_list_score_absent(k: int, list: Seq<usize>, index: int)
    requires
        forall|r: int| 0 <= r < list.len() ==> list[r] != index,
    ensures
        list_score(k, list, index) == 0,
    decreases list.len(),
{
    if list.len() > 0 {
        assert forall|r: int| 0 <= r < list.drop_last().len() implies list.drop_last()[r]
            != index by {
            assert(list.drop_last()[r] == list[r]);
        }
        lemma_list_score_absent(k, list.drop_last(), index);
    }
}

/// A position that a list holds exactly once, at `rank`, gets that rank's
/// contribution from it.
pub proof fn lemma_list_score_single(k: int, list: Seq<usize>, index: int, rank: int)
    requires
        0 <= rank < list.len(),
        list[rank] == index,
        forall|r: int| 0 <= r < list.len() && r != rank ==> list[r] != index,
    ensures
        list_score(k, list, index) == rank_contribution(k, rank),
    decreases list.len(),
{
    let front = list.drop_last();
    if rank == list.len() - 1 {
        assert forall|r: int| 0 <= r < front.len() implies front[r] != index by {
            assert(front[r] == list[r]);
        }
        lemma_list_score_absent(k, front, index);
    } else {
        assert(front[rank] == list[rank]);
        assert forall|r: int| 0 <= r < front.len() && r != rank implies front[r] != index by {
            assert(front[r] == list[r]);
        }
        lemma_list_score_single(k, front, index, rank);
    }
}

/// A position that is first in both lists, and occurs nowhere else in them,
/// has a fused score of twice `1 / (k + 1)`: with the documented constant,
/// twice one sixty-first.
pub proof fn lemma_first_in_both(k: int, a: Seq<usize>, b: Seq<usize>, index: int)
    requires
        a.len() > 0 && a[0] == index,
        b.len() > 0 && b[0] == index,
        forall|r: int| 1 <= r < a.len() ==> a[r] != index,
        forall|r: int| 1 <= r < b.len() ==> b[r] != index,
    ensures
        fused_score(k, a, b, index) == 2 * (SCALE as int / (k + 1)),
        k == RRF_K ==> fused_score(k, a, b, index) == 32_786_884,
{
    lemma_list_score_single(k, a, index, 0);
    lemma_list_score_single(k, b, index, 0);
    assert(1_000_000_000int / 61 == 16_393_442);
}

/// A position that is first in one list, occurs nowhere else in it, and is
/// absent from the other list, has a fused score of `1 / (k + 1)`: with the
/// documented constant, one sixty-first.
pub proof fn lemma_first_in_one(k: int, a: Seq<usize>, b: Seq<usize>, index: int)
    requires
        a.len() > 0 && a[0] == index,
        forall|r: int| 1 <= r < a.len() ==> a[r] != index,
        forall|r: int| 0 <= r < b.len() ==> b[r] != index,
    ensures
        fused_score(k, a, b, index) == SCALE as int / (k + 1),
        fused_score(k, b, a, index) == SCALE as int / (k + 1),
        k == RRF_K ==> fused_score(k, a, b, index) == 16_393_442,
{
    lemma_list_score_single(k, a, index, 0);
    lemma_list_score_absent(k, b, index);
    assert(1_000_000_000int / 61 == 16_393_442);
}

/// Every fused entry names a position of the corpus and carries that
/// position's fused score, which is at most twice `LIST_SCORE_LIMIT`.
pub proof fn lemma_fused_entries(k: int, a: Seq<usize>, b: Seq<usize>, n: int)
    requires
        k >= 1,
        0 <= n <= usize::MAX,
    ensures
        fused_entries(k, a, b, n).len() <= n,
        forall|x: int|
            0 <= x < fused_entries(k, a, b, n).len() ==> {
                let e = #[trigger] fused_entries(k, a, b, n)[x];
                &&& e.index < n
                &&& e.score == fused_score(k, a, b, e.index as int)
                &&& e.score <= 2 * LIST_SCORE_LIMIT
                &&& (a.contains(e.index) || b.contains(e.index))
            },
    decreases n,
{
    if n > 0 {
        lemma_fused_entries(k, a, b, n - 1);
        lemma_list_score_bounds(k, a, n - 1);
        lemma_list_score_bounds(k, b, n - 1);
        let rest = fused_entries(k, a, b, n - 1);
        let all = fused_entries(k, a, b, n);
        assert forall|x: int| 0 <= x < all.len() implies {
            let e = #[trigger] all[x];
            &&& e.index < n
            &&& e.score == fused_score(k, a, b, e.index as int)
            &&& e.score <= 2 * LIST_SCORE_LIMIT
            &&& (a.contains(e.index) || b.contains(e.index))
        } by {
            if x < rest.len() {
                assert(all[x] == rest[x]);
            }
        }
    }
}

/// No position occurs twice among the fused entries, nor in the fused ranking.
pub proof fn lemma_fused_ranking_distinct(k: int, a: Seq<usize>, b: Seq<usize>, n: int)
    requires
        k >= 1,
        0 <= n <= usize::MAX,
    ensures
        crate::ranking::distinct_positions(fused_entries(k, a, b, n)),
        crate::ranking::distinct_positions(fused_ranking(k, a, b, n)),
    decreases n,
{
    if n > 0 {
        lemma_fused_ranking_distinct(k, a, b, n - 1);
        lemma_fused_entries(k, a, b, n - 1);
        let rest = fused_entries(k, a, b, n - 1);
        let all = fused_entries(k, a, b, n);
        assert forall|i: int, j: int| 0 <= i < j < all.len() implies (#[trigger] all[i]).index != (
        #[trigger] all[j]).index by {
            if j < rest.len() {
                assert(all[i] == rest[i] && all[j] == rest[j]);
            } else {
                assert(all[i] == rest[i]);
                assert(rest[i].index < n - 1);
            }
        }
    }
    crate::ranking::lemma_rank_order_keeps_distinct(fused_entries(k, a, b, n));
}

/// The same facts hold of the fused ranking, which holds the same entries.
pub proof fn lemma_fused_ranking(k: int, a: Seq<usize>, b: Seq<usize>, n: int)
    requires
        k >= 1,
        0 <= n <= usize::MAX,
    ensures
        fused_ranking(k, a, b, n).len() == fused_entries(k, a, b, n).len(),
        fused_ranking(k, a, b, n).len() <= n,
        forall|x: int|
            0 <= x < fused_ranking(k, a, b, n).len() ==> {
                let e = #[trigger] fused_ranking(k, a, b, n)[x];
                &&& e.index < n
                &&& e.score == fused_score(k, a, b, e.index as int)
                &&& e.score <= 2 * LIST_SCORE_LIMIT
                &&& (a.contains(e.index) || b.contains(e.index))
            },
{
    let entries = fused_entries(k, a, b, n);
    let ranking = fused_ranking(k, a, b, n);
    lemma_fused_entries(k, a, b, n);
    crate::ranking::lemma_rank_order_keeps_entries(entries);
    assert forall|x: int| 0 <= x < ranking.len() implies {
        let e = #[trigger] ranking[x];
        &&& e.index < n
        &&& e.score == fused_score(k, a, b, e.index as int)
        &&& e.score <= 2 * LIST_SCORE_LIMIT
        &&& (a.contains(e.index) || b.contains(e.index))
    } by {
        let e = ranking[x];
        assert(ranking.contains(e));
        assert(entries.contains(e));
        let i = choose|i: int| 0 <= i < entries.len() && entries[i] == e;
        assert(entries[i] == e);
    }
}

fn accumulate(
    k: u64,
    list: &Vec<usize>,
    scores: &mut Vec<u128>,
    seen: &mut Vec<bool>,
    Ghost(before): Ghost<Seq<usize>>,
)
    requires
        k >= 1,
        old(scores)@.len() == old(seen)@.len(),
        forall|x: int|
            0 <= x < old(scores)@.len() ==> #[trigger] old(scores)@[x] == list_score(k as int, before, x),
        forall|x: int|
            0 <= x < old(seen)@.len() ==> #[trigger] old(seen)@[x] == before.contains(x as usize),
    ensures
        final(scores)@.len() == old(scores)@.len(),
        final(seen)@.len() == old(seen)@.len(),
        forall|x: int|
            0 <= x < final(scores)@.len() ==> #[trigger] final(scores)@[x] == list_score(k as int, before, x)
                + list_score(k as int, list@, x),
        forall|x: int|
            0 <= x < final(seen)@.len() ==> #[trigger] final(seen)@[x] == (before.contains(
                x as usize,
            ) || list@.contains(x as usize)),
{
    let n = scores.len();
    let mut r: usize = 0;
    proof {
        assert(list@.take(0) =~= Seq::<usize>::empty());
    }
    while r < list.len()
        invariant
            k >= 1,
            r <= list.len(),
            scores@.len() == n,
            seen@.len() == n,
            forall|x: int|
                0 <= x < n ==> #[trigger] scores@[x] == list_score(k as int, before, x) + list_score(
                    k as int,
                    list@.take(r as int),
                    x,
                ),
            forall|x: int|
                0 <= x < n ==> #[trigger] seen@[x] == (before.contains(x as usize)
                    || list@.take(r as int).contains(x as usize)),
        decreases list.len() - r,
    {
        let index = list[r];
        let ghost prefix = list@.take(r as int);
        let ghost next = list@.take(r + 1);
        proof {
            assert(next.drop_last() =~= prefix);
            assert(next.last() == index);
            assert forall|x: usize| next.contains(x) <==> (prefix.contains(x) || x == index) by {
                if next.contains(x) {
                    let k = choose|k: int| 0 <= k < next.len() && next[k] == x;
                    if k < r {
                        assert(prefix[k] == x);
                    }
                }
                if prefix.contains(x) {
                    let k = choose|k: int| 0 <= k < prefix.len() && prefix[k] == x;
                    assert(next[k] == x);
                }
                assert(next[r as int] == index);
            }
        }
        if index < n {
            let share: u128 = (SCALE as u128) / (k as u128 + r as u128 + 1);
            proof {
                lemma_list_score_bounds(k as int, before, index as int);
                lemma_list_score_bounds(k as int, prefix, index as int);
                lemma_rank_contribution_bounds(k as int, r as int);
            }
            scores[index] = scores[index] + share;
            seen[index] = true;
        }
        r = r + 1;
    }
    proof {
        assert(list@.take(r as int) =~= list@);
    }
}

/// Fuses two ranked lists over a corpus of `n` memories, with fusion
/// constant `k`.
///
/// Every position below `n` that occurs in either list is returned once, with
/// the sum of the reciprocal-rank contributions of both lists; positions that
/// are not below `n` are ignored. The result is in ranking order.
pub fn rrf(list_a: &Vec<usize>, list_b: &Vec<usize>, n: usize, k: u64) -> (fused: Vec<Ranked>)
    requires
        k >= 1,
    ensures
        fused@ == fused_ranking(k as int, list_a@, list_b@, n as int),
{
    let mut scores: Vec<u128> = vec![0u128; n];
    let mut seen: Vec<bool> = vec![false; n];
    accumulate(k, list_a, &mut scores, &mut seen, Ghost(Seq::empty()));
    accumulate(k, list_b, &mut scores, &mut seen, Ghost(list_a@));
    let mut entries: Vec<Ranked> = Vec::new();
    let mut index: usize = 0;
    while index < n
        invariant
            index <= n,
            scores@.len() == n,
            seen@.len() == n,
            forall|x: int|
                0 <= x < n ==> #[trigger] scores@[x] == fused_score(k as int, list_a@, list_b@, x),
            forall|x: int|
                0 <= x < n ==> #[trigger] seen@[x] == (list_a@.contains(x as usize)
                    || list_b@.contains(x as usize)),
            entries@ == fused_entries(k as int, list_a@, list_b@, index as int),
        decreases n - index,
    {
        if seen[index] {
            entries.push(Ranked { index, score: scores[index] });
        }
        index = index + 1;
    }
    sort_ranked(&entries)
}

} // verus!
