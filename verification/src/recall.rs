//! Hybrid recall: lexical and semantic rankings fused by reciprocal rank,
//! re-scored by strength, recency and access, primed through shared entities
//! and temporal neighbours, and reinforced on return.

use vstd::prelude::*;
use crate::activation::{
    lemma_spread_gain_bounds, spread, spread_activation, temporal, temporal_cooccurrence_boost,
    TEMPORAL_SCORE_LIMIT,
};
use crate::embed::{semantic_ranking, vector_search, Embedder};
use crate::fixed::SCALE;
use crate::fusion::{fused_ranking, lemma_fused_ranking, rrf, LIST_SCORE_LIMIT};
use crate::memory::{views, Embedding, MemoryRecord, MemoryView};
use crate::policy::Policy;
use crate::ranking::{
    distinct_positions, in_rank_order, lemma_rank_order_keeps_entries, positions, positions_of,
    sort_ranked, Ranked,
};
use crate::scoring::{
    access_weight, access_weight_of, composite_score, composite_score_value,
    lemma_access_weight_bounds, lemma_composite_score_bounds, recency_boost, recency_boost_at,
};
use crate::store::{touch_in, MemoryStore, StoreError};
use crate::strength::{
    effective_strength, effective_strength_at, touched_strength, touched_strength_at,
};

verus! {

/// The largest composite score a candidate can have.
pub const SCORE_LIMIT: u64 = 2_000_000_000_000_000_000;

/// A recalled memory, as it was before the recall reinforced it, with its
/// relevance score in units of `1 / SCALE`.
#[derive(Debug)]
pub struct RecallResult {
    pub memory: MemoryRecord,
    pub score: u128,
}

/// The mathematical value of a [`RecallResult`].
pub struct RecallResultView {
    pub memory: MemoryView,
    pub score: nat,
}

impl View for RecallResult {
    type V = RecallResultView;

    open spec fn view(&self) -> RecallResultView {
        RecallResultView { memory: self.memory@, score: self.score as nat }
    }
}

/// Why a recall failed.
#[derive(Debug)]
pub enum RecallError {
    /// The store failed.
    Db(StoreError),
    /// The query could not be embedded.
    Embedding(String),
}

impl RecallError {
    /// The description of the failure: what failed, then the details.
    pub open spec fn text(&self) -> Seq<char> {
        match self {
            RecallError::Db(e) => "database error: "@ + e.text(),
            RecallError::Embedding(m) => "embedding error: "@ + m@,
        }
    }

    /// A description of the failure.
    pub fn message(&self) -> (r: String)
        ensures
            r@ == self.text(),
    {
        match self {
            RecallError::Db(e) => {
                let mut s = "database error: ".to_owned();
                s.push_str(e.message().as_str());
                s
            },
            RecallError::Embedding(m) => {
                let mut s = "embedding error: ".to_owned();
                s.push_str(m.as_str());
                s
            },
        }
    }
}

/// How many fused candidates are re-scored for a given limit: the limit
/// times the policy's multiplier, capped at the largest `usize`, and never
/// fewer than the policy's minimum. With the documented constants,
/// `max(limit * 10, 50)`.
pub open spec fn candidate_count(policy: Policy, limit: int) -> int {
    let wanted = if limit * policy.candidate_multiplier > usize::MAX {
        usize::MAX as int
    } else {
        limit * policy.candidate_multiplier
    };
    if wanted < policy.min_candidates {
        policy.min_candidates as int
    } else {
        wanted
    }
}

/// The first `n` entries of a list, or all of it if it is shorter.
pub open spec fn first(s: Seq<Ranked>, n: int) -> Seq<Ranked> {
    if 0 <= n < s.len() {
        s.take(n)
    } else {
        s
    }
}

/// The largest access count in the corpus; zero if none is positive.
pub open spec fn max_access(corpus: Seq<MemoryView>) -> int
    decreases corpus.len(),
{
    if corpus.len() == 0 {
        0
    } else {
        let rest = max_access(corpus.drop_last());
        if corpus.last().access_count > rest {
            corpus.last().access_count
        } else {
            rest
        }
    }
}

/// The composite score of a fused candidate at `now`: its fused score times
/// its decayed strength, its recency boost and its access weight.
pub open spec fn candidate_score(
    policy: Policy,
    corpus: Seq<MemoryView>,
    entry: Ranked,
    now: int,
) -> int {
    if entry.index < corpus.len() {
        let m = corpus[entry.index as int];
        composite_score(
            entry.score as int,
            effective_strength_at(policy, m, now),
            recency_boost_at(m, now),
            access_weight_of(m.access_count, max_access(corpus)),
        )
    } else {
        0
    }
}

/// The candidates with their composite scores, in the order given.
pub open spec fn scored(
    policy: Policy,
    corpus: Seq<MemoryView>,
    candidates: Seq<Ranked>,
    now: int,
) -> Seq<Ranked> {
    Seq::new(
        candidates.len(),
        |i: int|
            Ranked {
                index: candidates[i].index,
                score: candidate_score(policy, corpus, candidates[i], now) as u128,
            },
    )
}

/// The candidates of a recall: the head of the fused ranking.
pub open spec fn candidates(
    policy: Policy,
    corpus: Seq<MemoryView>,
    lexical: Seq<usize>,
    query: Seq<i16>,
    limit: int,
) -> Seq<Ranked> {
    first(
        fused_ranking(
            policy.rrf_k as int,
            lexical,
            positions(semantic_ranking(policy.similarity_threshold as int, query, corpus)),
            corpus.len() as int,
        ),
        candidate_count(policy, limit),
    )
}

/// What a recall returns, as corpus positions with final scores: the
/// candidates re-scored, primed by spreading activation and then by temporal
/// co-occurrence, put in ranking order and cut to `limit`. Equal final
/// scores are ordered by corpus position, that is, by id.
pub open spec fn recall_ranking(
    policy: Policy,
    corpus: Seq<MemoryView>,
    lexical: Seq<usize>,
    query: Seq<i16>,
    limit: int,
    now: int,
) -> Seq<Ranked> {
    let base = scored(policy, corpus, candidates(policy, corpus, lexical, query, limit), now);
    let primed = temporal(
        corpus,
        spread(corpus, base, policy.spread_factor as int),
        policy.temporal_weight as int,
    );
    first(in_rank_order(primed), limit)
}

/// The results named by a ranking: each memory as the corpus holds it, with
/// the score of its entry.
pub open spec fn results_of(corpus: Seq<MemoryView>, ranking: Seq<Ranked>) -> Seq<
    RecallResultView,
> {
    Seq::new(
        ranking.len(),
        |i: int|
            RecallResultView {
                memory: corpus[ranking[i].index as int],
                score: ranking[i].score as nat,
            },
    )
}

/// The corpus after the first `upto` results have been reinforced, one after
/// the other: each memory is given its strength at `now`, decayed and then
/// boosted, computed from the memory as it was returned.
pub open spec fn reinforced(
    policy: Policy,
    corpus: Seq<MemoryView>,
    results: Seq<RecallResultView>,
    now: int,
    upto: int,
) -> Seq<MemoryView>
    decreases upto,
{
    if upto <= 0 {
        corpus
    } else {
        let m = results[upto - 1].memory;
        touch_in(
            reinforced(policy, corpus, results, now, upto - 1),
            m.id,
            touched_strength_at(policy, m, now),
            now,
        )
    }
}

/// No memory occurs twice among the results.
pub open spec fn distinct_memories(results: Seq<RecallResultView>) -> bool {
    forall|i: int, j: int|
        0 <= i < j < results.len() ==> (#[trigger] results[i]).memory.id != (
        #[trigger] results[j]).memory.id
}

/// The views of a list of results, in order.
pub open spec fn result_views(results: Seq<RecallResult>) -> Seq<RecallResultView> {
    results.map_values(|r: RecallResult| r@)
}

/// No access count in the corpus exceeds the largest.
pub proof fn lemma_max_access(corpus: Seq<MemoryView>, i: int)
    requires
        0 <= i < corpus.len(),
    ensures
        corpus[i].access_count <= max_access(corpus),
        0 <= max_access(corpus),
    decreases corpus.len(),
{
    if i < corpus.len() - 1 {
        lemma_max_access(corpus.drop_last(), i);
    } else if corpus.len() > 1 {
        lemma_max_access(corpus.drop_last(), 0);
    }
}

fn max_access_count(memories: &Vec<MemoryRecord>) -> (max: i64)
    ensures
        max == max_access(views(memories@)),
{
    let ghost corpus = views(memories@);
    let mut max: i64 = 0;
    let mut i: usize = 0;
    proof {
        assert(corpus.take(0) =~= Seq::<MemoryView>::empty());
    }
    while i < memories.len()
        invariant
            i <= memories.len(),
            corpus == views(memories@),
            max == max_access(corpus.take(i as int)),
        decreases memories.len() - i,
    {
        proof {
            assert(corpus[i as int] == memories@[i as int]@);
            assert(corpus.take(i + 1).drop_last() =~= corpus.take(i as int));
        }
        if memories[i].access_count > max {
            max = memories[i].access_count;
        }
        i = i + 1;
    }
    proof {
        assert(corpus.take(i as int) =~= corpus);
    }
    max
}

fn candidate_limit(policy: &Policy, limit: usize) -> (count: usize)
    ensures
        count == candidate_count(*policy, limit as int),
{
    let wanted = if policy.candidate_multiplier == 0 {
        0
    } else if limit > usize::MAX / policy.candidate_multiplier {
        proof {
            let m = policy.candidate_multiplier as int;
            assert(limit * m > usize::MAX) by (nonlinear_arith)
                requires
                    limit > (usize::MAX as int) / m,
                    m > 0,
            ;
        }
        usize::MAX
    } else {
        proof {
            let m = policy.candidate_multiplier as int;
            assert(limit * m <= usize::MAX) by (nonlinear_arith)
                requires
                    limit <= (usize::MAX as int) / m,
                    m > 0,
                    limit >= 0,
            ;
        }
        limit * policy.candidate_multiplier
    };
    proof {
        if policy.candidate_multiplier == 0 {
            assert(limit * 0 == 0) by (nonlinear_arith);
        }
    }
    if wanted < policy.min_candidates {
        policy.min_candidates
    } else {
        wanted
    }
}

fn keep_first(list: &mut Vec<Ranked>, n: usize)
    ensures
        final(list)@ == first(old(list)@, n as int),
{
    if n < list.len() {
        list.truncate(n);
        proof {
            assert(list@ =~= old(list)@.take(n as int));
        }
    }
}

/// A composite score is at most `SCORE_LIMIT`: the fused score it starts
/// from is at most twice `LIST_SCORE_LIMIT`, strength and recency are at
/// most one, and the access weight of a memory of the corpus is at most two.
pub proof fn lemma_candidate_score_bounds(
    policy: Policy,
    corpus: Seq<MemoryView>,
    entry: Ranked,
    now: int,
)
    requires
        entry.score <= 2 * LIST_SCORE_LIMIT,
        entry.index < corpus.len() ==> corpus[entry.index as int].access_count <= i64::MAX,
        max_access(corpus) <= i64::MAX,
    ensures
        0 <= candidate_score(policy, corpus, entry, now) <= SCORE_LIMIT,
{
    if entry.index < corpus.len() {
        let m = corpus[entry.index as int];
        crate::strength::lemma_decay_factor_bounds(
            policy,
            m.kind,
            crate::strength::elapsed_seconds(now, m.last_accessed_at),
        );
        let f = crate::strength::decay_factor(
            policy,
            m.kind,
            crate::strength::elapsed_seconds(now, m.last_accessed_at),
        );
        let s = SCALE as int;
        assert(0 <= m.strength * f / s) by (nonlinear_arith)
            requires
                0 <= m.strength,
                0 <= f,
                s > 0,
        ;
        crate::scoring::lemma_recency_weight_bounds(
            crate::strength::elapsed_seconds(now, m.created_at),
        );
        lemma_max_access(corpus, entry.index as int);
        lemma_access_weight_bounds(m.access_count, max_access(corpus));
        lemma_composite_score_bounds(
            entry.score as int,
            effective_strength_at(policy, m, now),
            recency_boost_at(m, now),
            access_weight_of(m.access_count, max_access(corpus)),
        );
    }
}

fn score_candidates(
    policy: &Policy,
    memories: &Vec<MemoryRecord>,
    list: &Vec<Ranked>,
    now: i64,
) -> (out: Vec<Ranked>)
    requires
        policy.wf(),
        forall|i: int| 0 <= i < list@.len() ==> (#[trigger] list@[i]).score <= 2 * LIST_SCORE_LIMIT,
    ensures
        out@ == scored(*policy, views(memories@), list@, now as int),
        forall|i: int| 0 <= i < out@.len() ==> (#[trigger] out@[i]).score <= SCORE_LIMIT,
{
    let ghost corpus = views(memories@);
    let max = max_access_count(memories);
    let mut out: Vec<Ranked> = Vec::new();
    let mut i: usize = 0;
    while i < list.len()
        invariant
            i <= list.len(),
            policy.wf(),
            corpus == views(memories@),
            max == max_access(corpus),
            forall|k: int|
                0 <= k < list@.len() ==> (#[trigger] list@[k]).score <= 2 * LIST_SCORE_LIMIT,
            out@.len() == i,
            forall|k: int|
                0 <= k < i ==> #[trigger] out@[k] == scored(*policy, corpus, list@, now as int)[k],
            forall|k: int| 0 <= k < i ==> (#[trigger] out@[k]).score <= SCORE_LIMIT,
        decreases list.len() - i,
    {
        let entry = list[i];
        proof {
            assert(entry.score <= 2 * LIST_SCORE_LIMIT);
            if entry.index < corpus.len() {
                assert(corpus[entry.index as int] == memories@[entry.index as int]@);
            }
            lemma_candidate_score_bounds(*policy, corpus, entry, now as int);
        }
        let score: u128 = if entry.index < memories.len() {
            let mem = &memories[entry.index];
            composite_score_value(
                entry.score,
                effective_strength(policy, mem, now),
                recency_boost(mem, now),
                access_weight(mem, max),
            )
        } else {
            0
        };
        out.push(Ranked { index: entry.index, score });
        i = i + 1;
    }
    proof {
        assert(out@ =~= scored(*policy, corpus, list@, now as int));
    }
    out
}

/// Ranks the corpus for a query whose lexical ranking and embedding are given.
///
/// `lexical` lists corpus positions, best first; positions outside the
/// corpus are ignored. The result holds at most `limit` entries, each a
/// corpus position with its final score, best first.
pub fn rank_candidates(
    policy: &Policy,
    memories: &Vec<MemoryRecord>,
    lexical: &Vec<usize>,
    query: &Embedding,
    limit: usize,
    now: i64,
) -> (ranking: Vec<Ranked>)
    requires
        policy.wf(),
    ensures
        ranking@ == recall_ranking(
            *policy,
            views(memories@),
            lexical@,
            query@,
            limit as int,
            now as int,
        ),
        ranking@.len() <= limit,
        ranking@.len() <= memories@.len(),
        forall|i: int| 0 <= i < ranking@.len() ==> (#[trigger] ranking@[i]).index < memories@.len(),
        distinct_positions(ranking@),
        vstd::relations::sorted_by(ranking@, crate::ranking::rank_order()),
{
    let ghost corpus = views(memories@);
    let n = memories.len();
    let semantic = positions_of(&vector_search(query, memories, policy.similarity_threshold));
    let mut fused = rrf(lexical, &semantic, n, policy.rrf_k);
    proof {
        lemma_fused_ranking(policy.rrf_k as int, lexical@, semantic@, n as int);
    }
    keep_first(&mut fused, candidate_limit(policy, limit));
    let mut results = score_candidates(policy, memories, &fused, now);
    proof {
        assert(results@ == scored(
            *policy,
            corpus,
            candidates(*policy, corpus, lexical@, query@, limit as int),
            now as int,
        ));
    }
    let ghost base = results@;
    spread_activation(memories, &mut results, policy.spread_factor);
    let ghost after_spread = results@;
    proof {
        assert forall|i: int| 0 <= i < after_spread.len() implies (#[trigger] after_spread[i]).score
            <= TEMPORAL_SCORE_LIMIT by {
            lemma_spread_gain_bounds(
                corpus,
                base,
                policy.spread_factor as int,
                i,
                base.len() as int,
                SCORE_LIMIT as int,
            );
            assert(base[i].score <= SCORE_LIMIT);
            assert((base.len() - 1) * SCORE_LIMIT + SCORE_LIMIT <= 0xffff_ffff_ffff_ffff
                * 2_000_000_000_000_000_000) by (nonlinear_arith)
                requires
                    1 <= base.len() <= 0xffff_ffff_ffff_ffff,
                    SCORE_LIMIT == 2_000_000_000_000_000_000,
            ;
        }
    }
    temporal_cooccurrence_boost(memories, &mut results, policy.temporal_weight);
    let ghost primed = results@;
    let mut ranking = sort_ranked(&results);
    keep_first(&mut ranking, limit);
    proof {
        lemma_recall_ranking_distinct(
            *policy,
            corpus,
            lexical@,
            query@,
            limit as int,
            now as int,
        );
        lemma_rank_order_keeps_entries(primed);
        assert forall|i: int| 0 <= i < ranking@.len() implies (#[trigger] ranking@[i]).index
            < memories@.len() by {
            let e = ranking@[i];
            assert(in_rank_order(primed)[i] == e);
            assert(in_rank_order(primed).contains(e));
            assert(primed.contains(e));
            let k = choose|k: int| 0 <= k < primed.len() && primed[k] == e;
            assert(primed[k].index == after_spread[k].index);
            assert(after_spread[k].index == base[k].index);
            assert(base[k].index == fused@[k].index);
        }
        assert forall|i: int, j: int| 0 <= i < j < ranking@.len() implies (
        crate::ranking::rank_order())(ranking@[i], ranking@[j]) by {
            assert(ranking@[i] == in_rank_order(primed)[i]);
            assert(ranking@[j] == in_rank_order(primed)[j]);
        }
    }
    ranking
}

/// No memory is ranked twice: the positions of a recall ranking are distinct
/// positions of the corpus.
pub proof fn lemma_recall_ranking_distinct(
    policy: Policy,
    corpus: Seq<MemoryView>,
    lexical: Seq<usize>,
    query: Seq<i16>,
    limit: int,
    now: int,
)
    requires
        policy.wf(),
        corpus.len() <= usize::MAX,
    ensures
        distinct_positions(recall_ranking(policy, corpus, lexical, query, limit, now)),
        forall|i: int|
            0 <= i < recall_ranking(policy, corpus, lexical, query, limit, now).len() ==> (
            #[trigger] recall_ranking(policy, corpus, lexical, query, limit, now)[i]).index
                < corpus.len(),
{
    let k = policy.rrf_k as int;
    let n = corpus.len() as int;
    let semantic = positions(semantic_ranking(policy.similarity_threshold as int, query, corpus));
    let fused = fused_ranking(k, lexical, semantic, n);
    lemma_fused_ranking(k, lexical, semantic, n);
    crate::fusion::lemma_fused_ranking_distinct(k, lexical, semantic, n);
    let chosen = candidates(policy, corpus, lexical, query, limit);
    assert(distinct_positions(chosen) && forall|i: int|
        0 <= i < chosen.len() ==> (#[trigger] chosen[i]).index < n) by {
        assert forall|i: int| 0 <= i < chosen.len() implies #[trigger] chosen[i] == fused[i] by {}
    }
    let base = scored(policy, corpus, chosen, now);
    let primed = temporal(
        corpus,
        spread(corpus, base, policy.spread_factor as int),
        policy.temporal_weight as int,
    );
    assert(distinct_positions(primed) && forall|i: int|
        0 <= i < primed.len() ==> (#[trigger] primed[i]).index < n) by {
        assert forall|i: int| 0 <= i < primed.len() implies (#[trigger] primed[i]).index
            == chosen[i].index by {
            assert(base[i].index == chosen[i].index);
        }
    }
    let ordered = in_rank_order(primed);
    crate::ranking::lemma_rank_order_keeps_distinct(primed);
    lemma_rank_order_keeps_entries(primed);
    let ranking = recall_ranking(policy, corpus, lexical, query, limit, now);
    assert forall|i: int| 0 <= i < ranking.len() implies (#[trigger] ranking[i]).index < n by {
        assert(ranking[i] == ordered[i]);
        assert(ordered.contains(ordered[i]));
        assert(primed.contains(ordered[i]));
        let p = choose|p: int| 0 <= p < primed.len() && primed[p] == ordered[i];
        assert(primed[p].index < n);
    }
    assert forall|i: int, j: int| 0 <= i < j < ranking.len() implies (#[trigger] ranking[i]).index
        != (#[trigger] ranking[j]).index by {
        assert(ranking[i] == ordered[i] && ranking[j] == ordered[j]);
    }
}

/// The corpus after each memory named by a ranking has been reinforced
/// once, and every other memory left alone.
pub open spec fn reinforced_once(
    policy: Policy,
    corpus: Seq<MemoryView>,
    ranking: Seq<Ranked>,
    now: int,
) -> Seq<MemoryView> {
    Seq::new(
        corpus.len(),
        |p: int|
            if positions(ranking).contains(p as usize) {
                crate::store::touched(corpus[p], touched_strength_at(policy, corpus[p], now), now)
            } else {
                corpus[p]
            },
    )
}

/// What a recall leaves of a memory it returned: its strength is what
/// decay left at `now` plus the boost of its kind, at most one; it was last
/// accessed at `now`, unless it was created after `now`; it has been
/// accessed once more, unless the count stood at its largest value; its id,
/// content, embedding and creation are as before; and it is well formed, so
/// its creation is not after its last access. A memory that was not
/// returned is as before.
pub proof fn lemma_recalled_memory(
    policy: Policy,
    corpus: Seq<MemoryView>,
    ranking: Seq<Ranked>,
    now: int,
    p: int,
)
    requires
        policy.wf(),
        0 <= p < corpus.len() <= usize::MAX,
        corpus[p].wf(),
    ensures
        ({
            let before = corpus[p];
            let after = reinforced_once(policy, corpus, ranking, now)[p];
            if positions(ranking).contains(p as usize) {
                &&& after.strength == touched_strength_at(policy, before, now)
                &&& after.strength <= SCALE
                &&& after.strength >= crate::strength::touch_boost_of(policy, before.kind)
                &&& (before.created_at <= now ==> after.last_accessed_at == now)
                &&& after.created_at <= after.last_accessed_at
                &&& (before.access_count < i64::MAX ==> after.access_count == before.access_count
                    + 1)
                &&& after.access_count >= before.access_count
                &&& after.id == before.id
                &&& after.kind == before.kind
                &&& after.embedding == before.embedding
                &&& after.created_at == before.created_at
                &&& after.wf()
            } else {
                after == before
            }
        }),
{
    crate::strength::lemma_touch_adds_to_decayed(policy, corpus[p], now);
    crate::store::lemma_touched(corpus[p], touched_strength_at(policy, corpus[p], now), now);
}

/// Reinforcing the results one after the other reinforces every returned
/// memory exactly once, from its state before the recall, and changes no
/// other memory.
pub proof fn lemma_reinforced_once(
    policy: Policy,
    corpus: Seq<MemoryView>,
    next_id: int,
    ranking: Seq<Ranked>,
    now: int,
    upto: int,
)
    requires
        crate::store::corpus_wf(corpus, next_id),
        corpus.len() <= usize::MAX,
        distinct_positions(ranking),
        forall|i: int| 0 <= i < ranking.len() ==> (#[trigger] ranking[i]).index < corpus.len(),
        0 <= upto <= ranking.len(),
    ensures
        reinforced(policy, corpus, results_of(corpus, ranking), now, upto) == reinforced_once(
            policy,
            corpus,
            ranking.take(upto),
            now,
        ),
    decreases upto,
{
    let results = results_of(corpus, ranking);
    if upto == 0 {
        assert(positions(ranking.take(0)) =~= Seq::<usize>::empty());
        assert(reinforced_once(policy, corpus, ranking.take(0), now) =~= corpus);
    } else {
        lemma_reinforced_once(policy, corpus, next_id, ranking, now, upto - 1);
        let before = reinforced_once(policy, corpus, ranking.take(upto - 1), now);
        let entry = ranking[upto - 1];
        let at = entry.index as int;
        let m = results[upto - 1].memory;
        assert(m == corpus[at]);
        let after = touch_in(before, m.id, touched_strength_at(policy, m, now), now);
        let goal = reinforced_once(policy, corpus, ranking.take(upto), now);
        let earlier = positions(ranking.take(upto - 1));
        let all = positions(ranking.take(upto));
        assert(all =~= earlier.push(entry.index));
        assert(!earlier.contains(entry.index)) by {
            if earlier.contains(entry.index) {
                let i = choose|i: int| 0 <= i < earlier.len() && earlier[i] == entry.index;
                assert(ranking[i].index == ranking[upto - 1].index);
            }
        }
        assert forall|p: int| 0 <= p < corpus.len() implies after[p] == goal[p] by {
            assert(before[p].id == corpus[p].id);
            if p == at {
                assert(all[upto - 1] == entry.index);
                assert(all.contains(p as usize));
            } else {
                if p < at {
                    assert(corpus[p].id < corpus[at].id);
                } else {
                    assert(corpus[at].id < corpus[p].id);
                }
                if earlier.contains(p as usize) {
                    let i = choose|i: int| 0 <= i < earlier.len() && earlier[i] == p as usize;
                    assert(all[i] == p as usize);
                    assert(all.contains(p as usize));
                }
                if all.contains(p as usize) {
                    let i = choose|i: int| 0 <= i < all.len() && all[i] == p as usize;
                    assert(i < upto - 1);
                    assert(earlier[i] == p as usize);
                    assert(earlier.contains(p as usize));
                }
            }
        }
        assert(after =~= goal);
    }
}

/// What a recall at `now` with query vector `query` does: `results` are the
/// memories named by the ranking, as they were before the call, and `after`
/// is the corpus once every one of them has been reinforced.
pub open spec fn recall_outcome(
    policy: Policy,
    corpus: Seq<MemoryView>,
    lexical: Seq<usize>,
    query: Seq<i16>,
    limit: int,
    now: int,
    results: Seq<RecallResultView>,
    after: Seq<MemoryView>,
) -> bool {
    &&& results == results_of(corpus, recall_ranking(policy, corpus, lexical, query, limit, now))
    &&& after == reinforced(policy, corpus, results, now, results.len() as int)
}

/// Recalls at a given instant, for a query whose lexical ranking and
/// embedding are given.
///
/// Returns at most `limit` memories, best first, each as it was before the
/// call, and reinforces every one of them in the store: its strength becomes
/// its decayed strength plus the boost of its kind, capped at one, its last
/// access becomes `now` (or its creation, if `now` is before it) and its
/// access count grows by one. With an empty corpus or a limit of zero
/// nothing is returned and nothing is written.
pub fn recall_at(
    policy: &Policy,
    store: &mut MemoryStore,
    lexical: &Vec<usize>,
    query: &Embedding,
    limit: usize,
    now: i64,
) -> (results: Vec<RecallResult>)
    requires
        policy.wf(),
        old(store).wf(),
    ensures
        final(store).wf(),
        final(store).next_id() == old(store).next_id(),
        recall_outcome(
            *policy,
            old(store)@,
            lexical@,
            query@,
            limit as int,
            now as int,
            result_views(results@),
            final(store)@,
        ),
        final(store)@ == reinforced_once(
            *policy,
            old(store)@,
            recall_ranking(*policy, old(store)@, lexical@, query@, limit as int, now as int),
            now as int,
        ),
        results@.len() <= limit,
        results@.len() <= old(store)@.len(),
        distinct_memories(result_views(results@)),
        (limit == 0 || old(store)@.len() == 0) ==> final(store)@ == old(store)@,
{
    let ghost corpus = store@;
    let size = store.len();
    let ranking = rank_candidates(policy, store.memories(), lexical, query, limit, now);
    proof {
        assert(corpus.len() == size);
    }
    let mut results: Vec<RecallResult> = Vec::new();
    let mut i: usize = 0;
    while i < ranking.len()
        invariant
            i <= ranking@.len(),
            store@ == corpus,
            forall|k: int| 0 <= k < ranking@.len() ==> (#[trigger] ranking@[k]).index < corpus.len(),
            results@.len() == i,
            forall|k: int|
                0 <= k < i ==> (#[trigger] results@[k])@ == results_of(corpus, ranking@)[k],
        decreases ranking@.len() - i,
    {
        let entry = ranking[i];
        let memories = store.memories();
        let memory = memories[entry.index].clone();
        proof {
            assert(corpus[entry.index as int] == memories@[entry.index as int]@);
        }
        results.push(RecallResult { memory, score: entry.score });
        i = i + 1;
    }
    proof {
        assert(result_views(results@) =~= results_of(corpus, ranking@));
        let returned = result_views(results@);
        assert forall|a: int, b: int| 0 <= a < b < returned.len() implies (
        #[trigger] returned[a]).memory.id != (#[trigger] returned[b]).memory.id by {
            let x = ranking@[a].index as int;
            let y = ranking@[b].index as int;
            assert(ranking@[a].index != ranking@[b].index);
            if x < y {
                assert(corpus[x].id < corpus[y].id);
            } else {
                assert(corpus[y].id < corpus[x].id);
            }
        }
    }
    let ghost returned = result_views(results@);
    let mut j: usize = 0;
    while j < results.len()
        invariant
            j <= results@.len(),
            policy.wf(),
            store.wf(),
            store.next_id() == old(store).next_id(),
            returned == result_views(results@),
            store@ == reinforced(*policy, corpus, returned, now as int, j as int),
        decreases results@.len() - j,
    {
        let memory = &results[j].memory;
        proof {
            assert(returned[j as int] == results@[j as int]@);
        }
        let strength = touched_strength(policy, memory, now);
        store.touch_memory_with_strength(memory.id, strength, now);
        j = j + 1;
    }
    proof {
        lemma_reinforced_once(
            *policy,
            corpus,
            old(store).next_id(),
            ranking@,
            now as int,
            ranking@.len() as int,
        );
        assert(ranking@.take(ranking@.len() as int) =~= ranking@);
    }
    results
}

/// Hybrid recall: lexical and semantic rankings fused by reciprocal rank and
/// re-scored by strength, recency and access, with spreading activation and
/// a temporal co-occurrence boost. Every returned memory is reinforced.
///
/// `lexical` is the lexical ranking of the corpus for `query`: corpus
/// positions, best first; `now` is the instant of the call. The query is
/// embedded once. With an empty corpus the result is empty and the embedder
/// is not consulted; otherwise the call fails exactly when the embedder
/// does, and then nothing is written.
pub fn recall(
    policy: &Policy,
    store: &mut MemoryStore,
    query: &str,
    embedder: &dyn Embedder,
    lexical: &Vec<usize>,
    limit: usize,
    now: i64,
) -> (r: Result<Vec<RecallResult>, RecallError>)
    requires
        policy.wf(),
        old(store).wf(),
    ensures
        final(store).wf(),
        final(store).next_id() == old(store).next_id(),
        old(store)@.len() == 0 ==> r is Ok,
        (limit == 0 || old(store)@.len() == 0) ==> final(store)@ == old(store)@,
        match r {
            Ok(results) => {
                &&& results@.len() <= limit
                &&& results@.len() <= old(store)@.len()
                &&& distinct_memories(result_views(results@))
                &&& exists|q: Seq<i16>|
                    recall_outcome(
                        *policy,
                        old(store)@,
                        lexical@,
                        q,
                        limit as int,
                        now as int,
                        result_views(results@),
                        final(store)@,
                    )
            },
            Err(e) => e is Embedding && final(store)@ == old(store)@,
        },
{
    if store.len() == 0 {
        let empty: Embedding = Vec::new();
        let results = recall_at(policy, store, lexical, &empty, limit, now);
        return Ok(results);
    }
    let query_embedding = match embedder.embed_one(query) {
        Ok(e) => e,
        Err(e) => {
            return Err(RecallError::Embedding(e.message()));
        },
    };
    Ok(recall_at(policy, store, lexical, &query_embedding, limit, now))
}

/// Two corpora hold the same memories in the same order, ids aside.
pub open spec fn same_content(a: Seq<MemoryView>, b: Seq<MemoryView>) -> bool {
    &&& a.len() == b.len()
    &&& forall|i: int| 0 <= i < a.len() ==> #[trigger] a[i] == MemoryView { id: a[i].id, ..b[i] }
}

proof fn lemma_same_semantic_entries(
    threshold: int,
    a: Seq<MemoryView>,
    b: Seq<MemoryView>,
    query: Seq<i16>,
    n: int,
)
    requires
        same_content(a, b),
    ensures
        crate::embed::semantic_entries(threshold, query, a, n) == crate::embed::semantic_entries(
            threshold,
            query,
            b,
            n,
        ),
    decreases n,
{
    if 0 < n <= a.len() {
        lemma_same_semantic_entries(threshold, a, b, query, n - 1);
        assert(a[n - 1].embedding == b[n - 1].embedding);
    }
}

proof fn lemma_same_max_access(a: Seq<MemoryView>, b: Seq<MemoryView>)
    requires
        same_content(a, b),
    ensures
        max_access(a) == max_access(b),
    decreases a.len(),
{
    if a.len() > 0 {
        assert forall|i: int| 0 <= i < a.drop_last().len() implies #[trigger] a.drop_last()[i]
            == (MemoryView { id: a.drop_last()[i].id, ..b.drop_last()[i] }) by {
            assert(a.drop_last()[i] == a[i]);
            assert(b.drop_last()[i] == b[i]);
        }
        lemma_same_max_access(a.drop_last(), b.drop_last());
        assert(a.last() == a[a.len() - 1]);
        assert(b.last() == b[b.len() - 1]);
    }
}

proof fn lemma_same_spread_gain(
    a: Seq<MemoryView>,
    b: Seq<MemoryView>,
    results: Seq<Ranked>,
    factor: int,
    target: int,
    upto: int,
)
    requires
        same_content(a, b),
    ensures
        crate::activation::spread_gain(a, results, factor, target, upto)
            == crate::activation::spread_gain(b, results, factor, target, upto),
    decreases upto,
{
    if upto > 0 {
        lemma_same_spread_gain(a, b, results, factor, target, upto - 1);
        let x = results[upto - 1];
        let y = results[target];
        assert(crate::activation::entities_at(a, x.index as int) == crate::activation::entities_at(
            b,
            x.index as int,
        )) by {
            if x.index < a.len() {
                assert(a[x.index as int].kind == b[x.index as int].kind);
            }
        }
        assert(crate::activation::entities_at(a, y.index as int) == crate::activation::entities_at(
            b,
            y.index as int,
        )) by {
            if y.index < a.len() {
                assert(a[y.index as int].kind == b[y.index as int].kind);
            }
        }
    }
}

proof fn lemma_same_temporal_gain(
    a: Seq<MemoryView>,
    b: Seq<MemoryView>,
    results: Seq<Ranked>,
    weight: int,
    from: Seq<Ranked>,
    target: int,
)
    requires
        same_content(a, b),
    ensures
        crate::activation::temporal_gain(a, results, weight, from, target)
            == crate::activation::temporal_gain(b, results, weight, from, target),
    decreases from.len(),
{
    if from.len() > 0 {
        lemma_same_temporal_gain(a, b, results, weight, from.drop_last(), target);
        let anchor = from.last();
        if anchor.index < results.len() {
            let x = results[anchor.index as int].index;
            if x < a.len() {
                assert(a[x as int].created_at == b[x as int].created_at);
            }
        }
        let y = results[target].index;
        if y < a.len() {
            assert(a[y as int].created_at == b[y as int].created_at);
        }
    }
}

/// Recall does not look at ids: two corpora that hold the same memories in
/// the same order are ranked alike for the same query at the same instant,
/// position by position and score by score.
pub proof fn lemma_ranking_ignores_ids(
    policy: Policy,
    a: Seq<MemoryView>,
    b: Seq<MemoryView>,
    lexical: Seq<usize>,
    query: Seq<i16>,
    limit: int,
    now: int,
)
    requires
        same_content(a, b),
    ensures
        recall_ranking(policy, a, lexical, query, limit, now) == recall_ranking(
            policy,
            b,
            lexical,
            query,
            limit,
            now,
        ),
{
    lemma_same_semantic_entries(policy.similarity_threshold as int, a, b, query, a.len() as int);
    lemma_same_max_access(a, b);
    let c = candidates(policy, a, lexical, query, limit);
    assert(c == candidates(policy, b, lexical, query, limit));
    let base_a = scored(policy, a, c, now);
    let base_b = scored(policy, b, c, now);
    assert forall|i: int| 0 <= i < c.len() implies base_a[i] == base_b[i] by {
        if c[i].index < a.len() {
            let k = c[i].index as int;
            assert(a[k] == MemoryView { id: a[k].id, ..b[k] });
        }
    }
    assert(base_a =~= base_b);
    let factor = policy.spread_factor as int;
    let weight = policy.temporal_weight as int;
    let spread_a = spread(a, base_a, factor);
    let spread_b = spread(b, base_a, factor);
    assert forall|i: int| 0 <= i < base_a.len() implies spread_a[i] == spread_b[i] by {
        lemma_same_spread_gain(a, b, base_a, factor, i, base_a.len() as int);
    }
    assert(spread_a =~= spread_b);
    let primed_a = temporal(a, spread_a, weight);
    let primed_b = temporal(b, spread_a, weight);
    assert forall|i: int| 0 <= i < spread_a.len() implies primed_a[i] == primed_b[i] by {
        lemma_same_temporal_gain(a, b, spread_a, weight, crate::activation::anchors(spread_a), i);
    }
    assert(primed_a =~= primed_b);
}

} // verus!
