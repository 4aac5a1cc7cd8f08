//! The decay engine: one sweep over the corpus that brings every stored
//! strength up to date and forgets what has faded below a floor.
//!
//! A stored strength is current for the instant of the memory's last
//! access. A sweep that rewrites a strength therefore moves that instant on
//! to the instant of the sweep: the time that has elapsed is applied once,
//! and a second sweep at the same instant finds every strength current.

use vstd::prelude::*;
use crate::fixed::SCALE;
use crate::memory::{views, MemoryView};
use crate::policy::Policy;
use crate::store::{
    brought_up_to_date, corpus_wf, lemma_filter_all, lemma_unmarked_is_filter, restrengthened,
    unmarked, MemoryStore,
};
use crate::strength::{effective_strength, effective_strength_at, elapsed_seconds};

verus! {

/// What a decay sweep did.
#[derive(Clone, Copy, Debug, PartialEq, Eq, Structural)]
pub struct DecayResult {
    /// How many memories the sweep looked at.
    pub scanned: usize,
    /// How many surviving memories had their strength rewritten.
    pub rewritten: usize,
    /// How many memories were forgotten.
    pub pruned: usize,
}

/// The floor in force: the one given, or the policy's.
pub open spec fn floor_of(policy: Policy, prune_floor: Option<u64>) -> int {
    match prune_floor {
        Some(f) => f as int,
        None => policy.prune_floor as int,
    }
}

/// Selects the memories whose effective strength at `now` is not below the floor.
pub open spec fn survives(policy: Policy, floor: int, now: int) -> spec_fn(MemoryView) -> bool {
    |m: MemoryView| effective_strength_at(policy, m, now) >= floor
}

/// Selects the survivors whose stored strength differs from their effective strength.
pub open spec fn outdated(policy: Policy, floor: int, now: int) -> spec_fn(MemoryView) -> bool {
    |m: MemoryView|
        effective_strength_at(policy, m, now) >= floor && effective_strength_at(policy, m, now)
            != m.strength
}

/// A memory with its effective strength at `now` stored. Where that differs
/// from the stored strength, the memory's last access moves on to `now`,
/// the instant for which the new strength is current, so that the same
/// elapsed time is never applied twice. A memory whose stored strength is
/// already its effective strength is left as it is.
pub open spec fn settled(policy: Policy, now: int) -> spec_fn(MemoryView) -> MemoryView {
    |m: MemoryView| brought_up_to_date(m, effective_strength_at(policy, m, now), now)
}

/// The corpus after a sweep at `now`: the survivors, each with its effective
/// strength stored for the instant `now`, and nothing else changed.
pub open spec fn swept(policy: Policy, corpus: Seq<MemoryView>, floor: int, now: int) -> Seq<
    MemoryView,
> {
    corpus.filter(survives(policy, floor, now)).map_values(settled(policy, now))
}

/// Dropping marked records commutes with rewriting every record.
pub proof fn lemma_unmarked_map(
    corpus: Seq<MemoryView>,
    marks: Seq<bool>,
    f: spec_fn(MemoryView) -> MemoryView,
)
    requires
        marks.len() == corpus.len(),
    ensures
        unmarked(corpus.map_values(f), marks) == unmarked(corpus, marks).map_values(f),
    decreases corpus.len(),
{
    if corpus.len() > 0 {
        assert(corpus.map_values(f).drop_last() =~= corpus.drop_last().map_values(f));
        lemma_unmarked_map(corpus.drop_last(), marks.drop_last(), f);
        let rest = unmarked(corpus.drop_last(), marks.drop_last());
        if !marks.last() {
            assert(rest.push(corpus.last()).map_values(f) =~= rest.map_values(f).push(
                f(corpus.last()),
            ));
        }
    } else {
        assert(unmarked(corpus.map_values(f), marks) =~= unmarked(corpus, marks).map_values(f));
    }
}

/// With no elapsed time a memory's effective strength is its stored
/// strength, and a sweep leaves it as it is.
pub proof fn lemma_current_memory_is_settled(policy: Policy, m: MemoryView, now: int)
    requires
        m.wf(),
        m.last_accessed_at >= now,
    ensures
        effective_strength_at(policy, m, now) == m.strength,
        settled(policy, now)(m) == m,
{
    crate::strength::lemma_strength_fades(policy, m.strength as int, m.kind, 0, 0);
}

/// What a sweep stores is current: the stored strength of a settled memory
/// is its effective strength at the instant of the sweep, settling it again
/// at that instant changes nothing, and it stays well formed. Only the
/// strength and the last access can differ from before. A sweep costs a
/// memory nothing beyond the time that has passed: at the instant of the
/// sweep its effective strength, and the strength a recall would give it,
/// are what they were before the sweep.
pub proof fn lemma_settled_is_current(policy: Policy, m: MemoryView, now: int)
    requires
        m.wf(),
    ensures
        settled(policy, now)(m).strength == effective_strength_at(policy, m, now),
        effective_strength_at(policy, settled(policy, now)(m), now) == settled(
            policy,
            now,
        )(m).strength,
        settled(policy, now)(settled(policy, now)(m)) == settled(policy, now)(m),
        settled(policy, now)(m).wf(),
        settled(policy, now)(m) == (MemoryView {
            strength: settled(policy, now)(m).strength,
            last_accessed_at: settled(policy, now)(m).last_accessed_at,
            ..m
        }),
        settled(policy, now)(m).last_accessed_at >= m.last_accessed_at,
        effective_strength_at(policy, settled(policy, now)(m), now) == effective_strength_at(
            policy,
            m,
            now,
        ),
        crate::strength::touched_strength_at(policy, settled(policy, now)(m), now)
            == crate::strength::touched_strength_at(policy, m, now),
{
    let e = effective_strength_at(policy, m, now);
    crate::strength::lemma_strength_fades(policy, m.strength as int, m.kind, 0, 0);
    crate::strength::lemma_decay_factor_bounds(
        policy,
        m.kind,
        elapsed_seconds(now, m.last_accessed_at),
    );
    let f = crate::strength::decay_factor(policy, m.kind, elapsed_seconds(now, m.last_accessed_at));
    let s = SCALE as int;
    assert(0 <= m.strength * f / s) by (nonlinear_arith)
        requires
            0 <= m.strength,
            0 <= f,
            s > 0,
    ;
    if e != m.strength {
        assert(now > m.last_accessed_at);
        let after = settled(policy, now)(m);
        assert(after.last_accessed_at == now);
        crate::strength::lemma_strength_fades(policy, e, m.kind, 0, 0);
    }
}

/// Decay is idempotent at a fixed instant: for every well-formed corpus a
/// second sweep at the instant of the first leaves the corpus as the first
/// left it. It rewrites nothing and prunes nothing, and what the first
/// sweep left is a well-formed corpus.
pub proof fn lemma_sweep_idempotent(
    policy: Policy,
    corpus: Seq<MemoryView>,
    next_id: int,
    floor: int,
    now: int,
)
    requires
        corpus_wf(corpus, next_id),
    ensures
        swept(policy, swept(policy, corpus, floor, now), floor, now) == swept(
            policy,
            corpus,
            floor,
            now,
        ),
        swept(policy, corpus, floor, now).filter(outdated(policy, floor, now)).len() == 0,
        swept(policy, corpus, floor, now).filter(survives(policy, floor, now)) == swept(
            policy,
            corpus,
            floor,
            now,
        ),
        forall|k: int|
            0 <= k < swept(policy, corpus, floor, now).len() ==> effective_strength_at(
                policy,
                #[trigger] swept(policy, corpus, floor, now)[k],
                now,
            ) == swept(policy, corpus, floor, now)[k].strength,
{
    broadcast use vstd::seq_lib::group_filter_ensures;

    let keep = survives(policy, floor, now);
    let stale = outdated(policy, floor, now);
    let kept = corpus.filter(keep);
    let once = swept(policy, corpus, floor, now);
    assert forall|k: int| 0 <= k < once.len() implies {
        &&& effective_strength_at(policy, #[trigger] once[k], now) == once[k].strength
        &&& keep(once[k])
        &&& !stale(once[k])
        &&& settled(policy, now)(once[k]) == once[k]
    } by {
        corpus.lemma_filter_pred(keep, k);
        assert(kept.contains(kept[k]));
        corpus.lemma_filter_contains_rev(keep, kept[k]);
        let i = choose|i: int| 0 <= i < corpus.len() && corpus[i] == kept[k];
        assert(corpus[i].wf());
        assert(once[k] == settled(policy, now)(kept[k]));
        lemma_settled_is_current(policy, kept[k], now);
    }
    lemma_filter_all(once, keep);
    once.lemma_all_neg_filter_empty(stale);
    assert(once.map_values(settled(policy, now)) =~= once);
}

/// One decay sweep at the instant `now`.
///
/// Every memory whose effective strength at `now` is below the floor is
/// deleted; every other memory has its effective strength stored, current
/// for `now`. Ids, content, creation and access counts stay as they are. A
/// second sweep at the same instant finds nothing to rewrite or prune.
pub fn run_decay(
    policy: &Policy,
    store: &mut MemoryStore,
    prune_floor: Option<u64>,
    now: i64,
) -> (result: DecayResult)
    requires
        policy.wf(),
        old(store).wf(),
    ensures
        final(store).wf(),
        final(store).next_id() == old(store).next_id(),
        final(store)@ == swept(*policy, old(store)@, floor_of(*policy, prune_floor), now as int),
        result.scanned == old(store)@.len(),
        result.pruned == old(store)@.len() - final(store)@.len(),
        result.rewritten == old(store)@.filter(
            outdated(*policy, floor_of(*policy, prune_floor), now as int),
        ).len(),
        final(store)@ == swept(
            *policy,
            final(store)@,
            floor_of(*policy, prune_floor),
            now as int,
        ),
        final(store)@.filter(outdated(*policy, floor_of(*policy, prune_floor), now as int)).len()
            == 0,
{
    let floor = match prune_floor {
        Some(f) => f,
        None => policy.prune_floor,
    };
    let ghost corpus = store@;
    let memories = store.memories();
    let n = memories.len();
    let mut strengths: Vec<u64> = Vec::new();
    let mut marks: Vec<bool> = Vec::new();
    let mut rewritten: usize = 0;
    let mut i: usize = 0;
    proof {
        reveal(Seq::filter);
        assert(corpus.take(0).filter(outdated(*policy, floor as int, now as int)) =~= Seq::<
            MemoryView,
        >::empty());
    }
    while i < n
        invariant
            i <= n,
            n == memories@.len(),
            policy.wf(),
            views(memories@) == corpus,
            floor == floor_of(*policy, prune_floor),
            strengths@.len() == i,
            marks@.len() == i,
            rewritten <= i,
            rewritten == corpus.take(i as int).filter(outdated(*policy, floor as int, now as int)).len(),
            forall|k: int|
                0 <= k < i ==> #[trigger] strengths@[k] == effective_strength_at(
                    *policy,
                    corpus[k],
                    now as int,
                ),
            forall|k: int|
                0 <= k < i ==> #[trigger] marks@[k] == !survives(*policy, floor as int, now as int)(
                    corpus[k],
                ),
        decreases n - i,
    {
        proof {
            reveal(Seq::filter);
            assert(corpus[i as int] == memories@[i as int]@);
            assert(corpus.take(i + 1).drop_last() =~= corpus.take(i as int));
        }
        let current = effective_strength(policy, &memories[i], now);
        let prune = current < floor;
        if !prune && current != memories[i].strength {
            rewritten = rewritten + 1;
        }
        strengths.push(current);
        marks.push(prune);
        i = i + 1;
    }
    store.set_strengths(&strengths, now);
    let pruned = store.remove_marked(&marks);
    proof {
        assert(corpus.take(n as int) =~= corpus);
        let f = settled(*policy, now as int);
        assert(restrengthened(corpus, strengths@, now as int) =~= corpus.map_values(f));
        lemma_sweep_idempotent(*policy, corpus, old(store).next_id(), floor as int, now as int);
        lemma_unmarked_map(corpus, marks@, f);
        lemma_unmarked_is_filter(corpus, marks@, survives(*policy, floor as int, now as int));
    }
    DecayResult { scanned: n, rewritten, pruned }
}

} // verus!
