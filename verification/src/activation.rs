//! Priming between candidates: spreading activation across facts that share
//! an entity, and a boost for memories created close in time to the best
//! candidates.

use vstd::prelude::*;
use crate::fixed::SCALE;
use crate::memory::{views, MemoryKind, MemoryKindView, MemoryRecord, MemoryView};
use crate::ranking::{in_rank_order, lemma_rank_order_keeps_entries, sort_ranked, Ranked};
use crate::text::{lowercase_of, to_lowercase};

verus! {

/// How many of the best candidates prime their temporal neighbours.
pub const ANCHOR_COUNT: usize = 5;

/// Memories created less than this many minutes apart are temporal neighbours.
pub const WINDOW_MINUTES: u64 = 30;

/// The divisor of the temporal share: the window, in minutes, times `SCALE`.
pub const TEMPORAL_DIVISOR: u64 = 30_000_000_000;

/// The entities of a memory, lower-cased: subject and object of a fact.
pub open spec fn entities_of(m: MemoryView) -> Option<(Seq<char>, Seq<char>)> {
    match m.kind {
        MemoryKindView::Fact(f) => Some((lowercase_of(f.subject), lowercase_of(f.object))),
        MemoryKindView::Episode(_) => None,
    }
}

/// The entities of the memory at a corpus position; none outside the corpus.
pub open spec fn entities_at(corpus: Seq<MemoryView>, index: int) -> Option<
    (Seq<char>, Seq<char>),
> {
    if 0 <= index < corpus.len() {
        entities_of(corpus[index])
    } else {
        None
    }
}

/// Two facts share a subject or an object, in either role.
pub open spec fn share_entity(a: (Seq<char>, Seq<char>), b: (Seq<char>, Seq<char>)) -> bool {
    a.0 == b.0 || a.0 == b.1 || a.1 == b.0 || a.1 == b.1
}

/// Two candidates are linked: both are facts, and they share an entity.
pub open spec fn linked(corpus: Seq<MemoryView>, x: Ranked, y: Ranked) -> bool {
    match (entities_at(corpus, x.index as int), entities_at(corpus, y.index as int)) {
        (Some(a), Some(b)) => share_entity(a, b),
        _ => false,
    }
}

/// What a source of the given score passes on to each linked candidate.
pub open spec fn spread_share(score: int, factor: int) -> int {
    score * factor / (SCALE as int)
}

/// What the candidate at position `target` receives from the sources at
/// positions below `upto`, all taken at their scores before the pass.
pub open spec fn spread_gain(
    corpus: Seq<MemoryView>,
    results: Seq<Ranked>,
    factor: int,
    target: int,
    upto: int,
) -> int
    decreases upto,
{
    if upto <= 0 {
        0
    } else {
        spread_gain(corpus, results, factor, target, upto - 1) + if upto - 1 != target && linked(
            corpus,
            results[upto - 1],
            results[target],
        ) {
            spread_share(results[upto - 1].score as int, factor)
        } else {
            0
        }
    }
}

/// The candidates after one pass of spreading activation.
pub open spec fn spread(corpus: Seq<MemoryView>, results: Seq<Ranked>, factor: int) -> Seq<
    Ranked,
> {
    Seq::new(
        results.len(),
        |i: int|
            Ranked {
                index: results[i].index,
                score: (results[i].score + spread_gain(
                    corpus,
                    results,
                    factor,
                    i,
                    results.len() as int,
                )) as u128,
            },
    )
}

/// A share is never negative and never more than the score it is taken from.
pub proof fn lemma_spread_share_bounds(score: int, factor: int)
    requires
        0 <= score,
        0 <= factor <= SCALE,
    ensures
        0 <= spread_share(score, factor) <= score,
{
    let s = SCALE as int;
    assert(0 <= score * factor / s <= score) by (nonlinear_arith)
        requires
            0 <= score,
            0 <= factor <= s,
            s > 0,
    ;
}

/// With the documented factor of 0.15 a source has something to give
/// exactly from a score of seven units on: six units times 0.15 round down
/// to nothing.
pub proof fn lemma_spread_share_positive(score: int)
    requires
        0 <= score,
    ensures
        spread_share(score, crate::policy::SPREAD_FACTOR as int) >= 1 <==> score >= 7,
{
    let share = spread_share(score, 150_000_000);
    if score >= 7 {
        assert(score * 150_000_000 / 1_000_000_000 >= 1) by (nonlinear_arith)
            requires
                score >= 7,
        ;
    } else {
        assert(score * 150_000_000 / 1_000_000_000 == 0) by (nonlinear_arith)
            requires
                0 <= score <= 6,
        ;
    }
}

/// The gain from the first `upto` sources is never negative and at most
/// `upto` times the largest score.
pub proof fn lemma_spread_gain_bounds(
    corpus: Seq<MemoryView>,
    results: Seq<Ranked>,
    factor: int,
    target: int,
    upto: int,
    bound: int,
)
    requires
        0 <= upto <= results.len(),
        0 <= factor <= SCALE,
        forall|i: int| 0 <= i < results.len() ==> (#[trigger] results[i]).score <= bound,
    ensures
        0 <= spread_gain(corpus, results, factor, target, upto) <= upto * bound,
        0 <= target < upto ==> spread_gain(corpus, results, factor, target, upto) <= (upto - 1)
            * bound,
    decreases upto,
{
    if upto > 0 {
        lemma_spread_gain_bounds(corpus, results, factor, target, upto - 1, bound);
        lemma_spread_share_bounds(results[upto - 1].score as int, factor);
        assert((upto - 1) * bound + bound == upto * bound) by (nonlinear_arith);
        assert((upto - 2) * bound + bound == (upto - 1) * bound) by (nonlinear_arith);
        assert(results[upto - 1].score <= bound);
        assert(0 <= bound);
    }
}

/// Spreading activation never lowers a score, and it raises the score of a
/// candidate that is linked to another fact with a positive share to give.
pub proof fn lemma_spread_gain_positive(
    corpus: Seq<MemoryView>,
    results: Seq<Ranked>,
    factor: int,
    target: int,
    source: int,
    upto: int,
)
    requires
        0 <= source < upto <= results.len(),
        0 <= factor <= SCALE,
        source != target,
        linked(corpus, results[source], results[target]),
        spread_share(results[source].score as int, factor) > 0,
    ensures
        spread_gain(corpus, results, factor, target, upto) > 0,
    decreases upto,
{
    lemma_spread_share_bounds(results[upto - 1].score as int, factor);
    if source < upto - 1 {
        lemma_spread_gain_positive(corpus, results, factor, target, source, upto - 1);
    } else {
        lemma_spread_gain_bounds(corpus, results, factor, target, upto - 1, u128::MAX as int);
    }
}

/// Spreading activation never lowers a score, and it strictly raises the
/// score of a fact that shares an entity with another fact among the
/// candidates, provided that fact has at least one unit to give.
pub proof fn lemma_spreading_raises_score(
    corpus: Seq<MemoryView>,
    results: Seq<Ranked>,
    factor: int,
    target: int,
    source: int,
)
    requires
        results.len() <= usize::MAX,
        forall|i: int| 0 <= i < results.len() ==> (#[trigger] results[i]).score <= u64::MAX,
        0 <= factor <= SCALE,
        0 <= target < results.len(),
        0 <= source < results.len(),
        source != target,
        linked(corpus, results[source], results[target]),
        spread_share(results[source].score as int, factor) >= 1,
    ensures
        spread(corpus, results, factor)[target].score > results[target].score,
        forall|i: int|
            0 <= i < results.len() ==> (#[trigger] spread(corpus, results, factor)[i]).score
                >= results[i].score,
{
    let n = results.len() as int;
    let bound = u64::MAX as int;
    assert(n * bound <= 0xffff_ffff_ffff_ffff * 0xffff_ffff_ffff_ffff) by (nonlinear_arith)
        requires
            0 <= n <= 0xffff_ffff_ffff_ffff,
            bound == 0xffff_ffff_ffff_ffff,
    ;
    assert forall|i: int| 0 <= i < n implies (#[trigger] spread(corpus, results, factor)[i]).score
        == results[i].score + spread_gain(corpus, results, factor, i, n) by {
        lemma_spread_gain_bounds(corpus, results, factor, i, n, bound);
        assert(results[i].score <= bound);
        assert((n - 1) * bound + bound == n * bound) by (nonlinear_arith);
    }
    assert forall|i: int| 0 <= i < n implies (#[trigger] spread(corpus, results, factor)[i]).score
        >= results[i].score by {
        lemma_spread_gain_bounds(corpus, results, factor, i, n, bound);
    }
    lemma_spread_gain_positive(corpus, results, factor, target, source, n);
}

/// The lower-cased entities of a candidate, as executable strings.
pub open spec fn keys_view(keys: Option<(String, String)>) -> Option<(Seq<char>, Seq<char>)> {
    match keys {
        Some((s, o)) => Some((s@, o@)),
        None => None,
    }
}

fn entity_keys(corpus: &Vec<MemoryRecord>, candidate: &Ranked) -> (keys: Option<
    (String, String),
>)
    ensures
        keys_view(keys) == entities_at(views(corpus@), candidate.index as int),
{
    if candidate.index < corpus.len() {
        proof {
            assert(views(corpus@)[candidate.index as int] == corpus@[candidate.index as int]@);
        }
        match &corpus[candidate.index].kind {
            MemoryKind::Fact(f) => Some(
                (to_lowercase(f.subject.as_str()), to_lowercase(f.object.as_str())),
            ),
            MemoryKind::Episode(_) => None,
        }
    } else {
        None
    }
}

fn same_text(a: &String, b: &String) -> (r: bool)
    ensures
        r == (a@ == b@),
{
    *a == *b
}

fn keys_linked(a: &Option<(String, String)>, b: &Option<(String, String)>) -> (r: bool)
    ensures
        r == match (keys_view(*a), keys_view(*b)) {
            (Some(x), Some(y)) => share_entity(x, y),
            _ => false,
        },
{
    match a {
        Some((s1, o1)) => match b {
            Some((s2, o2)) => same_text(s1, s2) || same_text(s1, o2) || same_text(o1, s2)
                || same_text(o1, o2),
            None => false,
        },
        None => false,
    }
}

/// The lower-cased entities of each candidate of a list, as values.
pub open spec fn key_views(keys: Seq<Option<(String, String)>>) -> Seq<
    Option<(Seq<char>, Seq<char>)>,
> {
    keys.map_values(|k: Option<(String, String)>| keys_view(k))
}

/// The entities of each candidate of a list, by its corpus position.
pub open spec fn entity_keys_of(corpus: Seq<MemoryView>, results: Seq<Ranked>) -> Seq<
    Option<(Seq<char>, Seq<char>)>,
> {
    Seq::new(results.len(), |i: int| entities_at(corpus, results[i].index as int))
}

/// Two candidates with the given entities are linked: both have entities,
/// and they share one.
pub open spec fn keys_share(
    a: Option<(Seq<char>, Seq<char>)>,
    b: Option<(Seq<char>, Seq<char>)>,
) -> bool {
    match (a, b) {
        (Some(x), Some(y)) => share_entity(x, y),
        _ => false,
    }
}

/// What the candidate at position `target` receives from the sources at
/// positions below `upto`, when the entities of each candidate are given.
pub open spec fn keyed_gain(
    keys: Seq<Option<(Seq<char>, Seq<char>)>>,
    results: Seq<Ranked>,
    factor: int,
    target: int,
    upto: int,
) -> int
    decreases upto,
{
    if upto <= 0 {
        0
    } else {
        keyed_gain(keys, results, factor, target, upto - 1) + if upto - 1 != target && keys_share(
            keys[upto - 1],
            keys[target],
        ) {
            spread_share(results[upto - 1].score as int, factor)
        } else {
            0
        }
    }
}

/// The candidates after one pass of spreading activation, when the entities
/// of each candidate are given.
pub open spec fn spread_over(
    keys: Seq<Option<(Seq<char>, Seq<char>)>>,
    results: Seq<Ranked>,
    factor: int,
) -> Seq<Ranked> {
    Seq::new(
        results.len(),
        |i: int|
            Ranked {
                index: results[i].index,
                score: (results[i].score + keyed_gain(
                    keys,
                    results,
                    factor,
                    i,
                    results.len() as int,
                )) as u128,
            },
    )
}

/// The gain from the first `upto` sources is never negative and at most
/// `upto` times the largest score.
pub proof fn lemma_keyed_gain_bounds(
    keys: Seq<Option<(Seq<char>, Seq<char>)>>,
    results: Seq<Ranked>,
    factor: int,
    target: int,
    upto: int,
    bound: int,
)
    requires
        0 <= upto <= results.len(),
        0 <= factor <= SCALE,
        forall|i: int| 0 <= i < results.len() ==> (#[trigger] results[i]).score <= bound,
    ensures
        0 <= keyed_gain(keys, results, factor, target, upto) <= upto * bound,
        0 <= target < upto ==> keyed_gain(keys, results, factor, target, upto) <= (upto - 1)
            * bound,
    decreases upto,
{
    if upto > 0 {
        lemma_keyed_gain_bounds(keys, results, factor, target, upto - 1, bound);
        lemma_spread_share_bounds(results[upto - 1].score as int, factor);
        assert((upto - 1) * bound + bound == upto * bound) by (nonlinear_arith);
        assert((upto - 2) * bound + bound == (upto - 1) * bound) by (nonlinear_arith);
        assert(results[upto - 1].score <= bound);
        assert(0 <= bound);
    }
}

/// Between two candidates that share an entity each receives exactly the
/// other's share, taken from the other's score before the pass: with the
/// documented factor, 0.15 of it rounded down to a whole unit.
pub proof fn lemma_spread_between_two(
    keys: Seq<Option<(Seq<char>, Seq<char>)>>,
    results: Seq<Ranked>,
    factor: int,
)
    requires
        keys.len() == 2,
        results.len() == 2,
        keys_share(keys[0], keys[1]),
        0 <= factor <= SCALE,
        results[0].score <= u64::MAX,
        results[1].score <= u64::MAX,
    ensures
        spread_over(keys, results, factor)[0].score == results[0].score + spread_share(
            results[1].score as int,
            factor,
        ),
        spread_over(keys, results, factor)[1].score == results[1].score + spread_share(
            results[0].score as int,
            factor,
        ),
        spread_over(keys, results, factor)[1].score > results[1].score <==> spread_share(
            results[0].score as int,
            factor,
        ) >= 1,
{
    lemma_spread_share_bounds(results[0].score as int, factor);
    lemma_spread_share_bounds(results[1].score as int, factor);
    assert(keyed_gain(keys, results, factor, 0, 0) == 0);
    assert(keyed_gain(keys, results, factor, 0, 1) == 0);
    assert(keyed_gain(keys, results, factor, 0, 2) == spread_share(
        results[1].score as int,
        factor,
    ));
    assert(keyed_gain(keys, results, factor, 1, 0) == 0);
    assert(keyed_gain(keys, results, factor, 1, 1) == spread_share(
        results[0].score as int,
        factor,
    ));
    assert(keyed_gain(keys, results, factor, 1, 2) == spread_share(
        results[0].score as int,
        factor,
    ));
}

/// Spreading over the entities that the corpus gives each candidate is
/// spreading over the corpus.
pub proof fn lemma_spread_over_corpus(
    corpus: Seq<MemoryView>,
    results: Seq<Ranked>,
    factor: int,
    target: int,
    upto: int,
)
    requires
        0 <= target < results.len(),
        0 <= upto <= results.len(),
    ensures
        keyed_gain(entity_keys_of(corpus, results), results, factor, target, upto) == spread_gain(
            corpus,
            results,
            factor,
            target,
            upto,
        ),
    decreases upto,
{
    if upto > 0 {
        lemma_spread_over_corpus(corpus, results, factor, target, upto - 1);
    }
}

/// One pass of spreading activation over candidates whose lower-cased
/// entities are given, one entry of `keys` for each candidate.
///
/// Every candidate that has entities passes `factor` times its score to
/// each other candidate that shares one of them, subject or object in
/// either role. All shares are taken from the scores before the pass and
/// add up; a candidate without entities neither gives nor receives.
pub fn spread_over_keys(
    keys: &Vec<Option<(String, String)>>,
    results: &mut Vec<Ranked>,
    factor: u64,
)
    requires
        keys@.len() == old(results)@.len(),
        factor <= SCALE,
        forall|i: int| 0 <= i < old(results)@.len() ==> (#[trigger] old(results)@[i]).score
            <= u64::MAX,
    ensures
        final(results)@ == spread_over(key_views(keys@), old(results)@, factor as int),
{
    let ghost given = key_views(keys@);
    let ghost before = results@;
    let n = results.len();
    let mut out: Vec<Ranked> = Vec::new();
    let mut target: usize = 0;
    while target < n
        invariant
            target <= n,
            n == results@.len(),
            results@ == before,
            keys@.len() == n,
            given == key_views(keys@),
            factor <= SCALE,
            forall|k: int| 0 <= k < n ==> (#[trigger] before[k]).score <= u64::MAX,
            out@.len() == target,
            forall|k: int|
                0 <= k < target ==> #[trigger] out@[k] == spread_over(
                    given,
                    before,
                    factor as int,
                )[k],
        decreases n - target,
    {
        let mut gain: u128 = 0;
        let mut source: usize = 0;
        while source < n
            invariant
                source <= n,
                target < n,
                n == results@.len(),
                results@ == before,
                keys@.len() == n,
                given == key_views(keys@),
                factor <= SCALE,
                forall|k: int| 0 <= k < n ==> (#[trigger] before[k]).score <= u64::MAX,
                gain == keyed_gain(given, before, factor as int, target as int, source as int),
            decreases n - source,
        {
            proof {
                lemma_keyed_gain_bounds(
                    given,
                    before,
                    factor as int,
                    target as int,
                    source as int,
                    u64::MAX as int,
                );
                lemma_keyed_gain_bounds(
                    given,
                    before,
                    factor as int,
                    target as int,
                    source + 1,
                    u64::MAX as int,
                );
                lemma_spread_share_bounds(before[source as int].score as int, factor as int);
                assert(before[source as int].score <= u64::MAX);
                assert((source + 1) * u64::MAX <= 0xffff_ffff_ffff_ffff * 0xffff_ffff_ffff_ffff)
                    by (nonlinear_arith)
                    requires
                        source + 1 <= 0xffff_ffff_ffff_ffff,
                ;
                assert(before[source as int].score * factor <= 0xffff_ffff_ffff_ffff
                    * 1_000_000_000) by (nonlinear_arith)
                    requires
                        0 <= before[source as int].score <= 0xffff_ffff_ffff_ffff,
                        0 <= factor <= 1_000_000_000,
                ;
                assert(given[source as int] == keys_view(keys@[source as int]));
                assert(given[target as int] == keys_view(keys@[target as int]));
            }
            if source != target && keys_linked(&keys[source], &keys[target]) {
                let share: u128 = results[source].score * (factor as u128) / (SCALE as u128);
                gain = gain + share;
            }
            source = source + 1;
        }
        proof {
            lemma_keyed_gain_bounds(
                given,
                before,
                factor as int,
                target as int,
                n as int,
                u64::MAX as int,
            );
            assert(before[target as int].score <= u64::MAX);
            assert((n - 1) * u64::MAX + u64::MAX <= 0xffff_ffff_ffff_ffff * 0xffff_ffff_ffff_ffff)
                by (nonlinear_arith)
                requires
                    1 <= n <= 0xffff_ffff_ffff_ffff,
            ;
        }
        out.push(Ranked { index: results[target].index, score: results[target].score + gain });
        target = target + 1;
    }
    proof {
        assert(out@ =~= spread_over(given, before, factor as int));
    }
    *results = out;
}

/// One pass of spreading activation through the facts among the candidates.
///
/// Every candidate that is a fact passes `factor` times its score to each
/// other candidate that is a fact sharing its subject or object, compared
/// without regard to case. All shares are taken from the scores before the
/// pass and add up; episodes neither give nor receive.
pub fn spread_activation(corpus: &Vec<MemoryRecord>, results: &mut Vec<Ranked>, factor: u64)
    requires
        factor <= SCALE,
        forall|i: int| 0 <= i < old(results)@.len() ==> (#[trigger] old(results)@[i]).score
            <= u64::MAX,
    ensures
        final(results)@ == spread(views(corpus@), old(results)@, factor as int),
{
    let ghost model = views(corpus@);
    let ghost before = results@;
    let n = results.len();
    let mut keys: Vec<Option<(String, String)>> = Vec::new();
    let mut i: usize = 0;
    while i < n
        invariant
            i <= n,
            n == results@.len(),
            results@ == before,
            model == views(corpus@),
            keys@.len() == i,
            forall|k: int|
                0 <= k < i ==> keys_view(#[trigger] keys@[k]) == entities_at(
                    model,
                    before[k].index as int,
                ),
        decreases n - i,
    {
        let k = entity_keys(corpus, &results[i]);
        keys.push(k);
        i = i + 1;
    }
    proof {
        assert(key_views(keys@) =~= entity_keys_of(model, before));
    }
    spread_over_keys(&keys, results, factor);
    proof {
        let given = entity_keys_of(model, before);
        assert forall|t: int| 0 <= t < before.len() implies spread_over(
            given,
            before,
            factor as int,
        )[t] == spread(model, before, factor as int)[t] by {
            lemma_spread_over_corpus(model, before, factor as int, t, before.len() as int);
        }
        assert(results@ =~= spread(model, before, factor as int));
    }
}

/// The largest score that the temporal boost accepts.
pub const TEMPORAL_SCORE_LIMIT: u128 = 0x2000_0000_0000_0000_0000_0000_0000_0000;

/// When the memory at a corpus position was created; nothing outside the corpus.
pub open spec fn created_at_of(corpus: Seq<MemoryView>, index: int) -> Option<int> {
    if 0 <= index < corpus.len() {
        Some(corpus[index].created_at)
    } else {
        None
    }
}

/// The whole minutes between two instants given in seconds.
pub open spec fn gap_minutes(a: int, b: int) -> int {
    (if a >= b {
        a - b
    } else {
        b - a
    }) / 60
}

/// What an anchor of the given score passes to a memory created `gap`
/// minutes away: `weight` times its score at no distance, falling linearly
/// to nothing at thirty minutes.
pub open spec fn temporal_share(anchor_score: int, weight: int, gap: int) -> int {
    if gap < WINDOW_MINUTES {
        anchor_score * (weight * (WINDOW_MINUTES - gap)) / (TEMPORAL_DIVISOR as int)
    } else {
        0
    }
}

/// The candidates' scores, each labelled with its position in the list.
pub open spec fn by_position(results: Seq<Ranked>) -> Seq<Ranked> {
    Seq::new(results.len(), |i: int| Ranked { index: i as usize, score: results[i].score })
}

/// The anchors: the `ANCHOR_COUNT` highest-scoring candidates, equal scores
/// in list order. Each entry holds the anchor's position in the list and its score.
pub open spec fn anchors(results: Seq<Ranked>) -> Seq<Ranked> {
    let sorted = in_rank_order(by_position(results));
    if sorted.len() > ANCHOR_COUNT {
        sorted.take(ANCHOR_COUNT as int)
    } else {
        sorted
    }
}

/// What one anchor passes to the candidate at position `target`. A candidate
/// never receives anything from itself.
pub open spec fn anchor_contribution(
    corpus: Seq<MemoryView>,
    results: Seq<Ranked>,
    weight: int,
    anchor: Ranked,
    target: int,
) -> int {
    if anchor.index != target && anchor.index < results.len() {
        match (
            created_at_of(corpus, results[anchor.index as int].index as int),
            created_at_of(corpus, results[target].index as int),
        ) {
            (Some(a), Some(t)) => temporal_share(anchor.score as int, weight, gap_minutes(a, t)),
            _ => 0,
        }
    } else {
        0
    }
}

/// What the candidate at position `target` receives from a list of anchors.
pub open spec fn temporal_gain(
    corpus: Seq<MemoryView>,
    results: Seq<Ranked>,
    weight: int,
    from: Seq<Ranked>,
    target: int,
) -> int
    decreases from.len(),
{
    if from.len() == 0 {
        0
    } else {
        temporal_gain(corpus, results, weight, from.drop_last(), target) + anchor_contribution(
            corpus,
            results,
            weight,
            from.last(),
            target,
        )
    }
}

/// The candidates after the temporal co-occurrence boost.
pub open spec fn temporal(corpus: Seq<MemoryView>, results: Seq<Ranked>, weight: int) -> Seq<
    Ranked,
> {
    Seq::new(
        results.len(),
        |i: int|
            Ranked {
                index: results[i].index,
                score: (results[i].score + temporal_gain(
                    corpus,
                    results,
                    weight,
                    anchors(results),
                    i,
                )) as u128,
            },
    )
}

/// A share is never negative and never more than the anchor's score.
pub proof fn lemma_temporal_share_bounds(anchor_score: int, weight: int, gap: int)
    requires
        0 <= anchor_score,
        0 <= weight <= SCALE,
        0 <= gap,
    ensures
        0 <= temporal_share(anchor_score, weight, gap) <= anchor_score,
{
    if gap < WINDOW_MINUTES {
        let w = weight * (WINDOW_MINUTES - gap);
        assert(0 <= w <= 30_000_000_000) by (nonlinear_arith)
            requires
                w == weight * (WINDOW_MINUTES - gap),
                0 <= weight <= 1_000_000_000,
                0 < WINDOW_MINUTES - gap <= 30,
        ;
        assert(0 <= anchor_score * w / 30_000_000_000 <= anchor_score) by (nonlinear_arith)
            requires
                0 <= anchor_score,
                0 <= w <= 30_000_000_000,
        ;
    }
}

/// Every anchor is one of the candidates: its entry names a position of the
/// list and carries the score found there. There are at most `ANCHOR_COUNT`.
pub proof fn lemma_anchors_are_candidates(results: Seq<Ranked>)
    requires
        results.len() <= usize::MAX,
    ensures
        anchors(results).len() <= ANCHOR_COUNT,
        anchors(results).len() <= results.len(),
        forall|k: int|
            0 <= k < anchors(results).len() ==> {
                let a = #[trigger] anchors(results)[k];
                a.index < results.len() && a.score == results[a.index as int].score
            },
{
    let entries = by_position(results);
    let sorted = in_rank_order(entries);
    lemma_rank_order_keeps_entries(entries);
    assert forall|k: int| 0 <= k < anchors(results).len() implies {
        let a = #[trigger] anchors(results)[k];
        a.index < results.len() && a.score == results[a.index as int].score
    } by {
        let a = anchors(results)[k];
        assert(a == sorted[k]);
        assert(sorted.contains(a));
        assert(entries.contains(a));
        let i = choose|i: int| 0 <= i < entries.len() && entries[i] == a;
        assert(a.index == i);
    }
}

/// The gain from a list of anchors is never negative and at most the
/// largest score for each anchor in the list.
pub proof fn lemma_temporal_gain_bounds(
    corpus: Seq<MemoryView>,
    results: Seq<Ranked>,
    weight: int,
    from: Seq<Ranked>,
    target: int,
    bound: int,
)
    requires
        0 <= weight <= SCALE,
        forall|k: int| 0 <= k < from.len() ==> (#[trigger] from[k]).score <= bound,
    ensures
        0 <= temporal_gain(corpus, results, weight, from, target) <= from.len() * bound,
    decreases from.len(),
{
    if from.len() > 0 {
        let front = from.drop_last();
        assert forall|k: int| 0 <= k < front.len() implies (#[trigger] front[k]).score
            <= bound by {
            assert(front[k] == from[k]);
        }
        lemma_temporal_gain_bounds(corpus, results, weight, front, target, bound);
        let a = from.last();
        assert(a == from[from.len() - 1]);
        let c = anchor_contribution(corpus, results, weight, a, target);
        assert(0 <= c <= bound) by {
            if a.index != target && a.index < results.len() {
                match (
                    created_at_of(corpus, results[a.index as int].index as int),
                    created_at_of(corpus, results[target].index as int),
                ) {
                    (Some(x), Some(t)) => {
                        lemma_temporal_share_bounds(a.score as int, weight, gap_minutes(x, t));
                    },
                    _ => {},
                }
            }
        }
        assert((from.len() - 1) * bound + bound == from.len() * bound) by (nonlinear_arith);
    }
}

fn created_at(corpus: &Vec<MemoryRecord>, candidate: &Ranked) -> (t: Option<i64>)
    ensures
        match t {
            Some(v) => created_at_of(views(corpus@), candidate.index as int) == Some(v as int),
            None => created_at_of(views(corpus@), candidate.index as int) is None,
        },
{
    if candidate.index < corpus.len() {
        proof {
            assert(views(corpus@)[candidate.index as int] == corpus@[candidate.index as int]@);
        }
        Some(corpus[candidate.index].created_at)
    } else {
        None
    }
}

fn share_of(anchor_score: u128, weight: u64, a: i64, t: i64) -> (share: u128)
    requires
        weight <= SCALE,
    ensures
        share == temporal_share(
            anchor_score as int,
            weight as int,
            gap_minutes(a as int, t as int),
        ),
{
    let apart: u128 = if a >= t {
        (a as i128 - t as i128) as u128
    } else {
        (t as i128 - a as i128) as u128
    };
    let gap: u128 = apart / 60;
    if gap < WINDOW_MINUTES as u128 {
        let left: u128 = WINDOW_MINUTES as u128 - gap;
        proof {
            assert(weight * left <= 30_000_000_000) by (nonlinear_arith)
                requires
                    0 <= weight <= 1_000_000_000,
                    0 < left <= 30,
            ;
        }
        let w: u128 = (weight as u128) * left;
        let q: u128 = anchor_score / (TEMPORAL_DIVISOR as u128);
        let r: u128 = anchor_score % (TEMPORAL_DIVISOR as u128);
        proof {
            assert(q * w + r * w / 30_000_000_000 == anchor_score * w / 30_000_000_000 && q * w
                <= anchor_score && r * w <= 30_000_000_000 * 30_000_000_000 && r * w
                / 30_000_000_000 <= 30_000_000_000 && q * w + r * w / 30_000_000_000
                <= anchor_score) by (nonlinear_arith)
                requires
                    q == anchor_score / 30_000_000_000,
                    r == anchor_score % 30_000_000_000,
                    0 <= w <= 30_000_000_000,
                    0 <= anchor_score,
            ;
        }
        q * w + r * w / (TEMPORAL_DIVISOR as u128)
    } else {
        0
    }
}

/// Temporal co-occurrence boost: memories created within thirty minutes of
/// one of the five best candidates gain a share of that candidate's score,
/// `weight` times the score for a memory created in the same minute.
///
/// The anchors are chosen, and their scores read, before any score changes.
/// Shares from several anchors add up, and no candidate boosts itself.
pub fn temporal_cooccurrence_boost(
    corpus: &Vec<MemoryRecord>,
    results: &mut Vec<Ranked>,
    weight: u64,
)
    requires
        weight <= SCALE,
        forall|i: int| 0 <= i < old(results)@.len() ==> (#[trigger] old(results)@[i]).score
            <= TEMPORAL_SCORE_LIMIT,
    ensures
        final(results)@ == temporal(views(corpus@), old(results)@, weight as int),
{
    let ghost model = views(corpus@);
    let ghost before = results@;
    let n = results.len();
    let mut entries: Vec<Ranked> = Vec::new();
    let mut i: usize = 0;
    while i < n
        invariant
            i <= n,
            n == results@.len(),
            results@ == before,
            entries@.len() == i,
            forall|k: int| 0 <= k < i ==> #[trigger] entries@[k] == by_position(before)[k],
        decreases n - i,
    {
        entries.push(Ranked { index: i, score: results[i].score });
        i = i + 1;
    }
    proof {
        assert(entries@ =~= by_position(before));
        lemma_anchors_are_candidates(before);
    }
    let mut chosen = sort_ranked(&entries);
    if chosen.len() > ANCHOR_COUNT {
        chosen.truncate(ANCHOR_COUNT);
    }
    proof {
        assert(chosen@ =~= anchors(before));
    }
    let mut out: Vec<Ranked> = Vec::new();
    let mut target: usize = 0;
    while target < n
        invariant
            target <= n,
            n == results@.len(),
            results@ == before,
            model == views(corpus@),
            weight <= SCALE,
            chosen@ == anchors(before),
            chosen@.len() <= ANCHOR_COUNT,
            forall|k: int| 0 <= k < n ==> (#[trigger] before[k]).score <= TEMPORAL_SCORE_LIMIT,
            forall|k: int|
                0 <= k < chosen@.len() ==> (#[trigger] chosen@[k]).score <= TEMPORAL_SCORE_LIMIT,
            out@.len() == target,
            forall|k: int|
                0 <= k < target ==> #[trigger] out@[k] == temporal(model, before, weight as int)[k],
        decreases n - target,
    {
        let target_time = created_at(corpus, &results[target]);
        let mut gain: u128 = 0;
        let mut k: usize = 0;
        proof {
            assert(chosen@.take(0) =~= Seq::<Ranked>::empty());
        }
        while k < chosen.len()
            invariant
                k <= chosen@.len(),
                target < n,
                n == results@.len(),
                results@ == before,
                model == views(corpus@),
                weight <= SCALE,
                chosen@.len() <= ANCHOR_COUNT,
                forall|j: int|
                    0 <= j < chosen@.len() ==> (#[trigger] chosen@[j]).score
                        <= TEMPORAL_SCORE_LIMIT,
                match target_time {
                    Some(v) => created_at_of(model, before[target as int].index as int) == Some(
                        v as int,
                    ),
                    None => created_at_of(model, before[target as int].index as int) is None,
                },
                gain == temporal_gain(
                    model,
                    before,
                    weight as int,
                    chosen@.take(k as int),
                    target as int,
                ),
            decreases chosen@.len() - k,
        {
            let anchor = chosen[k];
            proof {
                let prefix = chosen@.take(k as int);
                let next = chosen@.take(k + 1);
                assert(next.drop_last() =~= prefix);
                assert(next.last() == anchor);
                assert forall|j: int| 0 <= j < next.len() implies (#[trigger] next[j]).score
                    <= TEMPORAL_SCORE_LIMIT by {
                    assert(next[j] == chosen@[j]);
                }
                assert forall|j: int| 0 <= j < prefix.len() implies (#[trigger] prefix[j]).score
                    <= TEMPORAL_SCORE_LIMIT by {
                    assert(prefix[j] == chosen@[j]);
                }
                lemma_temporal_gain_bounds(
                    model,
                    before,
                    weight as int,
                    prefix,
                    target as int,
                    TEMPORAL_SCORE_LIMIT as int,
                );
                lemma_temporal_gain_bounds(
                    model,
                    before,
                    weight as int,
                    next,
                    target as int,
                    TEMPORAL_SCORE_LIMIT as int,
                );
                assert(next.len() * (TEMPORAL_SCORE_LIMIT as int) <= 5 * (
                TEMPORAL_SCORE_LIMIT as int)) by (nonlinear_arith)
                    requires
                        next.len() <= 5,
                ;
            }
            if anchor.index != target && anchor.index < n {
                let anchor_time = created_at(corpus, &results[anchor.index]);
                match (anchor_time, target_time) {
                    (Some(a), Some(t)) => {
                        let share = share_of(anchor.score, weight, a, t);
                        gain = gain + share;
                    },
                    _ => {},
                }
            }
            k = k + 1;
        }
        proof {
            assert(chosen@.take(k as int) =~= chosen@);
            lemma_temporal_gain_bounds(
                model,
                before,
                weight as int,
                chosen@,
                target as int,
                TEMPORAL_SCORE_LIMIT as int,
            );
            assert(chosen@.len() * (TEMPORAL_SCORE_LIMIT as int) <= 5 * (
            TEMPORAL_SCORE_LIMIT as int)) by (nonlinear_arith)
                requires
                    chosen@.len() <= 5,
            ;
            assert(before[target as int].score <= TEMPORAL_SCORE_LIMIT);
        }
        out.push(Ranked { index: results[target].index, score: results[target].score + gain });
        target = target + 1;
    }
    proof {
        assert(out@ =~= temporal(model, before, weight as int));
    }
    *results = out;
}

} // verus!
