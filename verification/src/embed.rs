//! Embeddings: the provider interface and exact integer similarity.

use vstd::prelude::*;
use crate::fixed::SCALE;
use crate::memory::{Embedding, MemoryRecord, MemoryView};
use crate::ranking::{in_rank_order, sort_ranked, Ranked};
use crate::wide::{exceeds, product, scaled, two_to_128, Wide, LIMB};

verus! {

/// A failure of the embedding provider.
#[derive(Debug)]
pub enum EmbedError {
    Other(String),
}

impl EmbedError {
    /// The provider's description of the failure.
    pub fn message(&self) -> (r: String)
        ensures
            r@ == self.text(),
    {
        match self {
            EmbedError::Other(m) => m.clone(),
        }
    }

    /// The description carried by the error.
    pub open spec fn text(&self) -> Seq<char> {
        match self {
            EmbedError::Other(m) => m@,
        }
    }
}

/// A provider that turns text into vectors of a fixed dimension.
///
/// Implementations decide what the vectors are; the engine only compares them.
pub trait Embedder: Send + Sync {
    /// Embeds a batch of texts, one vector per text, in input order.
    fn embed(&self, texts: &[&str]) -> Result<Vec<Embedding>, EmbedError>;

    /// The length of every vector this provider returns.
    fn dimension(&self) -> usize;

    /// Embeds a single text.
    fn embed_one(&self, text: &str) -> Result<Embedding, EmbedError> {
        // Asks for a batch of the one text; what becomes of the provider's
        // answer is for `single_embedding` to say.
        let texts: [&str; 1] = [text];
        single_embedding(self.embed(texts.as_slice()))
    }
}

/// What is made of the provider's answer to a batch of one text: its one
/// vector, the provider's own failure, or a failure that says how the answer
/// fell short.
pub open spec fn single_outcome(
    batch: Result<Vec<Embedding>, EmbedError>,
    r: Result<Embedding, EmbedError>,
) -> bool {
    match batch {
        Ok(vectors) => if vectors@.len() == 1 {
            r == Ok::<Embedding, EmbedError>(vectors@[0])
        } else {
            r is Err && r->Err_0.text() == "embedder returned the wrong number of vectors"@
        },
        Err(e) => r == Err::<Embedding, EmbedError>(e),
    }
}

/// Takes the one vector out of the provider's answer to a batch of one text.
///
/// Succeeds exactly when the provider succeeded with exactly one vector. A
/// failure of the provider is passed on as it is, and an answer that holds
/// no vector, or more than one, is a failure that says so.
pub fn single_embedding(batch: Result<Vec<Embedding>, EmbedError>) -> (r: Result<
    Embedding,
    EmbedError,
>)
    ensures
        single_outcome(batch, r),
        r is Ok <==> batch is Ok && batch->Ok_0@.len() == 1,
{
    match batch {
        Ok(mut vectors) => {
            let only = if vectors.len() == 1 {
                vectors.pop()
            } else {
                None
            };
            match only {
                Some(e) => Ok(e),
                None => Err(
                    EmbedError::Other("embedder returned the wrong number of vectors".to_owned()),
                ),
            }
        },
        Err(e) => Err(e),
    }
}

/// The inner product of two vectors of equal length; zero if the lengths differ.
pub open spec fn dot(a: Seq<i16>, b: Seq<i16>) -> int
    decreases a.len(),
{
    if a.len() == 0 || a.len() != b.len() {
        0
    } else {
        dot(a.drop_last(), b.drop_last()) + a.last() * b.last()
    }
}

/// One, in the unit of similarity thresholds: a millionth.
pub const THRESHOLD_UNIT: u32 = 1_000_000;

/// The cosine of the angle between `a` and `b` is strictly greater than
/// `threshold` millionths: the vectors have the same length, their inner
/// product is positive, and
/// `10^12 * (a.b)^2 > threshold^2 * |a|^2 * |b|^2`.
///
/// Vectors of different lengths have no angle between them and are never
/// above any threshold. There is no limit on the length.
pub open spec fn above_threshold(threshold: int, a: Seq<i16>, b: Seq<i16>) -> bool {
    &&& a.len() == b.len()
    &&& dot(a, b) > 0
    &&& THRESHOLD_UNIT * THRESHOLD_UNIT * (dot(a, b) * dot(a, b)) > threshold * threshold * (dot(
        a,
        a,
    ) * dot(b, b))
}

/// The squared cosine of the angle between two positively correlated
/// vectors of the same length, in units of `1 / SCALE`, rounded down and
/// never more than one; zero for any other pair.
pub open spec fn squared_cosine(a: Seq<i16>, b: Seq<i16>) -> int {
    if a.len() == b.len() && dot(a, b) > 0 && dot(a, a) * dot(b, b) > 0 {
        let q = dot(a, b) * dot(a, b) * SCALE / (dot(a, a) * dot(b, b));
        if q > SCALE {
            SCALE as int
        } else {
            q
        }
    } else {
        0
    }
}

/// The inner product of vectors of length `n` lies within `n * 2^30` of zero.
pub proof fn lemma_dot_bounds(a: Seq<i16>, b: Seq<i16>)
    requires
        a.len() == b.len(),
    ensures
        -(a.len() * 0x4000_0000) <= dot(a, b) <= a.len() * 0x4000_0000,
    decreases a.len(),
{
    if a.len() > 0 {
        lemma_dot_bounds(a.drop_last(), b.drop_last());
        let x = a.last() as int;
        let y = b.last() as int;
        assert(-0x4000_0000 <= x * y <= 0x4000_0000) by (nonlinear_arith)
            requires
                -0x8000 <= x <= 0x7fff,
                -0x8000 <= y <= 0x7fff,
        ;
    }
}

/// The inner product of a vector with itself is not negative.
pub proof fn lemma_dot_self_nonnegative(a: Seq<i16>)
    ensures
        dot(a, a) >= 0,
    decreases a.len(),
{
    if a.len() > 0 {
        lemma_dot_self_nonnegative(a.drop_last());
        let x = a.last() as int;
        assert(x * x >= 0) by (nonlinear_arith);
    }
}

/// Computes the inner product of two vectors of the same length, however long.
pub fn dot_product(a: &Embedding, b: &Embedding) -> (r: i128)
    requires
        a@.len() == b@.len(),
    ensures
        r == dot(a@, b@),
        -0x4000_0000_0000_0000_0000_0000 <= r <= 0x4000_0000_0000_0000_0000_0000,
{
    let mut acc: i128 = 0;
    let mut i: usize = 0;
    proof {
        assert(a@.take(0) =~= Seq::<i16>::empty());
    }
    while i < a.len()
        invariant
            i <= a.len(),
            a.len() == b.len(),
            acc == dot(a@.take(i as int), b@.take(i as int)),
        decreases a.len() - i,
    {
        let x: i128 = a[i] as i128;
        let y: i128 = b[i] as i128;
        proof {
            assert(a@.take(i + 1).drop_last() =~= a@.take(i as int));
            assert(b@.take(i + 1).drop_last() =~= b@.take(i as int));
            lemma_dot_bounds(a@.take(i as int), b@.take(i as int));
            lemma_dot_bounds(a@.take(i + 1), b@.take(i + 1));
            assert(-0x4000_0000 <= x * y <= 0x4000_0000) by (nonlinear_arith)
                requires
                    -0x8000 <= x <= 0x7fff,
                    -0x8000 <= y <= 0x7fff,
            ;
            assert((i + 1) * 0x4000_0000 <= 0x1_0000_0000_0000_0000 * 0x4000_0000)
                by (nonlinear_arith)
                requires
                    i + 1 <= 0x1_0000_0000_0000_0000,
            ;
        }
        acc = acc + x * y;
        i = i + 1;
    }
    proof {
        assert(a@.take(i as int) =~= a@);
        assert(b@.take(i as int) =~= b@);
        lemma_dot_bounds(a@, b@);
        assert(a@.len() * 0x4000_0000 <= 0x1_0000_0000_0000_0000 * 0x4000_0000)
            by (nonlinear_arith)
            requires
                a@.len() <= 0x1_0000_0000_0000_0000,
        ;
    }
    acc
}

/// The squared cosine from the squared inner product and the product of the
/// squared lengths: the largest `q` up to `SCALE` with
/// `q * norms <= square * SCALE`.
fn cosine_key(square: Wide, norms: Wide) -> (key: u128)
    requires
        square.hi < LIMB,
        norms.hi < LIMB,
        norms.value() > 0,
    ensures
        key <= SCALE,
        key == if square.value() * SCALE / norms.value() > SCALE {
            SCALE as int
        } else {
            square.value() * SCALE / norms.value()
        },
{
    let target = scaled(square, SCALE);
    let mut low: u64 = 0;
    let mut high: u64 = SCALE + 1;
    proof {
        assert(norms.value() * 0 == 0) by (nonlinear_arith);
        assert(square.value() * SCALE >= 0) by (nonlinear_arith)
            requires
                square.value() >= 0,
        ;
    }
    while high - low > 1
        invariant
            low < high <= SCALE + 1,
            norms.hi < LIMB,
            norms.value() > 0,
            target.value() == square.value() * SCALE,
            norms.value() * low <= target.value(),
            high <= SCALE ==> norms.value() * high > target.value(),
        decreases high - low,
    {
        let mid = low + (high - low) / 2;
        if exceeds(scaled(norms, mid), target) {
            high = mid;
        } else {
            low = mid;
        }
    }
    proof {
        let x = target.value();
        let d = norms.value();
        if low < SCALE {
            assert(x / d == low) by (nonlinear_arith)
                requires
                    d * low <= x,
                    d * (low + 1) > x,
                    d > 0,
            ;
        } else {
            assert(x / d >= low) by (nonlinear_arith)
                requires
                    d * low <= x,
                    d > 0,
            ;
        }
    }
    low as u128
}

/// Similarity of a stored embedding to a query: whether the cosine is
/// strictly above the threshold, given in millionths, and the squared cosine
/// to rank it by. Vectors of any length are compared; the arithmetic is
/// exact.
pub fn similarity(query: &Embedding, stored: &Embedding, threshold: u32) -> (r: (bool, u128))
    requires
        threshold <= THRESHOLD_UNIT,
    ensures
        r.0 == above_threshold(threshold as int, query@, stored@),
        r.1 == squared_cosine(query@, stored@),
        r.1 <= SCALE,
{
    if query.len() != stored.len() {
        return (false, 0);
    }
    let d = dot_product(query, stored);
    if d <= 0 {
        return (false, 0);
    }
    let nq = dot_product(query, query);
    let ns = dot_product(stored, stored);
    proof {
        lemma_dot_self_nonnegative(query@);
        lemma_dot_self_nonnegative(stored@);
        assert(threshold * threshold <= 1_000_000 * 1_000_000) by (nonlinear_arith)
            requires
                0 <= threshold <= 1_000_000,
        ;
    }
    let square = product(d as u128, d as u128);
    let norms = product(nq as u128, ns as u128);
    let unit: u64 = (THRESHOLD_UNIT as u64) * (THRESHOLD_UNIT as u64);
    let bar: u64 = (threshold as u64) * (threshold as u64);
    let above = exceeds(scaled(square, unit), scaled(norms, bar));
    proof {
        let dd = dot(query@, stored@) * dot(query@, stored@);
        let nn = dot(query@, query@) * dot(stored@, stored@);
        assert(square.value() == dd && norms.value() == nn);
        assert(square.value() * unit == THRESHOLD_UNIT * THRESHOLD_UNIT * dd) by (nonlinear_arith)
            requires
                square.value() == dd,
                unit == THRESHOLD_UNIT * THRESHOLD_UNIT,
        ;
        assert(norms.value() * bar == threshold * threshold * nn) by (nonlinear_arith)
            requires
                norms.value() == nn,
                bar == threshold * threshold,
        ;
    }
    let key: u128 = if norms.hi == 0 && norms.lo == 0 {
        0
    } else {
        proof {
            assert(norms.value() > 0) by (nonlinear_arith)
                requires
                    norms.value() == norms.hi * two_to_128() + norms.lo,
                    norms.hi > 0 || norms.lo > 0,
                    norms.hi >= 0,
                    norms.lo >= 0,
                    two_to_128() > 0,
            ;
        }
        cosine_key(square, norms)
    };
    (above, key)
}

/// The corpus positions below `n` whose embedding is above the similarity
/// threshold for `query`, in ascending order, each with its squared cosine.
pub open spec fn semantic_entries(
    threshold: int,
    query: Seq<i16>,
    corpus: Seq<MemoryView>,
    n: int,
) -> Seq<Ranked>
    decreases n,
{
    if n <= 0 || n > corpus.len() {
        Seq::empty()
    } else {
        let rest = semantic_entries(threshold, query, corpus, n - 1);
        match corpus[n - 1].embedding {
            Some(e) => if above_threshold(threshold, query, e) {
                rest.push(Ranked { index: (n - 1) as usize, score: squared_cosine(query, e) as u128 })
            } else {
                rest
            },
            None => rest,
        }
    }
}

/// The semantic ranking of a corpus for a query vector.
pub open spec fn semantic_ranking(threshold: int, query: Seq<i16>, corpus: Seq<MemoryView>) -> Seq<
    Ranked,
> {
    in_rank_order(semantic_entries(threshold, query, corpus, corpus.len() as int))
}

/// Every semantic entry is above the threshold: a memory whose similarity is
/// exactly at the threshold, or that has no embedding, never enters.
pub proof fn lemma_semantic_entries_strict(
    threshold: int,
    query: Seq<i16>,
    corpus: Seq<MemoryView>,
    n: int,
)
    requires
        0 <= n <= corpus.len() <= usize::MAX,
    ensures
        semantic_entries(threshold, query, corpus, n).len() <= n,
        forall|k: int|
            0 <= k < semantic_entries(threshold, query, corpus, n).len() ==> {
                let entry = #[trigger] semantic_entries(threshold, query, corpus, n)[k];
                &&& entry.index < n
                &&& corpus[entry.index as int].embedding is Some
                &&& above_threshold(threshold, query, corpus[entry.index as int].embedding->0)
                &&& entry.score == squared_cosine(query, corpus[entry.index as int].embedding->0)
            },
        crate::ranking::distinct_positions(semantic_entries(threshold, query, corpus, n)),
    decreases n,
{
    if n > 0 {
        lemma_semantic_entries_strict(threshold, query, corpus, n - 1);
        let rest = semantic_entries(threshold, query, corpus, n - 1);
        let all = semantic_entries(threshold, query, corpus, n);
        assert forall|k: int| 0 <= k < all.len() implies {
            let entry = #[trigger] all[k];
            &&& entry.index < n
            &&& corpus[entry.index as int].embedding is Some
            &&& above_threshold(threshold, query, corpus[entry.index as int].embedding->0)
            &&& entry.score == squared_cosine(query, corpus[entry.index as int].embedding->0)
        } by {
            if k < rest.len() {
                assert(all[k] == rest[k]);
            } else {
                lemma_squared_cosine_bounds(query, corpus[n - 1].embedding->0);
            }
        }
        assert forall|i: int, j: int| 0 <= i < j < all.len() implies (#[trigger] all[i]).index != (
        #[trigger] all[j]).index by {
            if j < rest.len() {
                assert(all[i] == rest[i] && all[j] == rest[j]);
            } else {
                assert(all[i] == rest[i]);
                assert(rest[i].index < n - 1);
            }
        }
    }
}

/// The squared cosine lies between zero and one.
pub proof fn lemma_squared_cosine_bounds(a: Seq<i16>, b: Seq<i16>)
    ensures
        0 <= squared_cosine(a, b) <= SCALE,
{
    if a.len() == b.len() && dot(a, b) > 0 && dot(a, a) * dot(b, b) > 0 {
        let x = dot(a, b) * dot(a, b) * SCALE;
        let d = dot(a, a) * dot(b, b);
        assert(x >= 0) by (nonlinear_arith)
            requires
                x == dot(a, b) * dot(a, b) * SCALE,
        ;
        vstd::arithmetic::div_mod::lemma_div_pos_is_pos(x, d);
    }
}

/// Every memory whose embedding is above the threshold has its entry.
pub proof fn lemma_semantic_entries_complete(
    threshold: int,
    query: Seq<i16>,
    corpus: Seq<MemoryView>,
    n: int,
    p: int,
)
    requires
        0 <= p < n <= corpus.len() <= usize::MAX,
        corpus[p].embedding is Some,
        above_threshold(threshold, query, corpus[p].embedding->0),
    ensures
        semantic_entries(threshold, query, corpus, n).contains(
            Ranked {
                index: p as usize,
                score: squared_cosine(query, corpus[p].embedding->0) as u128,
            },
        ),
    decreases n,
{
    let all = semantic_entries(threshold, query, corpus, n);
    let rest = semantic_entries(threshold, query, corpus, n - 1);
    let wanted = Ranked {
        index: p as usize,
        score: squared_cosine(query, corpus[p].embedding->0) as u128,
    };
    if p == n - 1 {
        assert(all[all.len() - 1] == wanted);
    } else {
        lemma_semantic_entries_complete(threshold, query, corpus, n - 1, p);
        let k = choose|k: int| 0 <= k < rest.len() && rest[k] == wanted;
        assert(all[k] == wanted);
    }
}

/// What the semantic ranking holds: a corpus position is ranked exactly
/// when its memory has an embedding whose cosine to the query is strictly
/// above the threshold. Each such position is ranked once, with the squared
/// cosine of its embedding, and the ranking goes from the largest squared
/// cosine to the smallest, equal ones by position. A memory without an
/// embedding is never ranked.
pub proof fn lemma_semantic_ranking_members(
    threshold: int,
    query: Seq<i16>,
    corpus: Seq<MemoryView>,
)
    requires
        corpus.len() <= usize::MAX,
    ensures
        forall|p: int|
            0 <= p < corpus.len() ==> (crate::ranking::positions(
                semantic_ranking(threshold, query, corpus),
            ).contains(p as usize) <==> (#[trigger] corpus[p]).embedding is Some
                && above_threshold(threshold, query, corpus[p].embedding->0)),
        forall|k: int|
            0 <= k < semantic_ranking(threshold, query, corpus).len() ==> {
                let entry = #[trigger] semantic_ranking(threshold, query, corpus)[k];
                &&& entry.index < corpus.len()
                &&& corpus[entry.index as int].embedding is Some
                &&& entry.score == squared_cosine(query, corpus[entry.index as int].embedding->0)
            },
        crate::ranking::distinct_positions(semantic_ranking(threshold, query, corpus)),
        vstd::relations::sorted_by(
            semantic_ranking(threshold, query, corpus),
            crate::ranking::rank_order(),
        ),
{
    let n = corpus.len() as int;
    let entries = semantic_entries(threshold, query, corpus, n);
    let ranking = semantic_ranking(threshold, query, corpus);
    let places = crate::ranking::positions(ranking);
    lemma_semantic_entries_strict(threshold, query, corpus, n);
    crate::ranking::lemma_rank_order_keeps_entries(entries);
    crate::ranking::lemma_rank_order_keeps_distinct(entries);
    assert forall|k: int| 0 <= k < ranking.len() implies {
        let entry = #[trigger] ranking[k];
        &&& entry.index < corpus.len()
        &&& corpus[entry.index as int].embedding is Some
        &&& above_threshold(threshold, query, corpus[entry.index as int].embedding->0)
        &&& entry.score == squared_cosine(query, corpus[entry.index as int].embedding->0)
    } by {
        let entry = ranking[k];
        assert(ranking.contains(entry));
        assert(entries.contains(entry));
        let i = choose|i: int| 0 <= i < entries.len() && entries[i] == entry;
        assert(entries[i] == entry);
    }
    assert forall|p: int| 0 <= p < corpus.len() implies (places.contains(p as usize) <==> (
    #[trigger] corpus[p]).embedding is Some && above_threshold(
        threshold,
        query,
        corpus[p].embedding->0,
    )) by {
        if corpus[p].embedding is Some && above_threshold(
            threshold,
            query,
            corpus[p].embedding->0,
        ) {
            lemma_semantic_entries_complete(threshold, query, corpus, n, p);
            let wanted = Ranked {
                index: p as usize,
                score: squared_cosine(query, corpus[p].embedding->0) as u128,
            };
            assert(ranking.contains(wanted));
            let k = choose|k: int| 0 <= k < ranking.len() && ranking[k] == wanted;
            assert(places[k] == p as usize);
        }
        if places.contains(p as usize) {
            let k = choose|k: int| 0 <= k < places.len() && places[k] == p as usize;
            assert(ranking[k].index == p as usize);
        }
    }
}

/// The threshold is strict: a pair of vectors whose cosine is exactly the
/// threshold, or less, is not above it. With the documented threshold of
/// 0.3 that is every pair with `100 * (a.b)^2 <= 9 * |a|^2 * |b|^2`.
pub proof fn lemma_threshold_is_strict(threshold: int, a: Seq<i16>, b: Seq<i16>)
    requires
        THRESHOLD_UNIT * THRESHOLD_UNIT * (dot(a, b) * dot(a, b)) <= threshold * threshold * (dot(
            a,
            a,
        ) * dot(b, b)) || (threshold == crate::policy::SIMILARITY_THRESHOLD && 100 * (dot(a, b)
            * dot(a, b)) <= 9 * (dot(a, a) * dot(b, b))),
    ensures
        !above_threshold(threshold, a, b),
{
    let d = dot(a, b) * dot(a, b);
    let n = dot(a, a) * dot(b, b);
    if threshold == crate::policy::SIMILARITY_THRESHOLD && 100 * d <= 9 * n {
        assert(1_000_000 * 1_000_000 * d <= 300_000 * 300_000 * n) by (nonlinear_arith)
            requires
                100 * d <= 9 * n,
        ;
    }
}

/// A corpus in which no embedding is above the threshold has an empty
/// semantic ranking, even if it holds a single memory exactly at the threshold.
pub proof fn lemma_nothing_above_threshold(
    threshold: int,
    query: Seq<i16>,
    corpus: Seq<MemoryView>,
)
    requires
        corpus.len() <= usize::MAX,
        forall|i: int|
            0 <= i < corpus.len() ==> match (#[trigger] corpus[i]).embedding {
                Some(e) => !above_threshold(threshold, query, e),
                None => true,
            },
    ensures
        semantic_ranking(threshold, query, corpus).len() == 0,
{
    let entries = semantic_entries(threshold, query, corpus, corpus.len() as int);
    lemma_semantic_entries_strict(threshold, query, corpus, corpus.len() as int);
    if entries.len() > 0 {
        let e = entries[0];
        assert(corpus[e.index as int].embedding is Some);
    }
    crate::ranking::lemma_rank_order_keeps_entries(entries);
}

/// Ranks the memories that have an embedding by similarity to the query.
///
/// Memories without an embedding, or whose embedding cannot be compared with
/// the query, are skipped. Only similarities strictly above the threshold,
/// given in millionths, are kept.
pub fn vector_search(query: &Embedding, memories: &Vec<MemoryRecord>, threshold: u32) -> (ranked:
    Vec<Ranked>)
    requires
        threshold <= THRESHOLD_UNIT,
    ensures
        ranked@ == semantic_ranking(
            threshold as int,
            query@,
            crate::memory::views(memories@),
        ),
{
    let ghost corpus = crate::memory::views(memories@);
    let mut entries: Vec<Ranked> = Vec::new();
    let mut i: usize = 0;
    while i < memories.len()
        invariant
            i <= memories.len(),
            threshold <= THRESHOLD_UNIT,
            corpus == crate::memory::views(memories@),
            entries@ == semantic_entries(threshold as int, query@, corpus, i as int),
        decreases memories.len() - i,
    {
        proof {
            assert(corpus[i as int] == memories@[i as int]@);
        }
        match &memories[i].embedding {
            Some(e) => {
                let (above, key) = similarity(query, e, threshold);
                if above {
                    entries.push(Ranked { index: i, score: key });
                }
            },
            None => {},
        }
        i = i + 1;
    }
    sort_ranked(&entries)
}

} // verus!
