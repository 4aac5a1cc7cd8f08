use conch_core::embed::{EmbedError, Embedder};
use conch_core::fixed::SCALE;
use conch_core::memory::{Embedding, Episode, Fact, MemoryKind, MemoryRecord};
use conch_core::policy::Policy;
use conch_core::ranking::Ranked;
use conch_core::recall::{rank_candidates, recall, recall_at, RecallError};
use conch_core::store::MemoryStore;

const DAY: i64 = 86_400;
const NOW: i64 = 1_900_000_000;

struct MockEmbedder;

impl Embedder for MockEmbedder {
    fn embed(&self, texts: &[&str]) -> Result<Vec<Embedding>, EmbedError> {
        Ok(texts
            .iter()
            .map(|t| if t.contains("alpha") { vec![i16::MAX, 0] } else { vec![0, i16::MAX] })
            .collect())
    }

    fn dimension(&self) -> usize {
        2
    }
}

struct FailingEmbedder;

impl Embedder for FailingEmbedder {
    fn embed(&self, _texts: &[&str]) -> Result<Vec<Embedding>, EmbedError> {
        Err(EmbedError::Other("model not loaded".to_string()))
    }

    fn dimension(&self) -> usize {
        2
    }
}

/// The lexical ranking of the corpus: Okapi BM25 with b = 0.5.
fn lexical(store: &MemoryStore, query: &str) -> Vec<usize> {
    let texts = store.texts();
    let documents: Vec<bm25::Document<usize>> = texts
        .iter()
        .enumerate()
        .map(|(i, text)| bm25::Document { id: i, contents: text.clone() })
        .collect();
    let engine: bm25::SearchEngine<usize> =
        bm25::SearchEngineBuilder::with_documents(bm25::Language::English, documents)
            .b(0.5)
            .build();
    engine.search(query, texts.len()).into_iter().map(|r| r.document.id).collect()
}

fn episode(text: &str, strength: u64, created_at: i64, last_accessed_at: i64) -> MemoryRecord {
    MemoryRecord {
        id: 0,
        kind: MemoryKind::Episode(Episode { text: text.to_string() }),
        strength,
        embedding: Some(vec![i16::MAX, 0]),
        created_at,
        last_accessed_at,
        access_count: 0,
    }
}

#[test]
fn recall_touch_applies_decay_then_reinforcement() {
    let mut store = MemoryStore::open_in_memory();
    let now = chrono::Utc::now().timestamp();
    let old_time = now - 30 * DAY;
    // Stored thirty days ago at full strength and not recalled since.
    let id = store
        .remember_episode("alpha memory to recall", Some(&vec![i16::MAX, 0]), old_time)
        .unwrap();

    let ranking = lexical(&store, "alpha");
    let results = recall(&Policy::default(), &mut store, "alpha", &MockEmbedder, &ranking, 1, now).unwrap();
    assert_eq!(results.len(), 1);

    let after = store.get_memory(id).unwrap();
    assert!(after.access_count >= 1);
    // Should have decayed meaningfully from 1.0 before reinforcement.
    assert!(after.strength < SCALE);
    // But reinforcement should keep it above a tiny decayed floor.
    assert!(after.strength > SCALE / 5);
}

#[test]
fn recall_on_an_empty_corpus() {
    let mut store = MemoryStore::open_in_memory();
    let results = recall(&Policy::default(), &mut store, "anything", &MockEmbedder, &vec![], 5, NOW).unwrap();
    assert!(results.is_empty());
    // Not even a failing embedder makes it an error.
    let results = recall(&Policy::default(), &mut store, "anything", &FailingEmbedder, &vec![0, 1], 5, NOW).unwrap();
    assert!(results.is_empty());
    assert_eq!(store.len(), 0);
}

#[test]
fn recall_with_limit_zero_writes_nothing() {
    let mut store = MemoryStore::open_in_memory();
    let id = store.remember_episode("alpha note", Some(&vec![i16::MAX, 0]), NOW - DAY).unwrap();
    let ranking = lexical(&store, "alpha");
    let results = recall(&Policy::default(), &mut store, "alpha", &MockEmbedder, &ranking, 0, NOW).unwrap();
    assert!(results.is_empty());
    let after = store.get_memory(id).unwrap();
    assert_eq!(after.access_count, 0);
    assert_eq!(after.strength, SCALE);
    assert_eq!(after.last_accessed_at, NOW - DAY);
}

#[test]
fn recall_fails_when_the_query_cannot_be_embedded() {
    let mut store = MemoryStore::open_in_memory();
    let id = store.remember_episode("alpha note", None, NOW).unwrap();
    let r = recall(&Policy::default(), &mut store, "alpha", &FailingEmbedder, &vec![0], 5, NOW);
    match r {
        Err(RecallError::Embedding(m)) => assert_eq!(m, "model not loaded"),
        _ => panic!("expected an embedding error"),
    }
    assert_eq!(
        RecallError::Embedding("model not loaded".to_string()).message(),
        "embedding error: model not loaded"
    );
    assert_eq!(store.get_memory(id).unwrap().access_count, 0);
}

#[test]
fn end_to_end_fact_and_episode() {
    let mut store = MemoryStore::open_in_memory();
    let now = chrono::Utc::now().timestamp();
    let e = MockEmbedder;
    let fact_vec = e.embed_one("Jared owns cafe").unwrap();
    let episode_vec = e.embed_one("Jared opened the cafe downtown").unwrap();
    store.remember_fact("Jared", "owns", "cafe", Some(&fact_vec), now).unwrap();
    store.remember_episode("Jared opened the cafe downtown", Some(&episode_vec), now).unwrap();

    let ranking = lexical(&store, "cafe");
    let results = recall(&Policy::default(), &mut store, "cafe", &e, &ranking, 5, now).unwrap();
    assert_eq!(results.len(), 2);
    assert!(results.iter().all(|r| r.score > 0));
    let mut ids: Vec<i64> = results.iter().map(|r| r.memory.id).collect();
    ids.sort();
    assert_eq!(ids, vec![1, 2]);
    // Both were reinforced.
    assert_eq!(store.get_memory(1).unwrap().access_count, 1);
    assert_eq!(store.get_memory(2).unwrap().access_count, 1);
}

#[test]
fn lexical_ranking_alone_drives_recall_without_embeddings() {
    let mut store = MemoryStore::open_in_memory();
    store.remember_episode("the cat sat on the mat", None, NOW).unwrap();
    store.remember_episode("dogs chase cats", None, NOW).unwrap();
    store.remember_episode("stock prices fell", None, NOW).unwrap();
    let ranking = lexical(&store, "cat");
    assert!(!ranking.is_empty());
    assert!(!ranking.contains(&2));
    let results = recall_at(&Policy::default(), &mut store, &ranking, &vec![i16::MAX, 0], 5, NOW);
    assert_eq!(results.len(), ranking.len());
    assert!(results.iter().all(|r| r.memory.id != 3));
}

#[test]
fn semantic_ranking_alone_drives_recall_without_lexical_matches() {
    let mut store = MemoryStore::open_in_memory();
    store.remember_episode("first", Some(&vec![i16::MAX, 0]), NOW).unwrap();
    store.remember_episode("second", Some(&vec![0, i16::MAX]), NOW).unwrap();
    let results = recall_at(&Policy::default(), &mut store, &vec![], &vec![0, 100], 5, NOW);
    assert_eq!(results.len(), 1);
    assert_eq!(results[0].memory.id, 2);
    assert_eq!(results[0].score, 16_393_442);
}

#[test]
fn ranking_pipeline_exact_scores() {
    let mut store = MemoryStore::open_in_memory();
    // A fresh episode found by both rankings, and an older one found only lexically.
    store.remember_episode("alpha", Some(&vec![100, 0]), NOW).unwrap();
    store.import_record(&MemoryRecord {
        id: 0,
        kind: MemoryKind::Episode(Episode { text: "beta".to_string() }),
        strength: SCALE,
        embedding: None,
        created_at: NOW - 10 * DAY,
        last_accessed_at: NOW - 10 * DAY,
        access_count: 0,
    })
    .unwrap();
    let ranking = rank_candidates(&Policy::default(), store.memories(), &vec![1, 0], &vec![100, 0], 5, NOW);
    // First: 1/62 + 1/61, all factors one. Second: 1/61 decayed over ten days
    // and ten days old.
    assert_eq!(
        ranking,
        vec![
            Ranked { index: 0, score: 16_129_032 + 16_393_442 },
            Ranked { index: 1, score: 3_861_004 },
        ]
    );
}

#[test]
fn results_are_the_memories_before_reinforcement() {
    let mut store = MemoryStore::open_in_memory();
    store.import_record(&episode("alpha one", 800_000_000, NOW - DAY, NOW - DAY)).unwrap();
    let results = recall_at(&Policy::default(), &mut store, &vec![0], &vec![1, 0], 3, NOW);
    assert_eq!(results.len(), 1);
    assert_eq!(results[0].memory.strength, 800_000_000);
    assert_eq!(results[0].memory.access_count, 0);
    assert_eq!(results[0].memory.last_accessed_at, NOW - DAY);
    let after = store.get_memory(1).unwrap();
    // 0.8 decayed over one day as an episode, plus 0.2.
    assert_eq!(after.strength, 953_415_713);
    assert_eq!(after.access_count, 1);
    assert_eq!(after.last_accessed_at, NOW);
    assert_eq!(after.created_at, NOW - DAY);
}

#[test]
fn limit_cuts_the_ranking() {
    let mut store = MemoryStore::open_in_memory();
    for i in 0..8 {
        store.remember_episode("alpha", Some(&vec![1, 0]), NOW - i * DAY).unwrap();
    }
    let lexical: Vec<usize> = (0..8).collect();
    let results = recall_at(&Policy::default(), &mut store, &lexical, &vec![1, 0], 3, NOW);
    assert_eq!(results.len(), 3);
    let ids: Vec<i64> = results.iter().map(|r| r.memory.id).collect();
    assert_eq!(ids, vec![1, 2, 3]);
    assert!(results[0].score > results[1].score && results[1].score > results[2].score);
    // Only the returned memories were reinforced.
    assert_eq!(store.get_memory(3).unwrap().access_count, 1);
    assert_eq!(store.get_memory(4).unwrap().access_count, 0);
}

#[test]
fn equal_final_scores_are_ordered_by_id() {
    let mut store = MemoryStore::open_in_memory();
    // Created two hours apart, so neither primes the other.
    store.import_record(&episode("a", SCALE, NOW - 100 * DAY, NOW)).unwrap();
    store.import_record(&episode("b", SCALE, NOW - 100 * DAY + 7_200, NOW)).unwrap();
    // One is first lexically, the other first semantically: equal fused scores.
    let mut records = store.all_memories();
    records[0].embedding = None;
    let mut store = MemoryStore::from_records(records, 3).unwrap();
    let results = recall_at(&Policy::default(), &mut store, &vec![0], &vec![1, 0], 5, NOW);
    assert_eq!(results.len(), 2);
    assert_eq!(results[0].score, results[1].score);
    assert_eq!(results[0].memory.id, 1);
    assert_eq!(results[1].memory.id, 2);
}

#[test]
fn spreading_activation_can_be_disabled_by_policy() {
    // Two facts share a subject; the query matches only the first.
    let mut store = MemoryStore::open_in_memory();
    store.remember_fact("Jared", "owns", "cafe", None, NOW).unwrap();
    let other = MemoryRecord {
        id: 0,
        kind: MemoryKind::Fact(Fact {
            subject: "jared".to_string(),
            relation: "likes".to_string(),
            object: "tea".to_string(),
        }),
        strength: SCALE,
        embedding: None,
        created_at: NOW - 10 * DAY,
        last_accessed_at: NOW,
        access_count: 0,
    };
    store.import_record(&other).unwrap();
    let enabled = Policy::default();
    let disabled = Policy { spread_factor: 0, ..Policy::default() };
    // The second fact is listed far behind the first.
    let lexical: Vec<usize> = vec![0, 9, 9, 9, 9, 9, 9, 9, 9, 9, 1];
    let with = rank_candidates(&enabled, store.memories(), &lexical, &vec![], 5, NOW);
    let without = rank_candidates(&disabled, store.memories(), &lexical, &vec![], 5, NOW);
    assert_eq!(with.len(), 2);
    assert_eq!(without.len(), 2);
    assert_eq!(with[1].index, 1);
    assert_eq!(without[1].index, 1);
    assert!(with[1].score > without[1].score);
    // 1/71 at the recency of ten days, plus 0.15 of the first fact's 1/61.
    assert_eq!(without[1].score, 6_044_300);
    assert_eq!(with[1].score, 6_044_300 + 2_459_016);
}

#[test]
fn the_policy_sets_the_number_of_candidates() {
    let mut store = MemoryStore::open_in_memory();
    for i in 0..60 {
        store.remember_episode("note", None, NOW - i * DAY).unwrap();
    }
    let lexical: Vec<usize> = (0..60).collect();
    let all = rank_candidates(&Policy::default(), store.memories(), &lexical, &vec![], 100, NOW);
    assert_eq!(all.len(), 60);
    // With the documented policy a limit of one still looks at fifty candidates.
    let one = rank_candidates(&Policy::default(), store.memories(), &lexical, &vec![], 1, NOW);
    assert_eq!(one.len(), 1);
    let narrow = Policy { candidate_multiplier: 1, min_candidates: 3, ..Policy::default() };
    let few = rank_candidates(&narrow, store.memories(), &lexical, &vec![], 100, NOW);
    assert_eq!(few.len(), 60);
    let few = rank_candidates(&narrow, store.memories(), &lexical, &vec![], 2, NOW);
    assert_eq!(few.len(), 2);
    let none = Policy { candidate_multiplier: 0, min_candidates: 0, ..Policy::default() };
    assert_eq!(rank_candidates(&none, store.memories(), &lexical, &vec![], 2, NOW), vec![]);
}

#[test]
fn recall_over_a_larger_corpus() {
    let mut store = MemoryStore::open_in_memory();
    for i in 0..3_000i64 {
        let text = if i % 7 == 0 { "alpha project notes" } else { "something unrelated" };
        let vector: Vec<i16> = if i % 3 == 0 { vec![1_000, (i % 100) as i16] } else { vec![0, 1_000] };
        store.remember_episode(text, Some(&vector), NOW - i * 3_600).unwrap();
    }
    let ranking = lexical(&store, "alpha");
    assert_eq!(ranking.len(), 429);
    let results = recall_at(&Policy::default(), &mut store, &ranking, &vec![1_000, 0], 20, NOW);
    assert_eq!(results.len(), 20);
    for pair in results.windows(2) {
        assert!(
            pair[0].score > pair[1].score
                || (pair[0].score == pair[1].score && pair[0].memory.id < pair[1].memory.id)
        );
    }
    let touched = store.memories().iter().filter(|m| m.access_count == 1).count();
    assert_eq!(touched, 20);
}

#[test]
fn recall_after_a_sweep_sees_the_true_decay() {
    // An episode left alone for thirty days, swept, and recalled at once:
    // the sweep has not cost it anything beyond the thirty days.
    let mut swept = MemoryStore::open_in_memory();
    swept.remember_episode("alpha", None, NOW - 30 * DAY).unwrap();
    let mut unswept = MemoryStore::open_in_memory();
    unswept.remember_episode("alpha", None, NOW - 30 * DAY).unwrap();
    conch_core::decay::run_decay(&Policy::default(), &mut swept, None, NOW);
    conch_core::decay::run_decay(&Policy::default(), &mut swept, None, NOW);
    assert_eq!(swept.get_memory(1).unwrap().strength, 165_299_745);
    let after_sweeps = recall_at(&Policy::default(), &mut swept, &vec![0], &vec![], 1, NOW);
    let without = recall_at(&Policy::default(), &mut unswept, &vec![0], &vec![], 1, NOW);
    assert_eq!(after_sweeps[0].score, without[0].score);
    assert_eq!(swept.get_memory(1).unwrap().strength, 365_299_745);
    assert_eq!(unswept.get_memory(1).unwrap().strength, 365_299_745);
}

#[test]
fn a_recall_before_the_creation_counts_as_one_at_the_creation() {
    let mut store = MemoryStore::open_in_memory();
    store.remember_episode("alpha", None, NOW).unwrap();
    let results = recall_at(&Policy::default(), &mut store, &vec![0], &vec![], 1, NOW - DAY);
    assert_eq!(results.len(), 1);
    let after = store.get_memory(1).unwrap();
    assert_eq!(after.created_at, NOW);
    assert_eq!(after.last_accessed_at, NOW);
    assert_eq!(after.access_count, 1);
    assert_eq!(after.strength, SCALE);
}
