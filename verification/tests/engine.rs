use conch_core::embed::{single_embedding, EmbedError, Embedder};
use conch_core::fixed::SCALE;
use conch_core::memory::{Embedding, Episode, MemoryKind, MemoryRecord};
use conch_core::policy::Policy;
use conch_core::store::{MemoryStore, StoreError};
use conch_core::{assign_embeddings, parse_memory_id, ConchDB, ConchError, ExportData};

const DAY: i64 = 86_400;
const NOW: i64 = 1_900_000_000;

struct MockEmbedder;

impl Embedder for MockEmbedder {
    fn embed(&self, texts: &[&str]) -> Result<Vec<Embedding>, EmbedError> {
        Ok(texts
            .iter()
            .map(|t| if t.contains("alpha") { vec![i16::MAX, 0] } else { vec![0, i16::MAX] })
            .collect())
    }

    fn dimension(&self) -> usize {
        2
    }
}

struct FailingEmbedder;

impl Embedder for FailingEmbedder {
    fn embed(&self, _texts: &[&str]) -> Result<Vec<Embedding>, EmbedError> {
        Err(EmbedError::Other("model not loaded".to_string()))
    }

    fn dimension(&self) -> usize {
        2
    }
}

/// Returns one vector too few.
struct ShortEmbedder;

impl Embedder for ShortEmbedder {
    fn embed(&self, texts: &[&str]) -> Result<Vec<Embedding>, EmbedError> {
        Ok(texts.iter().skip(1).map(|_| vec![7, 7]).collect())
    }

    fn dimension(&self) -> usize {
        2
    }
}

fn lexical(db: &ConchDB, query: &str) -> Vec<usize> {
    let texts = db.store().texts();
    let documents: Vec<bm25::Document<usize>> = texts
        .iter()
        .enumerate()
        .map(|(i, text)| bm25::Document { id: i, contents: text.clone() })
        .collect();
    let engine: bm25::SearchEngine<usize> =
        bm25::SearchEngineBuilder::with_documents(bm25::Language::English, documents)
            .b(0.5)
            .build();
    engine.search(query, texts.len()).into_iter().map(|r| r.document.id).collect()
}

fn engine() -> ConchDB {
    ConchDB::open_in_memory_with(Box::new(MockEmbedder)).unwrap()
}

fn episode(text: &str, strength: u64, at: i64) -> MemoryRecord {
    MemoryRecord {
        id: 0,
        kind: MemoryKind::Episode(Episode { text: text.to_string() }),
        strength,
        embedding: None,
        created_at: at,
        last_accessed_at: at,
        access_count: 2,
    }
}

fn summary(db: &ConchDB) -> Vec<(String, u64, i64, i64, i64, Option<Vec<i16>>)> {
    db.store()
        .memories()
        .iter()
        .map(|m| {
            (
                m.text_for_embedding(),
                m.strength,
                m.created_at,
                m.last_accessed_at,
                m.access_count,
                m.embedding.clone(),
            )
        })
        .collect()
}

#[test]
fn remembering_embeds_and_stores() {
    let mut db = engine();
    let fact = db.remember_fact("alpha", "is", "first", NOW).unwrap();
    let episode = db.remember_episode("something else", NOW + 7).unwrap();
    assert_eq!(fact.id, 1);
    assert_eq!(fact.strength, SCALE);
    assert_eq!(fact.access_count, 0);
    assert_eq!(fact.embedding, Some(vec![i16::MAX, 0]));
    assert_eq!(fact.created_at, NOW);
    assert_eq!(fact.last_accessed_at, NOW);
    assert_eq!(episode.created_at, NOW + 7);
    assert_eq!(episode.last_accessed_at, NOW + 7);
    assert_eq!(fact.text_for_embedding(), "alpha is first");
    assert_eq!(episode.id, 2);
    assert_eq!(episode.embedding, Some(vec![0, i16::MAX]));
    assert_eq!(db.store().len(), 2);
    assert_eq!(db.stats().unwrap().total_facts, 1);
    assert_eq!(db.stats().unwrap().total_episodes, 1);
    assert_eq!(db.stats().unwrap().with_embedding, 2);
}

#[test]
fn the_fact_text_is_embedded_as_a_whole() {
    // Only the object mentions alpha, so the whole projection must be embedded.
    let mut db = engine();
    let fact = db.remember_fact("Jared", "likes", "alpha", NOW).unwrap();
    assert_eq!(fact.embedding, Some(vec![i16::MAX, 0]));
}

#[test]
fn a_failing_embedder_stores_nothing() {
    let mut db = ConchDB::open_in_memory_with(Box::new(FailingEmbedder)).unwrap();
    match db.remember_fact("a", "b", "c", NOW) {
        Err(ConchError::Embed(EmbedError::Other(m))) => assert_eq!(m, "model not loaded"),
        _ => panic!("expected an embedding error"),
    }
    assert!(matches!(db.remember_episode("text", NOW), Err(ConchError::Embed(_))));
    assert_eq!(db.store().len(), 0);
    assert_eq!(
        ConchError::Embed(EmbedError::Other("model not loaded".to_string())).message(),
        "embedding error: model not loaded"
    );
    assert_eq!(EmbedError::Other("x".to_string()).message(), "x");
}

#[test]
fn a_full_store_is_a_database_error() {
    let store = MemoryStore::from_records(vec![], i64::MAX).unwrap();
    let mut db = ConchDB::with_store(store, Box::new(MockEmbedder));
    assert!(matches!(
        db.remember_episode("no room", NOW),
        Err(ConchError::Db(StoreError::IdsExhausted))
    ));
    assert!(matches!(
        db.remember_fact("no", "room", "left", NOW),
        Err(ConchError::Db(StoreError::IdsExhausted))
    ));
    assert_eq!(
        ConchError::Db(StoreError::IdsExhausted).message(),
        "database error: no memory ids left"
    );
}

#[test]
fn recall_through_the_engine() {
    let mut db = engine();
    db.remember_fact("Jared", "owns", "cafe", NOW).unwrap();
    db.remember_episode("Jared opened the cafe downtown", NOW).unwrap();
    let ranking = lexical(&db, "cafe");
    let results = db.recall("cafe", &ranking, 5, NOW).unwrap();
    assert_eq!(results.len(), 2);
    assert!(results.iter().all(|r| r.score > 0));
    assert!(db.store().memories().iter().all(|m| m.access_count == 1));
    // Nothing is returned for a limit of zero, and nothing is written.
    let results = db.recall("cafe", &ranking, 0, NOW).unwrap();
    assert!(results.is_empty());
    assert!(db.store().memories().iter().all(|m| m.access_count == 1));
}

#[test]
fn recall_errors_are_engine_errors() {
    let mut store = MemoryStore::open_in_memory();
    store.remember_episode("alpha", None, 0).unwrap();
    let mut db = ConchDB::with_store(store, Box::new(FailingEmbedder));
    match db.recall("alpha", &vec![0], 5, NOW) {
        Err(ConchError::Embed(EmbedError::Other(m))) => assert_eq!(m, "model not loaded"),
        _ => panic!("expected an embedding error"),
    }
}

#[test]
fn forgetting_through_the_engine() {
    let mut db = engine();
    db.remember_fact("Jared", "owns", "cafe", NOW).unwrap();
    db.remember_fact("Ann", "likes", "tea", NOW).unwrap();
    db.remember_episode("Jared opened the cafe", NOW).unwrap();
    assert_eq!(db.forget_by_subject("Jared").unwrap(), 1);
    assert_eq!(db.forget_by_id("3").unwrap(), 1);
    assert_eq!(db.forget_by_id("3").unwrap(), 0);
    assert_eq!(db.forget_by_id("three").unwrap(), 0);
    assert_eq!(db.forget_by_id("").unwrap(), 0);
    assert_eq!(db.forget_by_id("-2").unwrap(), 0);
    assert_eq!(db.forget_older_than(3_600, NOW).unwrap(), 0);
    assert_eq!(db.store().len(), 1);
    assert_eq!(db.forget_by_id("0002").unwrap(), 1);
    assert_eq!(db.store().len(), 0);
}

#[test]
fn forgetting_old_memories() {
    let now = chrono::Utc::now().timestamp();
    let mut store = MemoryStore::open_in_memory();
    store.import_record(&episode("old", SCALE, now - 10 * DAY)).unwrap();
    store.import_record(&episode("new", SCALE, now + DAY)).unwrap();
    let mut db = ConchDB::with_store(store, Box::new(MockEmbedder));
    assert_eq!(db.forget_older_than(5 * DAY, now).unwrap(), 1);
    assert_eq!(db.store().texts(), vec!["new".to_string()]);
}

#[test]
fn ids_are_read_from_decimal() {
    assert_eq!(parse_memory_id("0"), Some(0));
    assert_eq!(parse_memory_id("7"), Some(7));
    assert_eq!(parse_memory_id("0042"), Some(42));
    assert_eq!(parse_memory_id("9223372036854775807"), Some(i64::MAX));
    assert_eq!(parse_memory_id("9223372036854775808"), None);
    assert_eq!(parse_memory_id("92233720368547758070"), None);
    assert_eq!(parse_memory_id("99999999999999999999999999"), None);
    assert_eq!(parse_memory_id(""), None);
    assert_eq!(parse_memory_id("-1"), None);
    assert_eq!(parse_memory_id("+1"), None);
    assert_eq!(parse_memory_id(" 1"), None);
    assert_eq!(parse_memory_id("1 "), None);
    assert_eq!(parse_memory_id("12a"), None);
    assert_eq!(parse_memory_id("١٢"), None);
}

#[test]
fn decay_through_the_engine() {
    let now = chrono::Utc::now().timestamp();
    let mut store = MemoryStore::open_in_memory();
    store.import_record(&episode("faded", SCALE, now - 365 * DAY)).unwrap();
    store.import_record(&episode("fresh", SCALE, now + DAY)).unwrap();
    let mut db = ConchDB::with_store(store, Box::new(MockEmbedder));
    let result = db.decay(now).unwrap();
    assert_eq!(result.scanned, 2);
    assert_eq!(result.pruned, 1);
    assert_eq!(result.rewritten, 0);
    assert_eq!(db.store().texts(), vec!["fresh".to_string()]);
}

#[test]
fn embed_all_fills_in_what_is_missing() {
    let mut store = MemoryStore::open_in_memory();
    store.remember_episode("alpha one", None, 0).unwrap();
    store.remember_episode("kept", Some(&vec![5, 5]), 0).unwrap();
    store.remember_fact("beta", "is", "two", None, 0).unwrap();
    let mut db = ConchDB::with_store(store, Box::new(MockEmbedder));
    assert_eq!(db.embed_all().unwrap(), 2);
    let embeddings: Vec<Option<Vec<i16>>> =
        db.store().memories().iter().map(|m| m.embedding.clone()).collect();
    assert_eq!(
        embeddings,
        vec![Some(vec![i16::MAX, 0]), Some(vec![5, 5]), Some(vec![0, i16::MAX])]
    );
    assert_eq!(db.embed_all().unwrap(), 0);
}

#[test]
fn embed_all_with_a_failing_embedder() {
    let mut store = MemoryStore::open_in_memory();
    store.remember_episode("alpha one", None, 0).unwrap();
    let mut db = ConchDB::with_store(store, Box::new(FailingEmbedder));
    assert!(matches!(db.embed_all(), Err(ConchError::Embed(_))));
    assert_eq!(db.store().get_memory(1).unwrap().embedding, None);
    // With nothing missing the embedder is not consulted.
    let mut db = ConchDB::open_in_memory_with(Box::new(FailingEmbedder)).unwrap();
    assert_eq!(db.embed_all().unwrap(), 0);
}

#[test]
fn embed_all_pairs_by_position() {
    let mut store = MemoryStore::open_in_memory();
    store.remember_episode("one", None, 0).unwrap();
    store.remember_episode("two", None, 0).unwrap();
    let mut db = ConchDB::with_store(store, Box::new(ShortEmbedder));
    assert_eq!(db.embed_all().unwrap(), 2);
    assert_eq!(db.store().get_memory(1).unwrap().embedding, Some(vec![7, 7]));
    assert_eq!(db.store().get_memory(2).unwrap().embedding, None);
}

#[test]
fn assigning_embeddings_by_position() {
    let mut store = MemoryStore::open_in_memory();
    store.remember_episode("one", None, 0).unwrap();
    store.remember_episode("two", None, 0).unwrap();
    let missing = store.memories_missing_embeddings();
    assign_embeddings(&mut store, &missing, &vec![vec![1], vec![2], vec![3]]);
    assert_eq!(store.get_memory(1).unwrap().embedding, Some(vec![1]));
    assert_eq!(store.get_memory(2).unwrap().embedding, Some(vec![2]));
}

#[test]
fn the_embedder_must_return_one_vector_for_one_text() {
    assert_eq!(MockEmbedder.embed_one("alpha").unwrap(), vec![i16::MAX, 0]);
    assert!(matches!(ShortEmbedder.embed_one("alpha"), Err(EmbedError::Other(_))));
    assert!(matches!(FailingEmbedder.embed_one("alpha"), Err(EmbedError::Other(_))));
}

#[test]
fn export_then_import_round_trip() {
    let now = chrono::Utc::now().timestamp();
    let mut store = MemoryStore::open_in_memory();
    store.import_record(&episode("alpha first", 900_000_000, now - 3 * DAY)).unwrap();
    store.remember_fact("Jared", "owns", "alpha", Some(&vec![i16::MAX, 0]), now - DAY).unwrap();
    store.import_record(&episode("alpha third", 400_000_000, now - 2 * DAY)).unwrap();
    store.forget_by_id(1);
    store.import_record(&episode("alpha fourth", 100_000_000, now - DAY)).unwrap();
    let mut source = ConchDB::with_store(store, Box::new(MockEmbedder));
    source.embed_all().unwrap();

    let data = source.export().unwrap();
    assert_eq!(data.memories.len(), 3);
    let mut copy = engine();
    assert_eq!(copy.import(&data).unwrap(), 3);

    // Content and metadata are preserved; ids are assigned anew.
    assert_eq!(summary(&copy), summary(&source));
    let source_ids: Vec<i64> = source.store().memories().iter().map(|m| m.id).collect();
    let copy_ids: Vec<i64> = copy.store().memories().iter().map(|m| m.id).collect();
    assert_eq!(source_ids, vec![2, 3, 4]);
    assert_eq!(copy_ids, vec![1, 2, 3]);

    // A fixed query ranks both corpora alike.
    let ranking = lexical(&source, "alpha");
    let mut matched = ranking.clone();
    matched.sort();
    let mut matched_in_copy = lexical(&copy, "alpha");
    matched_in_copy.sort();
    assert_eq!(matched, matched_in_copy);
    let query = MockEmbedder.embed_one("alpha").unwrap();
    let policy = Policy::default();
    let from_source = conch_core::recall::rank_candidates(
        &policy, source.store().memories(), &ranking, &query, 5, now);
    let from_copy = conch_core::recall::rank_candidates(
        &policy, copy.store().memories(), &ranking, &query, 5, now);
    assert_eq!(from_source, from_copy);
    assert_eq!(from_source.len(), 3);
}

#[test]
fn import_appends_to_what_is_there() {
    let mut db = engine();
    db.remember_episode("already here", NOW).unwrap();
    let data = ExportData { memories: vec![episode("a", 5 * SCALE, 10), episode("b", 7, 20)] };
    assert_eq!(db.import(&data).unwrap(), 2);
    let stored: Vec<(i64, u64)> = db.store().memories().iter().map(|m| (m.id, m.strength)).collect();
    assert_eq!(stored, vec![(1, SCALE), (2, SCALE), (3, 7)]);
    assert_eq!(db.import(&ExportData { memories: vec![] }).unwrap(), 0);
}

#[test]
fn import_stops_when_ids_run_out() {
    let store = MemoryStore::from_records(vec![], i64::MAX - 1).unwrap();
    let mut db = ConchDB::with_store(store, Box::new(MockEmbedder));
    let data = ExportData { memories: vec![episode("a", 1, 0), episode("b", 2, 0)] };
    assert!(matches!(db.import(&data), Err(ConchError::Db(StoreError::IdsExhausted))));
    // What was imported before the failure stays.
    assert_eq!(db.store().texts(), vec!["a".to_string()]);
}

#[test]
fn the_engine_is_built_with_a_policy() {
    let db = engine();
    assert_eq!(db.current_policy(), Policy::default());
    let gentle = Policy { episode_touch_boost: 50_000_000, prune_floor: 0, ..Policy::default() };
    let db = db.with_policy(gentle);
    assert_eq!(db.current_policy(), gentle);
    // An unusable policy is not taken.
    let db = db.with_policy(Policy { rrf_k: 0, ..Policy::default() });
    assert_eq!(db.current_policy(), gentle);

    let now = chrono::Utc::now().timestamp();
    let mut store = MemoryStore::open_in_memory();
    store.import_record(&episode("alpha", 1, now + DAY)).unwrap();
    let mut db = ConchDB::with_store(store, Box::new(MockEmbedder)).with_policy(gentle);
    // With a floor of zero the weakest memory survives a sweep.
    assert_eq!(db.decay(now).unwrap().pruned, 0);
    let results = db.recall("alpha", &vec![0], 1, now).unwrap();
    assert_eq!(results.len(), 1);
    assert_eq!(db.store().get_memory(1).unwrap().strength, 50_000_001);
}

#[test]
fn one_vector_is_taken_out_of_a_batch_of_one() {
    assert_eq!(single_embedding(Ok(vec![vec![3, -4, 5]])).unwrap(), vec![3, -4, 5]);
    assert_eq!(single_embedding(Ok(vec![vec![]])).unwrap(), Vec::<i16>::new());
    // An answer with no vector, or with more than one, is a failure.
    match single_embedding(Ok(vec![])) {
        Err(EmbedError::Other(m)) => assert_eq!(m, "embedder returned the wrong number of vectors"),
        Ok(_) => panic!("expected a failure"),
    }
    match single_embedding(Ok(vec![vec![1], vec![2]])) {
        Err(EmbedError::Other(m)) => assert_eq!(m, "embedder returned the wrong number of vectors"),
        Ok(_) => panic!("expected a failure"),
    }
    // The provider's own failure is passed on as it is.
    match single_embedding(Err(EmbedError::Other("model not loaded".to_string()))) {
        Err(EmbedError::Other(m)) => assert_eq!(m, "model not loaded"),
        Ok(_) => panic!("expected a failure"),
    }
}

#[test]
fn embed_one_asks_for_a_batch_of_that_one_text() {
    // The answer depends on the text that was handed on.
    assert_eq!(MockEmbedder.embed_one("alpha").unwrap(), vec![i16::MAX, 0]);
    assert_eq!(MockEmbedder.embed_one("beta").unwrap(), vec![0, i16::MAX]);
    match FailingEmbedder.embed_one("alpha") {
        Err(EmbedError::Other(m)) => assert_eq!(m, "model not loaded"),
        Ok(_) => panic!("expected a failure"),
    }
    match ShortEmbedder.embed_one("alpha") {
        Err(EmbedError::Other(m)) => assert_eq!(m, "embedder returned the wrong number of vectors"),
        Ok(_) => panic!("expected a failure"),
    }
}

/// Records the batches it is asked for.
struct RecordingEmbedder {
    seen: std::sync::Mutex<Vec<Vec<String>>>,
}

impl Embedder for RecordingEmbedder {
    fn embed(&self, texts: &[&str]) -> Result<Vec<Embedding>, EmbedError> {
        self.seen.lock().unwrap().push(texts.iter().map(|t| t.to_string()).collect());
        Ok(texts.iter().map(|t| vec![t.len() as i16]).collect())
    }

    fn dimension(&self) -> usize {
        1
    }
}

#[test]
fn embed_all_hands_over_the_texts_of_what_is_missing_once() {
    let recorder = std::sync::Arc::new(RecordingEmbedder { seen: std::sync::Mutex::new(vec![]) });
    struct Shared(std::sync::Arc<RecordingEmbedder>);
    impl Embedder for Shared {
        fn embed(&self, texts: &[&str]) -> Result<Vec<Embedding>, EmbedError> {
            self.0.embed(texts)
        }
        fn dimension(&self) -> usize {
            self.0.dimension()
        }
    }
    let mut store = MemoryStore::open_in_memory();
    store.remember_fact("Jared", "owns", "cafe", None, 0).unwrap();
    store.remember_episode("kept", Some(&vec![5]), 0).unwrap();
    store.remember_episode("a walk", None, 0).unwrap();
    let mut db = ConchDB::with_store(store, Box::new(Shared(recorder.clone())));
    assert_eq!(db.embed_all().unwrap(), 2);
    assert_eq!(
        *recorder.seen.lock().unwrap(),
        vec![vec!["Jared owns cafe".to_string(), "a walk".to_string()]]
    );
    let embeddings: Vec<Option<Vec<i16>>> =
        db.store().memories().iter().map(|m| m.embedding.clone()).collect();
    assert_eq!(embeddings, vec![Some(vec![15]), Some(vec![5]), Some(vec![6])]);
    // A second call finds nothing missing and does not consult the provider.
    assert_eq!(db.embed_all().unwrap(), 0);
    assert_eq!(recorder.seen.lock().unwrap().len(), 1);
}

#[test]
fn embed_all_on_an_empty_engine() {
    let mut db = ConchDB::open_in_memory_with(Box::new(FailingEmbedder)).unwrap();
    assert_eq!(db.embed_all().unwrap(), 0);
    assert_eq!(db.store().len(), 0);
}
