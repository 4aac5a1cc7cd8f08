use conch_core::fixed::SCALE;
use conch_core::memory::{as_slices, texts_of, Episode, Fact, MemoryKind, MemoryRecord};
use conch_core::store::{MemoryStats, MemoryStore, StoreError};

const NOW: i64 = 1_900_000_000;

fn populated() -> MemoryStore {
    let mut store = MemoryStore::open_in_memory();
    store.remember_fact("Jared", "owns", "cafe", Some(&vec![1, 0]), NOW - 300).unwrap();
    store.remember_episode("Jared opened the cafe downtown", None, NOW - 200).unwrap();
    store.remember_fact("Ann", "likes", "tea", None, NOW - 100).unwrap();
    store.remember_fact("Jared", "likes", "coffee", Some(&vec![0, 1]), NOW).unwrap();
    store
}

fn ids(store: &MemoryStore) -> Vec<i64> {
    store.memories().iter().map(|m| m.id).collect()
}

#[test]
fn new_memories_start_at_full_strength() {
    let mut store = MemoryStore::open_in_memory();
    assert_eq!(store.len(), 0);
    let id = store.remember_fact("Jared", "owns", "cafe", Some(&vec![3, 4]), NOW).unwrap();
    assert_eq!(id, 1);
    let m = store.get_memory(id).unwrap();
    assert_eq!(m.id, 1);
    assert_eq!(m.strength, SCALE);
    assert_eq!(m.access_count, 0);
    assert_eq!(m.created_at, NOW);
    assert_eq!(m.last_accessed_at, NOW);
    assert_eq!(m.embedding, Some(vec![3, 4]));
    match m.kind {
        MemoryKind::Fact(f) => {
            assert_eq!(f.subject, "Jared");
            assert_eq!(f.relation, "owns");
            assert_eq!(f.object, "cafe");
        },
        MemoryKind::Episode(_) => panic!("expected a fact"),
    }
    let id = store.remember_episode("a walk", None, NOW + 1).unwrap();
    assert_eq!(id, 2);
    let m = store.get_memory(id).unwrap();
    assert_eq!(m.embedding, None);
    match m.kind {
        MemoryKind::Episode(e) => assert_eq!(e.text, "a walk"),
        MemoryKind::Fact(_) => panic!("expected an episode"),
    }
    assert!(store.get_memory(3).is_none());
    assert!(store.get_memory(0).is_none());
}

#[test]
fn text_projection() {
    let store = populated();
    assert_eq!(
        store.texts(),
        vec![
            "Jared owns cafe".to_string(),
            "Jared opened the cafe downtown".to_string(),
            "Ann likes tea".to_string(),
            "Jared likes coffee".to_string(),
        ]
    );
    assert_eq!(store.get_memory(1).unwrap().text_for_embedding(), "Jared owns cafe");
    let empty = MemoryRecord {
        id: 1,
        kind: MemoryKind::Fact(Fact {
            subject: String::new(),
            relation: String::new(),
            object: String::new(),
        }),
        strength: 0,
        embedding: None,
        created_at: 0,
        last_accessed_at: 0,
        access_count: 0,
    };
    assert_eq!(empty.text_for_embedding(), "  ");
}

#[test]
fn touch_writes_strength_time_and_count_together() {
    let mut store = populated();
    assert!(store.touch_memory_with_strength(2, 123_456_789, NOW + 50));
    let m = store.get_memory(2).unwrap();
    assert_eq!(m.strength, 123_456_789);
    assert_eq!(m.last_accessed_at, NOW + 50);
    assert_eq!(m.access_count, 1);
    assert_eq!(m.created_at, NOW - 200);
    assert!(store.touch_memory_with_strength(2, SCALE, NOW + 60));
    assert_eq!(store.get_memory(2).unwrap().access_count, 2);
    // The others are untouched.
    assert_eq!(store.get_memory(1).unwrap().access_count, 0);
    assert_eq!(store.get_memory(1).unwrap().strength, SCALE);
    // An unknown id changes nothing.
    assert!(!store.touch_memory_with_strength(99, 0, NOW));
    assert_eq!(store.len(), 4);
}

#[test]
fn access_count_stops_at_the_largest_value() {
    let record = MemoryRecord {
        id: 5,
        kind: MemoryKind::Episode(Episode { text: "x".to_string() }),
        strength: SCALE,
        embedding: None,
        created_at: 0,
        last_accessed_at: 0,
        access_count: i64::MAX,
    };
    let mut store = MemoryStore::from_records(vec![record], 6).unwrap();
    assert!(store.touch_memory_with_strength(5, SCALE, 1));
    assert_eq!(store.get_memory(5).unwrap().access_count, i64::MAX);
}

#[test]
fn strength_and_embedding_updates() {
    let mut store = populated();
    assert!(store.update_strength(3, 42));
    assert_eq!(store.get_memory(3).unwrap().strength, 42);
    assert_eq!(store.get_memory(3).unwrap().access_count, 0);
    assert!(!store.update_strength(30, 42));
    assert!(store.update_embedding(3, &vec![7, 8, 9]));
    assert_eq!(store.get_memory(3).unwrap().embedding, Some(vec![7, 8, 9]));
    assert!(store.update_embedding(1, &vec![5]));
    assert_eq!(store.get_memory(1).unwrap().embedding, Some(vec![5]));
    assert!(!store.update_embedding(0, &vec![1]));
}

#[test]
fn forgetting_by_subject() {
    let mut store = populated();
    assert_eq!(store.forget_by_subject("Jared"), 2);
    assert_eq!(ids(&store), vec![2, 3]);
    assert_eq!(store.forget_by_subject("Jared"), 0);
    // The match is exact, and episodes are never matched.
    assert_eq!(store.forget_by_subject("ann"), 0);
    assert_eq!(store.forget_by_subject("Jared opened the cafe downtown"), 0);
    assert_eq!(store.forget_by_subject("Ann"), 1);
    assert_eq!(ids(&store), vec![2]);
}

#[test]
fn forgetting_by_id() {
    let mut store = populated();
    assert_eq!(store.forget_by_id(2), 1);
    assert_eq!(ids(&store), vec![1, 3, 4]);
    assert_eq!(store.forget_by_id(2), 0);
    assert_eq!(store.forget_by_id(-1), 0);
    assert_eq!(store.forget_by_id(4), 1);
    assert_eq!(store.forget_by_id(1), 1);
    assert_eq!(ids(&store), vec![3]);
    // Ids are never reused.
    assert_eq!(store.remember_episode("later", None, NOW).unwrap(), 5);
}

#[test]
fn forgetting_by_age() {
    let mut store = populated();
    assert_eq!(store.forget_older_than(1_000, NOW), 0);
    // Created exactly `secs` ago is not older.
    assert_eq!(store.forget_older_than(200, NOW), 1);
    assert_eq!(ids(&store), vec![2, 3, 4]);
    assert_eq!(store.forget_older_than(0, NOW), 2);
    assert_eq!(ids(&store), vec![4]);
    assert_eq!(store.forget_older_than(i64::MIN, i64::MAX), 1);
    assert_eq!(store.len(), 0);
}

#[test]
fn statistics() {
    let store = populated();
    assert_eq!(
        store.stats(),
        MemoryStats { total_memories: 4, total_facts: 3, total_episodes: 1, with_embedding: 2 }
    );
    assert_eq!(
        MemoryStore::open_in_memory().stats(),
        MemoryStats { total_memories: 0, total_facts: 0, total_episodes: 0, with_embedding: 0 }
    );
}

#[test]
fn memories_missing_embeddings() {
    let store = populated();
    let missing: Vec<i64> = store.memories_missing_embeddings().iter().map(|m| m.id).collect();
    assert_eq!(missing, vec![2, 3]);
}

#[test]
fn import_keeps_history_and_clamps() {
    let mut store = populated();
    let record = MemoryRecord {
        id: 77,
        kind: MemoryKind::Episode(Episode { text: "old".to_string() }),
        strength: 3 * SCALE,
        embedding: Some(vec![9]),
        created_at: 10,
        last_accessed_at: 20,
        access_count: -5,
    };
    let id = store.import_record(&record).unwrap();
    assert_eq!(id, 5);
    let m = store.get_memory(5).unwrap();
    assert_eq!(m.strength, SCALE);
    assert_eq!(m.access_count, 0);
    assert_eq!(m.created_at, 10);
    assert_eq!(m.last_accessed_at, 20);
    assert_eq!(m.embedding, Some(vec![9]));
    let kept = MemoryRecord { strength: 1, access_count: 12, ..record };
    store.import_record(&kept).unwrap();
    let m = store.get_memory(6).unwrap();
    assert_eq!(m.strength, 1);
    assert_eq!(m.access_count, 12);
}

#[test]
fn the_store_can_run_out_of_ids() {
    let mut store = MemoryStore::from_records(vec![], i64::MAX - 1).unwrap();
    assert_eq!(store.remember_episode("last", None, NOW), Ok(i64::MAX - 1));
    assert_eq!(store.remember_episode("one too many", None, NOW), Err(StoreError::IdsExhausted));
    assert_eq!(
        store.remember_fact("a", "b", "c", None, NOW),
        Err(StoreError::IdsExhausted)
    );
    assert_eq!(store.len(), 1);
    assert_eq!(StoreError::IdsExhausted.message(), "no memory ids left");
}

#[test]
fn restoring_a_store_checks_the_records() {
    let record = |id: i64, strength: u64, access_count: i64| MemoryRecord {
        id,
        kind: MemoryKind::Episode(Episode { text: "x".to_string() }),
        strength,
        embedding: None,
        created_at: 0,
        last_accessed_at: 0,
        access_count,
    };
    assert!(MemoryStore::from_records(vec![], 1).is_some());
    assert!(MemoryStore::from_records(vec![], 0).is_none());
    assert!(MemoryStore::from_records(vec![record(1, SCALE, 0), record(4, 0, 9)], 5).is_some());
    // Ids must grow, stay positive and stay below the next id.
    assert!(MemoryStore::from_records(vec![record(4, 0, 0), record(1, 0, 0)], 5).is_none());
    assert!(MemoryStore::from_records(vec![record(2, 0, 0), record(2, 0, 0)], 5).is_none());
    assert!(MemoryStore::from_records(vec![record(0, 0, 0)], 5).is_none());
    assert!(MemoryStore::from_records(vec![record(5, 0, 0)], 5).is_none());
    // Strength and access count must be in range.
    assert!(MemoryStore::from_records(vec![record(1, SCALE + 1, 0)], 5).is_none());
    assert!(MemoryStore::from_records(vec![record(1, SCALE, -1)], 5).is_none());
    let store = MemoryStore::from_records(vec![record(3, 7, 2)], 10).unwrap();
    assert_eq!(store.len(), 1);
    assert_eq!(store.get_memory(3).unwrap().strength, 7);
}

#[test]
fn texts_of_a_batch_of_memories() {
    let store = populated();
    let missing = store.memories_missing_embeddings();
    let texts = texts_of(&missing);
    assert_eq!(
        texts,
        vec!["Jared opened the cafe downtown".to_string(), "Ann likes tea".to_string()]
    );
    assert_eq!(as_slices(&texts), vec!["Jared opened the cafe downtown", "Ann likes tea"]);
    assert_eq!(texts_of(&vec![]), Vec::<String>::new());
    assert_eq!(as_slices(&vec![]), Vec::<&str>::new());
}

#[test]
fn a_memory_is_never_accessed_before_it_was_created() {
    let mut store = populated();
    // Created at NOW - 200: a touch before that counts as one at the creation.
    assert!(store.touch_memory_with_strength(2, 5, NOW - 500));
    let m = store.get_memory(2).unwrap();
    assert_eq!(m.strength, 5);
    assert_eq!(m.created_at, NOW - 200);
    assert_eq!(m.last_accessed_at, NOW - 200);
    assert_eq!(m.access_count, 1);
    // An imported last access before the creation is taken as the creation.
    let record = MemoryRecord {
        id: 0,
        kind: MemoryKind::Episode(Episode { text: "odd".to_string() }),
        strength: SCALE,
        embedding: None,
        created_at: 100,
        last_accessed_at: 40,
        access_count: 0,
    };
    let id = store.import_record(&record).unwrap();
    let m = store.get_memory(id).unwrap();
    assert_eq!(m.created_at, 100);
    assert_eq!(m.last_accessed_at, 100);
    // Kept records that break the order are not taken.
    let broken = MemoryRecord { id: 1, ..record };
    assert!(MemoryStore::from_records(vec![broken], 2).is_none());
}
