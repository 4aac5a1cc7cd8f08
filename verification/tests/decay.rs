use conch_core::decay::{run_decay, DecayResult};
use conch_core::policy::{Policy, DEFAULT_PRUNE_FLOOR};
use conch_core::fixed::SCALE;
use conch_core::memory::{Episode, Fact, MemoryKind, MemoryRecord};
use conch_core::store::MemoryStore;

const DAY: i64 = 86_400;
const NOW: i64 = 1_900_000_000;

fn episode(strength: u64, last_accessed_at: i64) -> MemoryRecord {
    MemoryRecord {
        id: 0,
        kind: MemoryKind::Episode(Episode { text: "note".to_string() }),
        strength,
        embedding: None,
        created_at: last_accessed_at,
        last_accessed_at,
        access_count: 3,
    }
}

fn fact(strength: u64, last_accessed_at: i64) -> MemoryRecord {
    MemoryRecord {
        id: 0,
        kind: MemoryKind::Fact(Fact {
            subject: "a".to_string(),
            relation: "b".to_string(),
            object: "c".to_string(),
        }),
        strength,
        embedding: None,
        created_at: last_accessed_at,
        last_accessed_at,
        access_count: 3,
    }
}

fn strengths(store: &MemoryStore) -> Vec<(i64, u64)> {
    store.memories().iter().map(|m| (m.id, m.strength)).collect()
}

#[test]
fn a_sweep_rewrites_and_prunes() {
    let mut store = MemoryStore::open_in_memory();
    store.import_record(&fact(SCALE, NOW - 10 * DAY)).unwrap();
    store.import_record(&episode(SCALE, NOW - 100 * DAY)).unwrap();
    store.import_record(&episode(SCALE, NOW)).unwrap();
    store.import_record(&episode(5_000_000, NOW)).unwrap();
    store.import_record(&episode(SCALE, NOW - 30 * DAY)).unwrap();
    let result = run_decay(&Policy::default(), &mut store, None, NOW);
    assert_eq!(result, DecayResult { scanned: 5, rewritten: 2, pruned: 2 });
    assert_eq!(strengths(&store), vec![(1, 818_733_212), (3, SCALE), (5, 165_299_745)]);
    // A rewritten strength is current for the instant of the sweep; the
    // creation and the access count stay.
    let m = store.get_memory(1).unwrap();
    assert_eq!(m.last_accessed_at, NOW);
    assert_eq!(m.created_at, NOW - 10 * DAY);
    assert_eq!(m.access_count, 3);
    // A memory whose strength was already current is left as it was.
    let m = store.get_memory(3).unwrap();
    assert_eq!(m.last_accessed_at, NOW);
    assert_eq!(m.access_count, 3);
}

#[test]
fn a_second_sweep_over_dormant_memories_does_nothing() {
    let mut store = MemoryStore::open_in_memory();
    store.import_record(&episode(SCALE, NOW - 30 * DAY)).unwrap();
    store.import_record(&fact(SCALE, NOW - 10 * DAY)).unwrap();
    store.import_record(&episode(SCALE, NOW - 100 * DAY)).unwrap();
    store.import_record(&fact(300_000_000, NOW - 400 * DAY)).unwrap();
    store.import_record(&episode(20_000_000, NOW - 3 * DAY)).unwrap();
    let first = run_decay(&Policy::default(), &mut store, None, NOW);
    assert_eq!(first, DecayResult { scanned: 5, rewritten: 3, pruned: 2 });
    let after_first = strengths(&store);
    assert_eq!(after_first, vec![(1, 165_299_745), (2, 818_733_212), (5, 16_705_416)]);
    let second = run_decay(&Policy::default(), &mut store, None, NOW);
    assert_eq!(second, DecayResult { scanned: 3, rewritten: 0, pruned: 0 });
    assert_eq!(strengths(&store), after_first);
    let third = run_decay(&Policy::default(), &mut store, None, NOW);
    assert_eq!(third, DecayResult { scanned: 3, rewritten: 0, pruned: 0 });
    assert_eq!(strengths(&store), after_first);
    // Time that passes afterwards is applied once, from the instant of the sweep.
    let later = run_decay(&Policy::default(), &mut store, None, NOW + 10 * DAY);
    assert_eq!(later, DecayResult { scanned: 3, rewritten: 2, pruned: 1 });
    // Forty days as an episode and twenty as a fact, taken in two steps:
    // within a millionth of the single steps, 0.090718358 and 0.670323380.
    assert_eq!(strengths(&store), vec![(1, 90_718_960), (2, 670_324_072)]);
}

#[test]
fn a_sweep_before_the_last_access_changes_nothing() {
    let mut store = MemoryStore::open_in_memory();
    store.import_record(&episode(SCALE, NOW)).unwrap();
    let result = run_decay(&Policy::default(), &mut store, None, NOW - 30 * DAY);
    assert_eq!(result, DecayResult { scanned: 1, rewritten: 0, pruned: 0 });
    assert_eq!(store.get_memory(1).unwrap().last_accessed_at, NOW);
}

#[test]
fn the_default_floor_is_one_hundredth() {
    assert_eq!(DEFAULT_PRUNE_FLOOR, SCALE / 100);
    let mut store = MemoryStore::open_in_memory();
    store.import_record(&episode(DEFAULT_PRUNE_FLOOR, NOW)).unwrap();
    store.import_record(&episode(DEFAULT_PRUNE_FLOOR - 1, NOW)).unwrap();
    let result = run_decay(&Policy::default(), &mut store, None, NOW);
    assert_eq!(result, DecayResult { scanned: 2, rewritten: 0, pruned: 1 });
    assert_eq!(strengths(&store), vec![(1, DEFAULT_PRUNE_FLOOR)]);
}

#[test]
fn the_floor_can_be_overridden() {
    let mut store = MemoryStore::open_in_memory();
    store.import_record(&fact(SCALE, NOW - 10 * DAY)).unwrap();
    store.import_record(&episode(SCALE, NOW - 10 * DAY)).unwrap();
    let result = run_decay(&Policy::default(), &mut store, Some(600_000_000), NOW);
    assert_eq!(result, DecayResult { scanned: 2, rewritten: 1, pruned: 1 });
    assert_eq!(strengths(&store), vec![(1, 818_733_212)]);
    // A floor of zero never prunes.
    let mut store = MemoryStore::open_in_memory();
    store.import_record(&episode(0, NOW)).unwrap();
    store.import_record(&episode(SCALE, NOW - 4_000 * DAY)).unwrap();
    let result = run_decay(&Policy::default(), &mut store, Some(0), NOW);
    assert_eq!(result, DecayResult { scanned: 2, rewritten: 1, pruned: 0 });
    assert_eq!(strengths(&store), vec![(1, 0), (2, 0)]);
}

#[test]
fn a_second_sweep_with_no_elapsed_time_does_nothing() {
    let mut store = MemoryStore::open_in_memory();
    store.import_record(&fact(SCALE, NOW)).unwrap();
    store.import_record(&episode(700_000_000, NOW + 5)).unwrap();
    store.import_record(&episode(1, NOW)).unwrap();
    let first = run_decay(&Policy::default(), &mut store, None, NOW);
    assert_eq!(first, DecayResult { scanned: 3, rewritten: 0, pruned: 1 });
    let before = strengths(&store);
    let second = run_decay(&Policy::default(), &mut store, None, NOW);
    assert_eq!(second, DecayResult { scanned: 2, rewritten: 0, pruned: 0 });
    assert_eq!(strengths(&store), before);
}

#[test]
fn an_empty_corpus_is_swept_trivially() {
    let mut store = MemoryStore::open_in_memory();
    assert_eq!(run_decay(&Policy::default(), &mut store, None, NOW), DecayResult { scanned: 0, rewritten: 0, pruned: 0 });
    assert_eq!(run_decay(&Policy::default(), &mut store, Some(5), NOW), DecayResult { scanned: 0, rewritten: 0, pruned: 0 });
}

#[test]
fn a_sweep_at_the_present_instant() {
    let mut store = MemoryStore::open_in_memory();
    let now = chrono::Utc::now().timestamp();
    store.import_record(&episode(SCALE, now - 365 * DAY)).unwrap();
    store.import_record(&fact(SCALE, now + 3_600)).unwrap();
    let result = run_decay(&Policy::default(), &mut store, None, now);
    assert_eq!(result, DecayResult { scanned: 2, rewritten: 0, pruned: 1 });
    assert_eq!(strengths(&store), vec![(2, SCALE)]);
}

#[test]
fn the_policy_sets_the_default_floor() {
    let strict = Policy { prune_floor: 900_000_000, ..Policy::default() };
    let mut store = MemoryStore::open_in_memory();
    store.import_record(&fact(SCALE, NOW - DAY)).unwrap();
    store.import_record(&fact(SCALE, NOW - 10 * DAY)).unwrap();
    let result = run_decay(&strict, &mut store, None, NOW);
    assert_eq!(result, DecayResult { scanned: 2, rewritten: 1, pruned: 1 });
    assert_eq!(strengths(&store), vec![(1, 980_201_068)]);
    // An explicit floor still takes precedence.
    let result = run_decay(&strict, &mut store, Some(0), NOW + 365 * DAY);
    assert_eq!(result.pruned, 0);
}
