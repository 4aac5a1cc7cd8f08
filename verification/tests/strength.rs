use conch_core::fixed::SCALE;
use conch_core::memory::{Episode, Fact, MemoryKind, MemoryRecord};
use conch_core::policy::Policy;
use conch_core::store::MemoryStore;
use conch_core::strength::{
    decay_curve_value, effective_strength, half_lives_value, kind_decay_lambda_per_day,
    knot_value, seconds_between, touch_boost, touched_strength,
};

const DAY: i64 = 86_400;
const NOW: i64 = 1_900_000_000;

fn fact(strength: u64, last_accessed_at: i64) -> MemoryRecord {
    MemoryRecord {
        id: 1,
        kind: MemoryKind::Fact(Fact {
            subject: "Jared".to_string(),
            relation: "builds".to_string(),
            object: "Gen".to_string(),
        }),
        strength,
        embedding: None,
        created_at: last_accessed_at,
        last_accessed_at,
        access_count: 0,
    }
}

fn episode(strength: u64, last_accessed_at: i64) -> MemoryRecord {
    MemoryRecord {
        id: 2,
        kind: MemoryKind::Episode(Episode { text: "alpha project context".to_string() }),
        strength,
        embedding: None,
        created_at: last_accessed_at,
        last_accessed_at,
        access_count: 0,
    }
}

fn as_real(units: u64) -> f64 {
    units as f64 / SCALE as f64
}

#[test]
fn effective_strength_decays_by_kind() {
    let mut store = MemoryStore::open_in_memory();
    let unit: Vec<i16> = vec![i16::MAX, 0];
    let now = chrono::Utc::now().timestamp();
    let fact_id = store.remember_fact("Jared", "builds", "Gen", Some(&unit), now).unwrap();
    let ep_id = store.remember_episode("alpha project context", Some(&unit), now).unwrap();

    let old_time = now - 10 * DAY;
    let mut fact = store.get_memory(fact_id).unwrap();
    let mut episode = store.get_memory(ep_id).unwrap();
    fact.last_accessed_at = old_time;
    episode.last_accessed_at = old_time;

    let sf = effective_strength(&Policy::default(), &fact, now);
    let se = effective_strength(&Policy::default(), &episode, now);
    assert!(sf > se, "facts should decay slower than episodes");
}

#[test]
fn decay_constants_by_kind() {
    assert_eq!(kind_decay_lambda_per_day(&Policy::default(), &fact(SCALE, NOW)), 20_000_000);
    assert_eq!(kind_decay_lambda_per_day(&Policy::default(), &episode(SCALE, NOW)), 60_000_000);
    assert_eq!(touch_boost(&Policy::default(), &fact(SCALE, NOW)), 100_000_000);
    assert_eq!(touch_boost(&Policy::default(), &episode(SCALE, NOW)), 200_000_000);
}

#[test]
fn no_decay_without_elapsed_time() {
    assert_eq!(effective_strength(&Policy::default(), &fact(SCALE, NOW), NOW), SCALE);
    assert_eq!(effective_strength(&Policy::default(), &episode(SCALE, NOW), NOW), SCALE);
    assert_eq!(effective_strength(&Policy::default(), &fact(123_456_789, NOW), NOW), 123_456_789);
    // A last access in the future counts as no elapsed time.
    assert_eq!(effective_strength(&Policy::default(), &episode(700_000_000, NOW + 5 * DAY), NOW), 700_000_000);
    assert_eq!(seconds_between(NOW, NOW + 1), 0);
    assert_eq!(seconds_between(NOW + 90, NOW), 90);
    assert_eq!(seconds_between(i64::MAX, i64::MIN), u64::MAX);
}

#[test]
fn decay_exact_values() {
    assert_eq!(effective_strength(&Policy::default(), &fact(SCALE, NOW - DAY), NOW), 980_201_068);
    assert_eq!(effective_strength(&Policy::default(), &fact(SCALE, NOW - 10 * DAY), NOW), 818_733_212);
    assert_eq!(effective_strength(&Policy::default(), &fact(SCALE, NOW - 30 * DAY), NOW), 548_814_884);
    assert_eq!(effective_strength(&Policy::default(), &fact(SCALE, NOW - 100 * DAY), NOW), 135_336_091);
    assert_eq!(effective_strength(&Policy::default(), &fact(SCALE, NOW - 365 * DAY), NOW), 675_541);
    assert_eq!(effective_strength(&Policy::default(), &episode(SCALE, NOW - DAY), NOW), 941_769_642);
    assert_eq!(effective_strength(&Policy::default(), &episode(SCALE, NOW - 10 * DAY), NOW), 548_814_884);
    assert_eq!(effective_strength(&Policy::default(), &episode(SCALE, NOW - 30 * DAY), NOW), 165_299_745);
    assert_eq!(effective_strength(&Policy::default(), &episode(SCALE, NOW - 100 * DAY), NOW), 2_478_766);
    assert_eq!(effective_strength(&Policy::default(), &episode(SCALE, NOW - 365 * DAY), NOW), 0);
    // Half strength decays to half the value.
    assert_eq!(effective_strength(&Policy::default(), &fact(500_000_000, NOW - 10 * DAY), NOW), 409_366_606);
}

#[test]
fn decay_follows_the_exponential() {
    for days in [1i64, 2, 5, 10, 20, 30, 60, 100, 200] {
        let f = as_real(effective_strength(&Policy::default(), &fact(SCALE, NOW - days * DAY), NOW));
        let e = as_real(effective_strength(&Policy::default(), &episode(SCALE, NOW - days * DAY), NOW));
        assert!((f - (-0.02 * days as f64).exp()).abs() < 1e-5);
        assert!((e - (-0.06 * days as f64).exp()).abs() < 1e-5);
    }
}

#[test]
fn strength_never_grows_with_time() {
    let mut last_fact = SCALE;
    let mut last_episode = SCALE;
    let mut secs: i64 = 0;
    while secs < 400 * DAY {
        let f = effective_strength(&Policy::default(), &fact(SCALE, NOW - secs), NOW);
        let e = effective_strength(&Policy::default(), &episode(SCALE, NOW - secs), NOW);
        assert!(f <= last_fact);
        assert!(e <= last_episode);
        assert!(f >= e);
        if secs > 0 && f > 0 {
            assert!(f > e);
        }
        last_fact = f;
        last_episode = e;
        secs += 7_919;
    }
}

#[test]
fn strength_is_clamped() {
    // A stored strength above one is read as one.
    assert_eq!(effective_strength(&Policy::default(), &fact(5 * SCALE, NOW), NOW), SCALE);
    assert_eq!(effective_strength(&Policy::default(), &fact(u64::MAX, NOW), NOW), SCALE);
    assert_eq!(effective_strength(&Policy::default(), &fact(0, NOW - DAY), NOW), 0);
}

#[test]
fn the_curve_ends_after_thirty_half_lives() {
    assert_eq!(decay_curve_value(0), SCALE);
    assert_eq!(decay_curve_value(SCALE as u128), 500_000_000);
    assert_eq!(decay_curve_value(2 * SCALE as u128), 250_000_000);
    assert_eq!(decay_curve_value(29 * SCALE as u128), 1);
    assert_eq!(decay_curve_value(30 * SCALE as u128), 0);
    assert_eq!(decay_curve_value(u128::MAX), 0);
    assert_eq!(decay_curve_value(500_000_000), 707_106_781);
    assert_eq!(knot_value(0), SCALE);
    assert_eq!(knot_value(50), 707_106_781);
    assert_eq!(knot_value(100), 500_000_000);
}

#[test]
fn half_lives_count() {
    assert_eq!(half_lives_value(20_000_000, 0), 0);
    // Ten days of a fact: 0.2 * log2(e) half-lives.
    assert_eq!(half_lives_value(20_000_000, 864_000), 288_539_008);
    assert_eq!(half_lives_value(60_000_000, 2_592_000), 2_596_851_073);
}

#[test]
fn touch_is_decay_then_reinforce() {
    // A dormant episode is decayed first and boosted second.
    let dormant = episode(SCALE, NOW - 30 * DAY);
    let after = touched_strength(&Policy::default(), &dormant, NOW);
    assert_eq!(after, 365_299_745);
    assert!(after < SCALE);
    assert!(after > 200_000_000);
    // A fact gets the smaller boost.
    assert_eq!(touched_strength(&Policy::default(), &fact(SCALE, NOW - 30 * DAY), NOW), 648_814_884);
    // Reinforcement never lifts a strength above one.
    assert_eq!(touched_strength(&Policy::default(), &fact(SCALE, NOW), NOW), SCALE);
    assert_eq!(touched_strength(&Policy::default(), &episode(900_000_000, NOW), NOW), SCALE);
    // A memory that has faded entirely is left with the boost alone.
    assert_eq!(touched_strength(&Policy::default(), &episode(SCALE, NOW - 3_650 * DAY), NOW), 200_000_000);
}

#[test]
fn an_alternate_policy_changes_decay_and_boost() {
    let slow = Policy {
        fact_decay_lambda_per_day: 60_000_000,
        episode_decay_lambda_per_day: 20_000_000,
        fact_touch_boost: 0,
        episode_touch_boost: SCALE,
        ..Policy::default()
    };
    assert!(slow.is_valid());
    // The roles of the two kinds are exchanged.
    assert_eq!(effective_strength(&slow, &fact(SCALE, NOW - 30 * DAY), NOW), 165_299_745);
    assert_eq!(effective_strength(&slow, &episode(SCALE, NOW - 30 * DAY), NOW), 548_814_884);
    assert_eq!(touched_strength(&slow, &fact(SCALE, NOW - 30 * DAY), NOW), 165_299_745);
    assert_eq!(touched_strength(&slow, &episode(SCALE, NOW - 30 * DAY), NOW), SCALE);
    // Without decay nothing fades.
    let still = Policy { fact_decay_lambda_per_day: 0, ..Policy::default() };
    assert_eq!(effective_strength(&still, &fact(777, NOW - 3_650 * DAY), NOW), 777);
}

#[test]
fn policies_are_checked() {
    assert!(Policy::default().is_valid());
    assert!(!Policy { fact_decay_lambda_per_day: SCALE + 1, ..Policy::default() }.is_valid());
    assert!(!Policy { episode_decay_lambda_per_day: SCALE + 1, ..Policy::default() }.is_valid());
    assert!(!Policy { fact_touch_boost: SCALE + 1, ..Policy::default() }.is_valid());
    assert!(!Policy { episode_touch_boost: SCALE + 1, ..Policy::default() }.is_valid());
    assert!(!Policy { similarity_threshold: 1_000_001, ..Policy::default() }.is_valid());
    assert!(!Policy { rrf_k: 0, ..Policy::default() }.is_valid());
    assert!(!Policy { spread_factor: SCALE + 1, ..Policy::default() }.is_valid());
    assert!(!Policy { temporal_weight: SCALE + 1, ..Policy::default() }.is_valid());
    assert!(Policy { prune_floor: u64::MAX, candidate_multiplier: 0, min_candidates: 0, ..Policy::default() }
        .is_valid());
    let p = Policy::default();
    assert_eq!(p.fact_decay_lambda_per_day, 20_000_000);
    assert_eq!(p.episode_decay_lambda_per_day, 60_000_000);
    assert_eq!(p.fact_touch_boost, 100_000_000);
    assert_eq!(p.episode_touch_boost, 200_000_000);
    assert_eq!(p.prune_floor, 10_000_000);
    assert_eq!(p.similarity_threshold, 300_000);
    assert_eq!(p.rrf_k, 60);
    assert_eq!(p.candidate_multiplier, 10);
    assert_eq!(p.min_candidates, 50);
    assert_eq!(p.spread_factor, 150_000_000);
    assert_eq!(p.temporal_weight, 100_000_000);
}
