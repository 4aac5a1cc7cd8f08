use conch_core::embed::{dot_product, similarity, vector_search};
use conch_core::memory::{Episode, MemoryKind, MemoryRecord};
use conch_core::ranking::{positions_of, Ranked};

fn memory(embedding: Option<Vec<i16>>) -> MemoryRecord {
    MemoryRecord {
        id: 1,
        kind: MemoryKind::Episode(Episode { text: "note".to_string() }),
        strength: 1_000_000_000,
        embedding,
        created_at: 0,
        last_accessed_at: 0,
        access_count: 0,
    }
}

#[test]
fn inner_products() {
    assert_eq!(dot_product(&vec![], &vec![]), 0);
    assert_eq!(dot_product(&vec![1, 2, 3], &vec![4, -5, 6]), 12);
    assert_eq!(dot_product(&vec![i16::MIN; 4096], &vec![i16::MIN; 4096]), 4096 * (1 << 30));
    assert_eq!(dot_product(&vec![i16::MIN; 4096], &vec![i16::MAX; 4096]), -4096 * 32768 * 32767);
}

#[test]
fn threshold_is_strict() {
    // The cosine of these two vectors is exactly 0.3.
    let query: Vec<i16> = vec![100, 0, 0, 0];
    let at_threshold: Vec<i16> = vec![300, 300, 100, 900];
    assert_eq!(similarity(&query, &at_threshold, 300_000), (false, 90_000_000));
    let corpus = vec![memory(Some(at_threshold))];
    assert_eq!(vector_search(&query, &corpus, 300_000), vec![]);
}

#[test]
fn just_above_the_threshold_enters() {
    let query: Vec<i16> = vec![100, 0, 0, 0];
    let above: Vec<i16> = vec![301, 300, 100, 900];
    let below: Vec<i16> = vec![299, 300, 100, 900];
    assert!(similarity(&query, &above, 300_000).0);
    assert!(!similarity(&query, &below, 300_000).0);
    let corpus = vec![memory(Some(below)), memory(Some(above))];
    assert_eq!(positions_of(&vector_search(&query, &corpus, 300_000)), vec![1]);
}

#[test]
fn squared_cosine_values() {
    assert_eq!(similarity(&vec![1, 0], &vec![1, 0], 300_000), (true, 1_000_000_000));
    assert_eq!(similarity(&vec![1, 0], &vec![7, 0], 300_000), (true, 1_000_000_000));
    assert_eq!(similarity(&vec![1, 0], &vec![1, 1], 300_000), (true, 500_000_000));
    assert_eq!(similarity(&vec![1, 0], &vec![0, 1], 300_000), (false, 0));
    assert_eq!(similarity(&vec![1, 0], &vec![-1, 0], 300_000), (false, 0));
    assert_eq!(similarity(&vec![3, 4], &vec![4, 3], 300_000), (true, 921_600_000));
    assert_eq!(
        similarity(&vec![i16::MAX; 4096], &vec![i16::MAX; 4096], 300_000),
        (true, 1_000_000_000)
    );
}

#[test]
fn vectors_that_cannot_be_compared() {
    assert_eq!(similarity(&vec![1, 0], &vec![1, 0, 0], 300_000), (false, 0));
    assert_eq!(similarity(&vec![], &vec![], 300_000), (false, 0));
    assert_eq!(similarity(&vec![0, 0], &vec![1, 0], 300_000), (false, 0));
}

#[test]
fn ranking_is_by_similarity() {
    let query: Vec<i16> = vec![10, 0];
    let corpus = vec![
        memory(Some(vec![1, 1])),
        memory(None),
        memory(Some(vec![5, 0])),
        memory(Some(vec![0, 9])),
        memory(Some(vec![2, 1])),
        memory(Some(vec![9, 0, 0])),
        memory(Some(vec![3, 0])),
    ];
    let ranked = vector_search(&query, &corpus, 300_000);
    assert_eq!(
        ranked,
        vec![
            Ranked { index: 2, score: 1_000_000_000 },
            Ranked { index: 6, score: 1_000_000_000 },
            Ranked { index: 4, score: 800_000_000 },
            Ranked { index: 0, score: 500_000_000 },
        ]
    );
}

#[test]
fn no_embeddings_no_semantic_ranking() {
    let corpus = vec![memory(None), memory(None)];
    assert_eq!(vector_search(&vec![1, 2, 3], &corpus, 300_000), vec![]);
    assert_eq!(vector_search(&vec![1, 2, 3], &vec![], 300_000), vec![]);
}

#[test]
fn the_threshold_can_be_moved() {
    let query: Vec<i16> = vec![100, 0, 0, 0];
    let stored: Vec<i16> = vec![300, 300, 100, 900];
    // Exactly 0.3: above any lower threshold, not above 0.3 itself.
    assert!(similarity(&query, &stored, 299_999).0);
    assert!(similarity(&query, &stored, 0).0);
    assert!(!similarity(&query, &stored, 300_001).0);
    assert!(!similarity(&query, &stored, 1_000_000).0);
    // A threshold of zero still asks for a positive cosine.
    assert!(!similarity(&vec![1, 0], &vec![0, 1], 0).0);
    // Nothing is above one.
    assert!(!similarity(&vec![1, 0], &vec![1, 0], 1_000_000).0);
    assert!(similarity(&vec![1, 0], &vec![1, 0], 999_999).0);
}

#[test]
fn long_vectors_are_compared_like_short_ones() {
    // No length is too long: a vector equal to the query has cosine one.
    assert_eq!(similarity(&vec![1; 4_097], &vec![1; 4_097], 300_000), (true, 1_000_000_000));
    assert_eq!(
        similarity(&vec![i16::MIN; 100_000], &vec![i16::MIN; 100_000], 999_999),
        (true, 1_000_000_000)
    );
    assert_eq!(
        similarity(&vec![i16::MAX; 100_000], &vec![i16::MIN; 100_000], 0),
        (false, 0)
    );
    // Half of the components agree and half are orthogonal: cosine squared one half.
    let mut query: Vec<i16> = vec![i16::MAX; 60_000];
    let mut stored: Vec<i16> = vec![i16::MAX; 60_000];
    query.extend(vec![0; 60_000]);
    stored.extend(vec![i16::MAX; 60_000]);
    assert_eq!(similarity(&query, &stored, 707_106), (true, 500_000_000));
    assert_eq!(similarity(&query, &stored, 707_107), (false, 500_000_000));
    // Exactly at the threshold, among five thousand components.
    let mut query: Vec<i16> = vec![100, 0, 0, 0];
    let mut at_threshold: Vec<i16> = vec![300, 300, 100, 900];
    query.extend(vec![0; 4_996]);
    at_threshold.extend(vec![0; 4_996]);
    assert_eq!(similarity(&query, &at_threshold, 300_000), (false, 90_000_000));
    let sole = vec![memory(Some(query.clone()))];
    assert_eq!(vector_search(&query, &sole, 300_000), vec![Ranked { index: 0, score: 1_000_000_000 }]);
    let sole = vec![memory(Some(at_threshold))];
    assert_eq!(vector_search(&query, &sole, 300_000), vec![]);
}

#[test]
fn inner_products_of_long_vectors() {
    assert_eq!(
        dot_product(&vec![i16::MIN; 1_000_000], &vec![i16::MIN; 1_000_000]),
        1_000_000i128 << 30
    );
    assert_eq!(
        dot_product(&vec![i16::MIN; 1_000_000], &vec![i16::MAX; 1_000_000]),
        -1_000_000i128 * 32_768 * 32_767
    );
}
