use conch_core::fusion::rrf;
use conch_core::ranking::{positions_of, sort_ranked, Ranked};

fn entry(index: usize, score: u128) -> Ranked {
    Ranked { index, score }
}

#[test]
fn first_in_both_lists_scores_two_sixty_firsts() {
    let fused = rrf(&vec![0], &vec![0], 1, 60);
    assert_eq!(fused, vec![entry(0, 32_786_884)]);
    assert_eq!(fused[0].score, 2 * (1_000_000_000 / 61));
}

#[test]
fn first_in_one_list_scores_one_sixty_first() {
    assert_eq!(rrf(&vec![0], &vec![], 1, 60), vec![entry(0, 16_393_442)]);
    assert_eq!(rrf(&vec![], &vec![0], 1, 60), vec![entry(0, 16_393_442)]);
}

#[test]
fn contributions_follow_the_rank() {
    // Position 2 is first and second, position 1 third and first, position 0 second only.
    let fused = rrf(&vec![2, 0, 1], &vec![1, 2], 3, 60);
    assert_eq!(
        fused,
        vec![entry(2, 16_393_442 + 16_129_032), entry(1, 15_873_015 + 16_393_442), entry(0, 16_129_032)]
    );
}

#[test]
fn equal_scores_are_ordered_by_position() {
    let fused = rrf(&vec![3, 1], &vec![0, 2], 4, 60);
    assert_eq!(positions_of(&fused), vec![0, 3, 1, 2]);
    let fused = rrf(&vec![1], &vec![0], 2, 60);
    assert_eq!(fused, vec![entry(0, 16_393_442), entry(1, 16_393_442)]);
}

#[test]
fn absent_positions_are_not_listed() {
    let fused = rrf(&vec![4], &vec![], 10, 60);
    assert_eq!(fused, vec![entry(4, 16_393_442)]);
    assert_eq!(rrf(&vec![], &vec![], 10, 60), vec![]);
    assert_eq!(rrf(&vec![0, 1], &vec![1, 0], 0, 60), vec![]);
}

#[test]
fn positions_outside_the_corpus_are_ignored() {
    // The stray entry still takes up rank zero.
    assert_eq!(rrf(&vec![5, 0], &vec![], 2, 60), vec![entry(0, 16_129_032)]);
    assert_eq!(rrf(&vec![usize::MAX], &vec![7], 7, 60), vec![]);
}

#[test]
fn repeated_positions_add_up() {
    assert_eq!(rrf(&vec![0, 0], &vec![], 1, 60), vec![entry(0, 16_393_442 + 16_129_032)]);
}

#[test]
fn sorting_is_by_score_then_position() {
    let sorted = sort_ranked(&vec![
        entry(3, 10),
        entry(1, 30),
        entry(2, 10),
        entry(0, 20),
        entry(4, 30),
        entry(2, 10),
    ]);
    assert_eq!(
        sorted,
        vec![entry(1, 30), entry(4, 30), entry(0, 20), entry(2, 10), entry(2, 10), entry(3, 10)]
    );
    assert_eq!(sort_ranked(&vec![]), vec![]);
    assert_eq!(sort_ranked(&vec![entry(9, u128::MAX)]), vec![entry(9, u128::MAX)]);
}

#[test]
fn sorting_a_long_list() {
    let mut list = Vec::new();
    for i in 0..1_000usize {
        list.push(entry(i, ((i * 7_919) % 101) as u128));
    }
    let sorted = sort_ranked(&list);
    assert_eq!(sorted.len(), list.len());
    for pair in sorted.windows(2) {
        assert!(
            pair[0].score > pair[1].score
                || (pair[0].score == pair[1].score && pair[0].index < pair[1].index)
        );
    }
}

#[test]
fn the_fusion_constant_sets_the_contributions() {
    assert_eq!(rrf(&vec![0, 1], &vec![1], 2, 1), vec![entry(1, 333_333_333 + 500_000_000), entry(0, 500_000_000)]);
    assert_eq!(rrf(&vec![0], &vec![0], 1, 999), vec![entry(0, 2_000_000)]);
    assert_eq!(rrf(&vec![0], &vec![], 1, u64::MAX), vec![entry(0, 0)]);
}
