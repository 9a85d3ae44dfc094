use fts_index::rank::{rank, Scored};

fn scored(ordinal: u16, score: u128) -> Scored {
    Scored { ordinal, score }
}

fn pairs(list: &[Scored]) -> Vec<(u16, u128)> {
    list.iter().map(|s| (s.ordinal, s.score)).collect()
}

#[test]
fn nothing_ranks_to_nothing() {
    assert_eq!(rank(&vec![]).len(), 0);
}

#[test]
fn one_entry_stays() {
    assert_eq!(pairs(&rank(&vec![scored(4, 2)])), vec![(4, 2)]);
}

#[test]
fn higher_scores_come_first() {
    let ranked = rank(&vec![scored(0, 1), scored(1, 3), scored(2, 2)]);
    assert_eq!(pairs(&ranked), vec![(1, 3), (2, 2), (0, 1)]);
}

#[test]
fn equal_scores_go_by_ordinal() {
    let ranked = rank(&vec![
        scored(9, 5),
        scored(3, 5),
        scored(7, 8),
        scored(1, 5),
        scored(0, 0),
        scored(65535, 8),
    ]);
    assert_eq!(
        pairs(&ranked),
        vec![(7, 8), (65535, 8), (1, 5), (3, 5), (9, 5), (0, 0)]
    );
}

#[test]
fn large_lists_are_ranked() {
    let list: Vec<Scored> = (0..1000u16)
        .map(|i| scored((i * 7919) % 1000, ((i as u128) * 31) % 17))
        .collect();
    let ranked = rank(&list);
    assert_eq!(ranked.len(), 1000);
    for pair in ranked.windows(2) {
        assert!(
            pair[0].score > pair[1].score
                || (pair[0].score == pair[1].score && pair[0].ordinal < pair[1].ordinal)
        );
    }
    let mut before = pairs(&list);
    let mut after = pairs(&ranked);
    before.sort();
    after.sort();
    assert_eq!(before, after);
}

#[test]
fn scores_beyond_64_bits_are_ranked() {
    let ranked = rank(&vec![scored(0, u64::MAX as u128), scored(1, u128::MAX)]);
    assert_eq!(pairs(&ranked), vec![(1, u128::MAX), (0, u64::MAX as u128)]);
}
