use decide::condorcet::{is_reachable, ranked_pairs, VoteItem};

/// Adjacency matrix for `n` nodes from out-neighbour lists.
fn graph(lists: Vec<Vec<usize>>) -> Vec<Vec<bool>> {
    let n = lists.len();
    let mut m = vec![vec![false; n]; n];
    for (from, tos) in lists.iter().enumerate() {
        for &to in tos {
            m[from][to] = true;
        }
    }
    m
}

/// A ballot ranking the given candidates best-first, ranks 1, 2, 3, ...
fn ballot(order: &[usize]) -> Vec<VoteItem> {
    order
        .iter()
        .enumerate()
        .map(|(i, &candidate)| VoteItem { candidate, rank: (i + 1) as u64 })
        .collect()
}

/// `count` copies of each ballot order.
fn ballots(groups: &[(usize, &[usize])]) -> Vec<Vec<VoteItem>> {
    let mut out = Vec::new();
    for &(count, order) in groups {
        for _ in 0..count {
            out.push(ballot(order));
        }
    }
    out
}

#[test]
fn condorcet_test_is_reachable() {
    assert_eq!(is_reachable(0, 1, &graph(vec![vec![1], vec![]])), true);
    assert_eq!(is_reachable(1, 0, &graph(vec![vec![1], vec![]])), false);
    assert_eq!(
        is_reachable(0, 3, &graph(vec![vec![1], vec![2], vec![3], vec![]])),
        true
    );
    assert_eq!(
        is_reachable(3, 0, &graph(vec![vec![1], vec![2], vec![3], vec![]])),
        false
    );
    let complicated_graph = graph(vec![
        vec![4],
        vec![6],
        vec![6],
        vec![4],
        vec![5],
        vec![1, 2],
        vec![0],
    ]);
    assert_eq!(is_reachable(0, 1, &complicated_graph), true);
    assert_eq!(is_reachable(0, 2, &complicated_graph), true);
    assert_eq!(is_reachable(0, 3, &complicated_graph), false);
    assert_eq!(is_reachable(0, 4, &complicated_graph), true);
    assert_eq!(is_reachable(0, 5, &complicated_graph), true);
    assert_eq!(is_reachable(0, 6, &complicated_graph), true);
    assert_eq!(is_reachable(2, 0, &complicated_graph), true);
    assert_eq!(is_reachable(2, 1, &complicated_graph), true);
    assert_eq!(is_reachable(2, 3, &complicated_graph), false);
    assert_eq!(is_reachable(2, 4, &complicated_graph), true);
    assert_eq!(is_reachable(2, 5, &complicated_graph), true);
    assert_eq!(is_reachable(2, 6, &complicated_graph), true);
    assert_eq!(is_reachable(3, 0, &complicated_graph), true);
    assert_eq!(is_reachable(3, 1, &complicated_graph), true);
    assert_eq!(is_reachable(3, 2, &complicated_graph), true);
    assert_eq!(is_reachable(3, 4, &complicated_graph), true);
    assert_eq!(is_reachable(3, 5, &complicated_graph), true);
    assert_eq!(is_reachable(3, 6, &complicated_graph), true);
}

#[test]
fn condorcet_test_ranked_pairs() {
    assert_eq!(
        ranked_pairs(
            5,
            ballots(&[
                (1, &[4, 1, 3, 2, 0]),
                (1, &[1, 0, 4, 3, 2]),
                (1, &[3, 0, 4, 1, 2]),
                (1, &[3, 4, 0, 1, 2]),
                (1, &[2, 1, 3, 0, 4]),
            ])
        )
        .ranks[0],
        vec![1, 3, 4],
    );
    assert_eq!(
        ranked_pairs(2, ballots(&[(1, &[0, 1]), (1, &[1, 0])])).ranks[0],
        vec![0, 1]
    );

    let ericgorr_example_1 = ballots(&[
        (7, &[0, 1, 2]),
        (5, &[1, 0, 2]),
        (4, &[2, 0, 1]),
        (2, &[1, 2, 0]),
    ]);
    assert_eq!(ranked_pairs(3, ericgorr_example_1).ranks[0], [0]);

    let ericgorr_example_2 = ballots(&[(40, &[0, 1, 2]), (35, &[1, 2, 0]), (25, &[2, 0, 1])]);
    assert_eq!(ranked_pairs(3, ericgorr_example_2).ranks[0], [0]);

    let ericgorr_example_3 = ballots(&[
        (7, &[0, 1, 2]),
        (7, &[1, 0, 2]),
        (2, &[2, 0, 1]),
        (2, &[2, 1, 0]),
    ]);
    assert_eq!(ranked_pairs(3, ericgorr_example_3).ranks[0], [0, 1]);

    let ericgorr_example_4 = ballots(&[
        (12, &[0, 3, 2, 1]),
        (3, &[1, 0, 2, 3]),
        (25, &[1, 2, 0, 3]),
        (21, &[2, 1, 0, 3]),
        (12, &[3, 0, 1, 2]),
        (21, &[3, 0, 2, 1]),
        (6, &[3, 1, 0, 2]),
    ]);
    assert_eq!(ranked_pairs(4, ericgorr_example_4).ranks[0], [1]);

    let ericgorr_interesting_1 = ballots(&[
        (12, &[0, 3, 2, 1]),
        (3, &[1, 0, 2, 3]),
        (25, &[1, 2, 0, 3]),
        (21, &[2, 1, 0, 3]),
        (12, &[3, 0, 1, 2]),
        (21, &[3, 0, 2, 1]),
        (6, &[3, 1, 0, 2]),
    ]);
    assert_eq!(ranked_pairs(4, ericgorr_interesting_1).ranks[0], [1]);

    let ericgorr_interesting_2 = ballots(&[
        (280, &[0, 2, 3, 1]),
        (301, &[1, 0, 2, 3]),
        (303, &[2, 1, 3, 0]),
        (356, &[3, 0, 1, 2]),
    ]);
    assert_eq!(ranked_pairs(4, ericgorr_interesting_2).ranks[0], [0]);
}

#[test]
fn filter_ballot_is_idempotent() {
    // Duplicate candidate entries and out-of-range candidates.
    let raw = vec![
        VoteItem { candidate: 2, rank: 1 },
        VoteItem { candidate: 9, rank: 1 },
        VoteItem { candidate: 2, rank: 3 },
        VoteItem { candidate: 0, rank: 2 },
        VoteItem { candidate: 0, rank: 5 },
    ];
    let once = decide::condorcet::filter_ballot(3, &raw);
    let twice = decide::condorcet::filter_ballot(3, &once);
    assert_eq!(once.len(), 2);
    assert_eq!(once[0].candidate, 2);
    assert_eq!(once[0].rank, 1);
    assert_eq!(once[1].candidate, 0);
    assert_eq!(once[1].rank, 2);
    assert_eq!(once.len(), twice.len());
    for (a, b) in once.iter().zip(twice.iter()) {
        assert_eq!(a.candidate, b.candidate);
        assert_eq!(a.rank, b.rank);
    }
}

#[test]
fn even_two_way_split_ties() {
    // A two-candidate election split 50/50 puts both candidates in tier 0.
    let tally = ranked_pairs(2, ballots(&[(4, &[0, 1]), (4, &[1, 0])]));
    assert_eq!(tally.ranks, vec![vec![0, 1]]);
    assert_eq!(tally.totals[0][1], 4);
    assert_eq!(tally.totals[1][0], 4);
}

#[test]
fn ballot_order_does_not_matter() {
    let forward = ranked_pairs(
        3,
        ballots(&[(7, &[0, 1, 2]), (5, &[1, 0, 2]), (4, &[2, 0, 1]), (2, &[1, 2, 0])]),
    );
    let backward = ranked_pairs(
        3,
        ballots(&[(2, &[1, 2, 0]), (4, &[2, 0, 1]), (5, &[1, 0, 2]), (7, &[0, 1, 2])]),
    );
    assert_eq!(forward.ranks, backward.ranks);
    assert_eq!(forward.totals, backward.totals);
    // Entry order within one ballot does not matter either: only ranks do.
    let shuffled_entries = vec![vec![
        VoteItem { candidate: 2, rank: 3 },
        VoteItem { candidate: 0, rank: 1 },
        VoteItem { candidate: 1, rank: 2 },
    ]];
    let plain = vec![ballot(&[0, 1, 2])];
    let a = ranked_pairs(3, shuffled_entries);
    let b = ranked_pairs(3, plain);
    assert_eq!(a.ranks, b.ranks);
    assert_eq!(a.totals, b.totals);
}

#[test]
fn degenerate_elections() {
    let empty = ranked_pairs(0, vec![]);
    assert_eq!(empty.totals.len(), 0);
    assert_eq!(empty.ranks.len(), 0);
    let no_ballots = ranked_pairs(2, vec![]);
    assert_eq!(no_ballots.totals, vec![vec![0, 0], vec![0, 0]]);
    assert_eq!(no_ballots.ranks, vec![vec![0, 1]]);
}

#[test]
fn ties_on_a_ballot_contribute_nothing() {
    // Both candidates share rank 1: no pairwise preference either way.
    let tied = vec![vec![
        VoteItem { candidate: 0, rank: 1 },
        VoteItem { candidate: 1, rank: 1 },
    ]];
    let tally = ranked_pairs(2, tied);
    assert_eq!(tally.totals[0][1], 0);
    assert_eq!(tally.totals[1][0], 0);
    assert_eq!(tally.ranks, vec![vec![0, 1]]);
}

#[test]
fn transitive_elections_rank_singleton_tiers() {
    // Candidate 0 beats 1 and 2 head-to-head, and 1 beats 2: a Condorcet
    // winner at every level yields a strict total order of one-candidate
    // tiers.
    let tally = ranked_pairs(
        3,
        ballots(&[(7, &[0, 1, 2]), (5, &[1, 0, 2]), (4, &[2, 0, 1]), (2, &[1, 2, 0])]),
    );
    assert_eq!(tally.ranks, vec![vec![0], vec![1], vec![2]]);
}
