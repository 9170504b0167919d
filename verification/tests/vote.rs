use decide::condorcet::{is_reachable, ranked_pairs, VoteItem};
use decide::room::{
    PruneOutcome, RegisterOutcome, RoomRecord, SubmitOutcome, TallyOutcome, UserVote, VoteState,
};
use decide::util::{ClientId, RoomId};

fn adj(lists: Vec<Vec<usize>>) -> Vec<Vec<bool>> {
    let n = lists.len();
    let mut m = vec![vec![false; n]; n];
    for (from, tos) in lists.iter().enumerate() {
        for &to in tos {
            m[from][to] = true;
        }
    }
    m
}

fn ranked(order: &[usize]) -> Vec<VoteItem> {
    order
        .iter()
        .enumerate()
        .map(|(i, &candidate)| VoteItem { candidate, rank: (i + 1) as u64 })
        .collect()
}

fn many(groups: &[(usize, &[usize])]) -> Vec<Vec<VoteItem>> {
    let mut out = Vec::new();
    for &(count, order) in groups {
        for _ in 0..count {
            out.push(ranked(order));
        }
    }
    out
}

#[test]
fn vote_test_is_reachable() {
    assert_eq!(is_reachable(0, 1, &adj(vec![vec![1], vec![]])), true);
    assert_eq!(is_reachable(1, 0, &adj(vec![vec![1], vec![]])), false);
    assert_eq!(
        is_reachable(0, 3, &adj(vec![vec![1], vec![2], vec![3], vec![]])),
        true
    );
    assert_eq!(
        is_reachable(3, 0, &adj(vec![vec![1], vec![2], vec![3], vec![]])),
        false
    );
    let complicated_graph = adj(vec![
        vec![4],
        vec![6],
        vec![6],
        vec![4],
        vec![5],
        vec![1, 2],
        vec![0],
    ]);
    assert_eq!(is_reachable(0, 1, &complicated_graph), true);
    assert_eq!(is_reachable(0, 2, &complicated_graph), true);
    assert_eq!(is_reachable(0, 3, &complicated_graph), false);
    assert_eq!(is_reachable(0, 4, &complicated_graph), true);
    assert_eq!(is_reachable(0, 5, &complicated_graph), true);
    assert_eq!(is_reachable(0, 6, &complicated_graph), true);
    assert_eq!(is_reachable(2, 0, &complicated_graph), true);
    assert_eq!(is_reachable(2, 1, &complicated_graph), true);
    assert_eq!(is_reachable(2, 3, &complicated_graph), false);
    assert_eq!(is_reachable(2, 4, &complicated_graph), true);
    assert_eq!(is_reachable(2, 5, &complicated_graph), true);
    assert_eq!(is_reachable(2, 6, &complicated_graph), true);
    assert_eq!(is_reachable(3, 0, &complicated_graph), true);
    assert_eq!(is_reachable(3, 1, &complicated_graph), true);
    assert_eq!(is_reachable(3, 2, &complicated_graph), true);
    assert_eq!(is_reachable(3, 4, &complicated_graph), true);
    assert_eq!(is_reachable(3, 5, &complicated_graph), true);
    assert_eq!(is_reachable(3, 6, &complicated_graph), true);
}

#[test]
fn vote_test_ranked_pairs() {
    assert_eq!(
        ranked_pairs(
            5,
            many(&[
                (1, &[4, 1, 3, 2, 0]),
                (1, &[1, 0, 4, 3, 2]),
                (1, &[3, 0, 4, 1, 2]),
                (1, &[3, 4, 0, 1, 2]),
                (1, &[2, 1, 3, 0, 4]),
            ])
        )
        .ranks[0],
        vec![1, 3, 4],
    );
    assert_eq!(
        ranked_pairs(2, many(&[(1, &[0, 1]), (1, &[1, 0])])).ranks[0],
        vec![0, 1]
    );

    let ericgorr_example_1 = many(&[
        (7, &[0, 1, 2]),
        (5, &[1, 0, 2]),
        (4, &[2, 0, 1]),
        (2, &[1, 2, 0]),
    ]);
    assert_eq!(ranked_pairs(3, ericgorr_example_1).ranks[0], [0]);

    let ericgorr_example_2 = many(&[(40, &[0, 1, 2]), (35, &[1, 2, 0]), (25, &[2, 0, 1])]);
    assert_eq!(ranked_pairs(3, ericgorr_example_2).ranks[0], [0]);

    let ericgorr_example_3 = many(&[
        (7, &[0, 1, 2]),
        (7, &[1, 0, 2]),
        (2, &[2, 0, 1]),
        (2, &[2, 1, 0]),
    ]);
    assert_eq!(ranked_pairs(3, ericgorr_example_3).ranks[0], [0, 1]);

    let ericgorr_example_4 = many(&[
        (12, &[0, 3, 2, 1]),
        (3, &[1, 0, 2, 3]),
        (25, &[1, 2, 0, 3]),
        (21, &[2, 1, 0, 3]),
        (12, &[3, 0, 1, 2]),
        (21, &[3, 0, 2, 1]),
        (6, &[3, 1, 0, 2]),
    ]);
    assert_eq!(ranked_pairs(4, ericgorr_example_4).ranks[0], [1]);

    let ericgorr_interesting_1 = many(&[
        (12, &[0, 3, 2, 1]),
        (3, &[1, 0, 2, 3]),
        (25, &[1, 2, 0, 3]),
        (21, &[2, 1, 0, 3]),
        (12, &[3, 0, 1, 2]),
        (21, &[3, 0, 2, 1]),
        (6, &[3, 1, 0, 2]),
    ]);
    assert_eq!(ranked_pairs(4, ericgorr_interesting_1).ranks[0], [1]);

    let ericgorr_interesting_2 = many(&[
        (280, &[0, 2, 3, 1]),
        (301, &[1, 0, 2, 3]),
        (303, &[2, 1, 3, 0]),
        (356, &[3, 0, 1, 2]),
    ]);
    assert_eq!(ranked_pairs(4, ericgorr_interesting_2).ranks[0], [0]);
}

fn two_choice_record() -> RoomRecord {
    RoomRecord::new(vec!["tea".to_string(), "coffee".to_string()])
}

fn vote_for(name: &str, order: &[usize]) -> UserVote {
    UserVote { name: name.to_string(), selections: ranked(order) }
}

#[test]
fn register_unknown_room_is_rejected() {
    let mut state = VoteState::new();
    let room_id = RoomId("missing".to_string());
    match state.register_client(&room_id, ClientId(1), 1, None) {
        RegisterOutcome::Rejected(n) => {
            assert!(matches!(n.status, decide::room::ClientStatus::InvalidRoom));
            assert!(n.vote.is_none());
        }
        RegisterOutcome::Registered(_, _) => panic!("registered against a missing room"),
    }
    assert_eq!(state.rooms.len(), 0);
}

#[test]
fn submitting_after_tally_changes_nothing() {
    let mut state = VoteState::new();
    let room_id = RoomId::new_random();
    let mut record = two_choice_record();
    let alice = ClientId(1);
    match state.register_client(&room_id, alice, 10, Some(&record)) {
        RegisterOutcome::Registered(deliveries, cache_ok) => {
            assert_eq!(deliveries.len(), 1);
            assert!(cache_ok);
        }
        RegisterOutcome::Rejected(_) => panic!("rejected a live room"),
    }
    match state.submit_vote(&room_id, alice, vote_for("alice", &[0, 1]), &mut record) {
        SubmitOutcome::Updated(_, cache_ok) => assert!(cache_ok),
        _ => panic!("submission before tally must be stored"),
    }
    assert_eq!(record.votes.len(), 1);
    match state.tally(&room_id, &mut record) {
        TallyOutcome::Tallied(_) => {}
        TallyOutcome::NotRegistered => panic!("tally on a live room"),
    }
    assert!(record.tallied);
    // Tallying froze voting: a later submission changes neither the votes
    // nor the cached result.
    match state.submit_vote(&room_id, alice, vote_for("alice", &[1, 0]), &mut record) {
        SubmitOutcome::Frozen => {}
        _ => panic!("submission after tally must be frozen"),
    }
    assert_eq!(record.votes.len(), 1);
    assert_eq!(record.votes[0].1.selections[0].candidate, 0);
}

#[test]
fn tallying_twice_keeps_the_cached_result() {
    let mut state = VoteState::new();
    let room_id = RoomId::new_random();
    let mut record = two_choice_record();
    let alice = ClientId(1);
    match state.register_client(&room_id, alice, 10, Some(&record)) {
        RegisterOutcome::Registered(_, _) => {}
        RegisterOutcome::Rejected(_) => panic!("rejected a live room"),
    }
    match state.submit_vote(&room_id, alice, vote_for("alice", &[0, 1]), &mut record) {
        SubmitOutcome::Updated(_, cache_ok) => assert!(cache_ok),
        _ => panic!("submission before tally must be stored"),
    }
    let first = match state.tally(&room_id, &mut record) {
        TallyOutcome::Tallied(deliveries) => deliveries,
        TallyOutcome::NotRegistered => panic!("tally on a live room"),
    };
    let second = match state.tally(&room_id, &mut record) {
        TallyOutcome::Tallied(deliveries) => deliveries,
        TallyOutcome::NotRegistered => panic!("tally on a live room"),
    };
    let results_of = |ds: &Vec<(ClientId, Vec<u64>, decide::room::ClientNotification)>| {
        let view = ds[0].2.vote.as_ref().expect("view");
        let results = view.results.as_ref().expect("tallied view has results");
        (results.tally.totals.clone(), results.tally.ranks.clone())
    };
    assert_eq!(results_of(&first), results_of(&second));
    assert_eq!(results_of(&second).1[0], vec![0]);
}

#[test]
fn reconnect_rebuilds_identical_state() {
    let mut state = VoteState::new();
    let room_id = RoomId::new_random();
    let mut record = two_choice_record();
    let alice = ClientId(7);
    match state.register_client(&room_id, alice, 1, Some(&record)) {
        RegisterOutcome::Registered(_, _) => {}
        RegisterOutcome::Rejected(_) => panic!("rejected a live room"),
    }
    match state.submit_vote(&room_id, alice, vote_for("alice", &[1, 0]), &mut record) {
        SubmitOutcome::Updated(_, cache_ok) => assert!(cache_ok),
        _ => panic!("submission before tally must be stored"),
    }
    let first_view = match state.register_client(&room_id, alice, 2, Some(&record)) {
        RegisterOutcome::Registered(ds, _) => format!("{:?}", ds[0].2),
        RegisterOutcome::Rejected(_) => panic!("rejected a live room"),
    };
    // Drop both connections: the in-memory room is evicted, the durable
    // record persists untouched.
    match state.prune_connection_handles(&room_id, alice, 1, Some(&record)) {
        PruneOutcome::Pruned(_, seen, cache_ok) => {
            assert!(seen);
            assert!(cache_ok);
        }
        _ => panic!("one connection should remain"),
    }
    match state.prune_connection_handles(&room_id, alice, 2, Some(&record)) {
        PruneOutcome::Evicted => {}
        _ => panic!("the last connection must evict the room"),
    }
    assert_eq!(state.rooms.len(), 0);
    assert_eq!(record.votes.len(), 1);
    // Reconnecting rebuilds the same client-visible state from the record.
    let rebuilt_view = match state.register_client(&room_id, alice, 3, Some(&record)) {
        RegisterOutcome::Registered(ds, _) => format!("{:?}", ds[0].2),
        RegisterOutcome::Rejected(_) => panic!("rejected a live room"),
    };
    assert_eq!(first_view, rebuilt_view);
}

#[test]
fn concurrent_identities_lose_no_update() {
    let mut state = VoteState::new();
    let room_id = RoomId::new_random();
    let mut record = two_choice_record();
    let alice = ClientId(1);
    let bob = ClientId(2);
    match state.register_client(&room_id, alice, 1, Some(&record)) {
        RegisterOutcome::Registered(_, _) => {}
        RegisterOutcome::Rejected(_) => panic!("rejected a live room"),
    }
    match state.register_client(&room_id, bob, 2, Some(&record)) {
        RegisterOutcome::Registered(ds, _) => assert_eq!(ds.len(), 2),
        RegisterOutcome::Rejected(_) => panic!("rejected a live room"),
    }
    // Two identities submit back to back through the coordinator: both
    // ballots are in the final votes map.
    match state.submit_vote(&room_id, alice, vote_for("alice", &[0, 1]), &mut record) {
        SubmitOutcome::Updated(_, cache_ok) => assert!(cache_ok),
        _ => panic!("submission must be stored"),
    }
    match state.submit_vote(&room_id, bob, vote_for("bob", &[1, 0]), &mut record) {
        SubmitOutcome::Updated(_, cache_ok) => assert!(cache_ok),
        _ => panic!("submission must be stored"),
    }
    assert_eq!(record.votes.len(), 2);
    fn find(record: &RoomRecord, id: ClientId) -> String {
        record
            .votes
            .iter()
            .find(|(cid, _)| *cid == id)
            .map(|(_, v)| v.name.clone())
            .expect("ballot present")
    }
    assert_eq!(find(&record, alice), "alice");
    assert_eq!(find(&record, bob), "bob");
    // Resubmission overwrites, never duplicates.
    match state.submit_vote(&room_id, alice, vote_for("alice2", &[1, 0]), &mut record) {
        SubmitOutcome::Updated(_, cache_ok) => assert!(cache_ok),
        _ => panic!("resubmission must be stored"),
    }
    assert_eq!(record.votes.len(), 2);
    assert_eq!(find(&record, alice), "alice2");
}

#[test]
fn views_count_votes_and_players() {
    let mut state = VoteState::new();
    let room_id = RoomId::new_random();
    let mut record = two_choice_record();
    let alice = ClientId(1);
    let bob = ClientId(2);
    for (id, handle) in [(alice, 1u64), (bob, 2u64)] {
        match state.register_client(&room_id, id, handle, Some(&record)) {
            RegisterOutcome::Registered(_, _) => {}
            RegisterOutcome::Rejected(_) => panic!("rejected a live room"),
        }
    }
    let deliveries = match state.submit_vote(
        &room_id,
        alice,
        vote_for("alice", &[0, 1]),
        &mut record,
    ) {
        SubmitOutcome::Updated(ds, _) => ds,
        _ => panic!("submission must be stored"),
    };
    assert_eq!(deliveries.len(), 2);
    for (id, handles, notification) in &deliveries {
        assert_eq!(handles.len(), 1);
        let view = notification.vote.as_ref().expect("connected view");
        assert_eq!(view.choices, vec!["tea".to_string(), "coffee".to_string()]);
        assert_eq!(view.num_votes, 1);
        assert_eq!(view.num_players, 2);
        // Before the tally, no results and no other identity's ballot.
        assert!(view.results.is_none());
        if *id == alice {
            assert_eq!(view.your_vote.as_ref().expect("own ballot").name, "alice");
        } else {
            assert!(view.your_vote.is_none());
        }
    }
}

#[test]
fn random_room_ids_are_alphanumeric_tokens() {
    let a = RoomId::new_random();
    let b = RoomId::new_random();
    assert_eq!(a.0.len(), 20);
    assert_eq!(b.0.len(), 20);
    assert!(a.0.chars().all(|c| c.is_ascii_alphanumeric()));
}

#[test]
fn choice_forms_are_trimmed_and_filtered() {
    let form = "  tea  \n\ncoffee\n   \nmate".to_string();
    let choices = decide::util::parse_choices(&form);
    assert_eq!(
        choices,
        vec!["tea".to_string(), "coffee".to_string(), "mate".to_string()]
    );
    let empty = decide::util::parse_choices(&"\n \n".to_string());
    assert_eq!(empty, Vec::<String>::new());
}

#[test]
fn operations_need_a_live_room() {
    let mut state = VoteState::new();
    let room_id = RoomId("nobody-here".to_string());
    let mut record = two_choice_record();
    assert!(matches!(
        state.submit_vote(&room_id, ClientId(1), vote_for("a", &[0, 1]), &mut record),
        SubmitOutcome::NotRegistered
    ));
    assert!(matches!(
        state.tally(&room_id, &mut record),
        TallyOutcome::NotRegistered
    ));
    assert!(matches!(
        state.prune_connection_handles(&room_id, ClientId(1), 1, Some(&record)),
        PruneOutcome::NotRegistered
    ));
    assert_eq!(record.votes.len(), 0);
    assert!(!record.tallied);
}
