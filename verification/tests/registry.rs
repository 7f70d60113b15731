use match_gateway::error::Error;
use match_gateway::game::{MatchType, RoomStatus};
use match_gateway::service::MatchService;

fn primed_service() -> MatchService {
    let mut svc = MatchService::new();
    svc.initialize_pools();
    svc
}

#[test]
fn initialization_primes_idle_minimums() {
    let svc = primed_service();
    assert_eq!(svc.idle_rooms("1v1"), Some(5));
    assert_eq!(svc.idle_rooms("2v2"), Some(3));
    assert_eq!(svc.idle_rooms("5v5"), Some(2));
    assert_eq!(svc.idle_rooms("3v3"), None);
}

#[test]
fn join_fresh_pool_reports_first_seat() {
    let mut svc = primed_service();
    let res = svc.join_match(1, "1v1", false).unwrap();
    assert_eq!(res.current_players, 1);
    assert_eq!(res.required_players, 2);
    assert_eq!(res.status, RoomStatus::Matching);
    assert_eq!(res.match_type, MatchType::OneVsOne);
}

#[test]
fn second_join_fills_room_and_turns_it_ready() {
    let mut svc = primed_service();
    let first = svc.join_match(1, "1v1", false).unwrap();
    let second = svc.join_match(2, "1v1", false).unwrap();
    assert_eq!(second.match_id, first.match_id);
    assert_eq!(second.current_players, 2);
    assert_eq!(second.status, RoomStatus::Ready);
    assert_eq!(
        svc.get_match_status(first.match_id).unwrap(),
        RoomStatus::Ready
    );
}

#[test]
fn idle_minimum_holds_after_joins_and_leaves() {
    let mut svc = primed_service();
    let res = svc.join_match(1, "1v1", false).unwrap();
    assert_eq!(svc.idle_rooms("1v1"), Some(5));
    svc.leave_match(1, res.match_id).unwrap();
    assert_eq!(svc.idle_rooms("1v1"), Some(5));
    for u in 0..10u128 {
        svc.join_match(u + 10, "2v2", false).unwrap();
        assert!(svc.idle_rooms("2v2").unwrap() >= 3);
    }
}

#[test]
fn duplicate_user_is_seated_in_another_room() {
    let mut svc = primed_service();
    let first = svc.join_match(7, "1v1", false).unwrap();
    let second = svc.join_match(7, "1v1", false).unwrap();
    assert_ne!(second.match_id, first.match_id);
    assert_eq!(second.current_players, 1);
}

#[test]
fn join_rejected_for_user_already_in_active_match() {
    let mut svc = MatchService::new();
    let err = svc.join_match(1, "1v1", true).unwrap_err();
    assert_eq!(err.code(), 1009);
    assert!(matches!(err, Error::UserAlreadyInMatch));
    // No room was opened by the rejected join: the next join is seated alone.
    let res = svc.join_match(1, "1v1", false).unwrap();
    assert_eq!(res.current_players, 1);
}

#[test]
fn join_rejected_for_unrecognized_match_type() {
    let mut svc = primed_service();
    let err = svc.join_match(1, "9v9", false).unwrap_err();
    assert_eq!(err.code(), 1007);
    assert!(matches!(err, Error::InvalidMatchType));
}

#[test]
fn leave_unknown_match_fails_not_found() {
    let mut svc = primed_service();
    let err = svc.leave_match(1, 424242).unwrap_err();
    assert_eq!(err.code(), 1006);
    assert!(matches!(err, Error::MatchNotFound));
}

#[test]
fn leave_after_ready_fails_and_mutates_nothing() {
    let mut svc = primed_service();
    let first = svc.join_match(1, "1v1", false).unwrap();
    svc.join_match(2, "1v1", false).unwrap();
    let err = svc.leave_match(1, first.match_id).unwrap_err();
    assert_eq!(err.code(), 1010);
    assert!(matches!(err, Error::MatchAlreadyStarted));
    // The roster kept both players: the start plan still covers them.
    let plan = svc.prepare_start(first.match_id).unwrap();
    let mut all: Vec<u128> = plan.team1_players.clone();
    all.extend_from_slice(&plan.team2_players);
    all.sort();
    assert_eq!(all, vec![1, 2]);
}

#[test]
fn cancelled_room_is_recycled_once_the_buffer_is_full() {
    let mut svc = primed_service();
    let res = svc.join_match(1, "1v1", false).unwrap();
    svc.leave_match(1, res.match_id).unwrap();
    // The emptied room made six idle rooms, one over the minimum, so it
    // was evicted; the buffer is back at its configured minimum.
    assert!(matches!(
        svc.get_match_status(res.match_id).unwrap_err(),
        Error::MatchNotFound
    ));
    assert_eq!(svc.idle_rooms("1v1"), Some(5));
}

#[test]
fn cancel_leaves_a_partly_filled_room_matching() {
    let mut svc = primed_service();
    let res = svc.join_match(1, "2v2", false).unwrap();
    svc.join_match(2, "2v2", false).unwrap();
    svc.leave_match(1, res.match_id).unwrap();
    // A seat freed in a room that still has players: the room stays open.
    assert_eq!(
        svc.get_match_status(res.match_id).unwrap(),
        RoomStatus::Matching
    );
    let back = svc.join_match(3, "2v2", false).unwrap();
    assert_eq!(back.match_id, res.match_id);
    assert_eq!(back.current_players, 2);
}

#[test]
fn concurrent_style_fill_yields_one_ready_room() {
    let mut svc = primed_service();
    let users: Vec<u128> = vec![11, 22, 33, 44];
    let mut match_ids = Vec::new();
    for &u in &users {
        let res = svc.join_match(u, "2v2", false).unwrap();
        match_ids.push(res.match_id);
        assert!(res.current_players <= res.required_players);
    }
    // All four admissions landed in the same room, and only the last one
    // turned it ready.
    assert!(match_ids.iter().all(|m| *m == match_ids[0]));
    assert_eq!(
        svc.get_match_status(match_ids[0]).unwrap(),
        RoomStatus::Ready
    );
    let plan = svc.prepare_start(match_ids[0]).unwrap();
    let mut all: Vec<u128> = plan.team1_players.clone();
    all.extend_from_slice(&plan.team2_players);
    all.sort();
    assert_eq!(all, vec![11, 22, 33, 44]);
}

#[test]
fn group_admission_fills_exactly_one_room() {
    let mut svc = primed_service();
    let users: Vec<u128> = vec![61, 62, 63, 64, 65, 66, 67, 68, 69, 70];
    let res = svc.join_all(&users, "5v5").unwrap();
    assert_eq!(res.status, RoomStatus::Ready);
    assert_eq!(
        svc.get_match_status(res.match_id).unwrap(),
        RoomStatus::Ready
    );
    // The group sits in that single room: its start plan covers exactly them.
    let plan = svc.prepare_start(res.match_id).unwrap();
    let mut all: Vec<u128> = plan.team1_players.clone();
    all.extend_from_slice(&plan.team2_players);
    all.sort();
    assert_eq!(all, users);
    // The rest of the pool is untouched: still the primed idle rooms.
    assert_eq!(svc.idle_rooms("5v5"), Some(2));
}

#[test]
fn start_plan_splits_roster_into_two_disjoint_teams() {
    let mut svc = primed_service();
    let users: Vec<u128> = vec![5, 6, 7, 8];
    let mut mid = 0u128;
    for &u in &users {
        mid = svc.join_match(u, "2v2", false).unwrap().match_id;
    }
    let plan = svc.prepare_start(mid).unwrap();
    assert_eq!(plan.players_per_team, 2);
    assert_eq!(plan.team1_players.len(), 2);
    assert_eq!(plan.team2_players.len(), 2);
    for u in &plan.team1_players {
        assert!(!plan.team2_players.contains(u));
    }
    let mut all: Vec<u128> = plan.team1_players.clone();
    all.extend_from_slice(&plan.team2_players);
    all.sort();
    assert_eq!(all, users);
}

#[test]
fn prepare_start_demands_a_ready_room() {
    let mut svc = primed_service();
    let res = svc.join_match(1, "1v1", false).unwrap();
    let err = svc.prepare_start(res.match_id).unwrap_err();
    assert_eq!(err.code(), 1008);
    assert!(matches!(err, Error::MatchNotReady));
    let err = svc.prepare_start(999999).unwrap_err();
    assert!(matches!(err, Error::MatchNotFound));
}

#[test]
fn mark_in_progress_follows_ready() {
    let mut svc = primed_service();
    let res = svc.join_match(1, "1v1", false).unwrap();
    let err = svc.mark_in_progress(res.match_id).unwrap_err();
    assert!(matches!(err, Error::MatchNotReady));
    svc.join_match(2, "1v1", false).unwrap();
    svc.mark_in_progress(res.match_id).unwrap();
    assert_eq!(
        svc.get_match_status(res.match_id).unwrap(),
        RoomStatus::InProgress
    );
    assert!(matches!(
        svc.mark_in_progress(55555).unwrap_err(),
        Error::MatchNotFound
    ));
}

#[test]
fn removed_match_is_gone_from_memory() {
    let mut svc = primed_service();
    let res = svc.join_match(1, "1v1", false).unwrap();
    svc.join_match(2, "1v1", false).unwrap();
    svc.mark_in_progress(res.match_id).unwrap();
    svc.remove_match(res.match_id);
    let err = svc.get_match_status(res.match_id).unwrap_err();
    assert!(matches!(err, Error::MatchNotFound));
    // Removing an unknown match changes nothing and does not fail.
    svc.remove_match(res.match_id);
}

#[test]
fn full_rooms_are_skipped_by_later_joins() {
    let mut svc = primed_service();
    let first = svc.join_match(1, "1v1", false).unwrap();
    svc.join_match(2, "1v1", false).unwrap();
    // The filled room is Ready: a third player is seated elsewhere.
    let third = svc.join_match(3, "1v1", false).unwrap();
    assert_ne!(third.match_id, first.match_id);
    assert_eq!(third.current_players, 1);
    // Same once the room is under way.
    svc.mark_in_progress(first.match_id).unwrap();
    let fourth = svc.join_match(4, "1v1", false).unwrap();
    assert_ne!(fourth.match_id, first.match_id);
}

#[test]
fn leave_by_a_non_member_changes_nothing() {
    let mut svc = primed_service();
    let res = svc.join_match(1, "1v1", false).unwrap();
    // A user who never joined the room is acknowledged without effect.
    svc.leave_match(99, res.match_id).unwrap();
    let second = svc.join_match(2, "1v1", false).unwrap();
    assert_eq!(second.match_id, res.match_id);
    assert_eq!(second.current_players, 2);
}

#[test]
fn rooms_never_overshoot_capacity() {
    let mut svc = primed_service();
    for u in 0..25u128 {
        let res = svc.join_match(u, "5v5", false).unwrap();
        assert!(res.current_players <= res.required_players);
        assert_eq!(res.required_players, 10);
    }
}
