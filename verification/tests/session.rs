use match_gateway::connections::ConnectionManager;
use match_gateway::error::Error;
use match_gateway::game::RoomStatus;
use match_gateway::handler::{handle_match_cancel, handle_match_start, handle_ping};
use match_gateway::service::MatchService;

fn primed() -> (ConnectionManager, MatchService) {
    let mut svc = MatchService::new();
    svc.initialize_pools();
    (ConnectionManager::new(), svc)
}

#[test]
fn connections_register_and_unregister() {
    let mut cm = ConnectionManager::new();
    cm.add_connection(100, 1);
    let st = cm.get_connection(100).unwrap();
    assert_eq!(st.user_id, 1);
    assert!(st.match_id.is_none());
    cm.remove_connection(100);
    assert!(cm.get_connection(100).is_none());
}

#[test]
fn fan_out_set_is_exact() {
    let mut cm = ConnectionManager::new();
    cm.add_connection(100, 1);
    cm.add_connection(200, 2);
    cm.add_connection(300, 3);
    cm.update_match_id(100, Some(77));
    cm.update_match_id(200, Some(77));
    cm.update_match_id(300, Some(88));
    let mut bound = cm.get_connections_by_match(77);
    bound.sort();
    assert_eq!(bound, vec![100, 200]);
    cm.update_match_id(200, None);
    assert_eq!(cm.get_connections_by_match(77), vec![100]);
    assert!(cm.get_connections_by_match(99).is_empty());
}

#[test]
fn match_start_binds_the_connection() {
    let (mut cm, mut svc) = primed();
    cm.add_connection(100, 1);
    let res = handle_match_start(&mut cm, &mut svc, 100, "1v1", false).unwrap();
    assert_eq!(res.current_players, 1);
    let st = cm.get_connection(100).unwrap();
    assert_eq!(st.match_id, Some(res.match_id));
}

#[test]
fn match_start_needs_a_registered_connection() {
    let (mut cm, mut svc) = primed();
    let err = handle_match_start(&mut cm, &mut svc, 100, "1v1", false).unwrap_err();
    assert_eq!(err.code(), 1005);
    assert!(matches!(err, Error::ConnectionNotFound));
}

#[test]
fn match_start_reports_active_match_rejection() {
    let (mut cm, mut svc) = primed();
    cm.add_connection(100, 1);
    let err = handle_match_start(&mut cm, &mut svc, 100, "1v1", true).unwrap_err();
    assert!(matches!(err, Error::UserAlreadyInMatch));
    assert!(cm.get_connection(100).unwrap().match_id.is_none());
}

#[test]
fn cancel_unbinds_and_is_acknowledged_when_unbound() {
    let (mut cm, mut svc) = primed();
    cm.add_connection(100, 1);
    // No match bound yet: acknowledged, nothing changes.
    handle_match_cancel(&mut cm, &mut svc, 100).unwrap();
    let res = handle_match_start(&mut cm, &mut svc, 100, "1v1", false).unwrap();
    handle_match_cancel(&mut cm, &mut svc, 100).unwrap();
    assert!(cm.get_connection(100).unwrap().match_id.is_none());
    // The room the user left emptied out and was recycled: with the idle
    // buffer already at its minimum, it is no longer held in memory.
    assert!(matches!(
        svc.get_match_status(res.match_id).unwrap_err(),
        Error::MatchNotFound
    ));
}

#[test]
fn cancel_after_start_reports_match_already_started() {
    let (mut cm, mut svc) = primed();
    cm.add_connection(100, 1);
    cm.add_connection(200, 2);
    let res = handle_match_start(&mut cm, &mut svc, 100, "1v1", false).unwrap();
    handle_match_start(&mut cm, &mut svc, 200, "1v1", false).unwrap();
    let err = handle_match_cancel(&mut cm, &mut svc, 100).unwrap_err();
    assert!(matches!(err, Error::MatchAlreadyStarted));
    // The binding is kept when the leave is rejected.
    assert_eq!(cm.get_connection(100).unwrap().match_id, Some(res.match_id));
}

#[test]
fn ping_reports_in_progress_match_status() {
    let (mut cm, mut svc) = primed();
    cm.add_connection(100, 1);
    cm.add_connection(200, 2);
    let res = handle_match_start(&mut cm, &mut svc, 100, "1v1", false).unwrap();
    handle_match_start(&mut cm, &mut svc, 200, "1v1", false).unwrap();
    svc.prepare_start(res.match_id).unwrap();
    svc.mark_in_progress(res.match_id).unwrap();
    let status = handle_ping(&cm, &svc, 100).unwrap();
    assert_eq!(status, Some(RoomStatus::InProgress));
}

#[test]
fn ping_without_binding_and_without_connection() {
    let (mut cm, svc) = primed();
    cm.add_connection(100, 1);
    assert_eq!(handle_ping(&cm, &svc, 100).unwrap(), None);
    let err = handle_ping(&cm, &svc, 999).unwrap_err();
    assert!(matches!(err, Error::ConnectionNotFound));
}

#[test]
fn broadcast_targets_follow_bindings_through_a_match() {
    let (mut cm, mut svc) = primed();
    cm.add_connection(100, 1);
    cm.add_connection(200, 2);
    let res = handle_match_start(&mut cm, &mut svc, 100, "1v1", false).unwrap();
    handle_match_start(&mut cm, &mut svc, 200, "1v1", false).unwrap();
    let mut bound = cm.get_connections_by_match(res.match_id);
    bound.sort();
    assert_eq!(bound, vec![100, 200]);
    cm.remove_connection(200);
    assert_eq!(cm.get_connections_by_match(res.match_id), vec![100]);
}
