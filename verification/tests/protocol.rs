use match_gateway::error::Error;
use match_gateway::game::MatchType;
use match_gateway::handler::{error_reply, ok_reply, parse_command, CommandKind, ReplyData};
use match_gateway::service::bump_team_count;

#[test]
fn error_codes_are_stable() {
    assert_eq!(Error::AuthError.code(), 1001);
    assert_eq!(Error::InvalidMessage.code(), 1002);
    assert_eq!(Error::WsError(String::from("boom")).code(), 1003);
    assert_eq!(Error::DbError(String::from("down")).code(), 1004);
    assert_eq!(Error::ConnectionNotFound.code(), 1005);
    assert_eq!(Error::MatchNotFound.code(), 1006);
    assert_eq!(Error::InvalidMatchType.code(), 1007);
    assert_eq!(Error::MatchNotReady.code(), 1008);
    assert_eq!(Error::UserAlreadyInMatch.code(), 1009);
    assert_eq!(Error::MatchAlreadyStarted.code(), 1010);
}

#[test]
fn match_types_round_trip() {
    for tag in ["1v1", "2v2", "5v5"] {
        let mt = MatchType::from_str(tag).unwrap();
        assert_eq!(mt.to_str(), tag);
    }
    assert!(MatchType::from_str("4v4").is_none());
    assert!(MatchType::from_str("").is_none());
}

#[test]
fn capacities_follow_the_type() {
    assert_eq!(MatchType::OneVsOne.team_size(), 1);
    assert_eq!(MatchType::TwoVsTwo.team_size(), 2);
    assert_eq!(MatchType::FiveVsFive.team_size(), 5);
    assert_eq!(MatchType::OneVsOne.required_players(), 2);
    assert_eq!(MatchType::TwoVsTwo.required_players(), 4);
    assert_eq!(MatchType::FiveVsFive.required_players(), 10);
    assert_eq!(MatchType::OneVsOne.min_idle_rooms(), 5);
    assert_eq!(MatchType::TwoVsTwo.min_idle_rooms(), 3);
    assert_eq!(MatchType::FiveVsFive.min_idle_rooms(), 2);
}

#[test]
fn operation_names_dispatch() {
    assert_eq!(parse_command("match.start"), Some(CommandKind::MatchStart));
    assert_eq!(parse_command("match.cancel"), Some(CommandKind::MatchCancel));
    assert_eq!(parse_command("sys.ping"), Some(CommandKind::SysPing));
    assert_eq!(parse_command("match.begin"), None);
    assert_eq!(parse_command(""), None);
}

#[test]
fn replies_carry_codes_and_payloads() {
    let m = ok_reply(42, ReplyData::Cancelled);
    assert_eq!(m.msg_id, 42);
    assert_eq!(m.code, 0);
    assert!(matches!(m.data, Some(ReplyData::Cancelled)));
    assert!(m.error.is_none());

    let e = error_reply(43, Error::InvalidMessage);
    assert_eq!(e.msg_id, 43);
    assert_eq!(e.code, 1002);
    assert!(e.data.is_none());
    assert!(matches!(e.error, Some(Error::InvalidMessage)));
}

#[test]
fn team_count_is_clamped_at_capacity() {
    assert_eq!(bump_team_count(0, 2), 1);
    assert_eq!(bump_team_count(1, 2), 2);
    assert_eq!(bump_team_count(2, 2), 2);
    assert_eq!(bump_team_count(5, 2), 2);
}
