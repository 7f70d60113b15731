//! Per-connection protocol dispatch: decoding operation names, the three
//! recognized operations, and the typed outbound messages. The transport
//! shell decodes frames to plain values, calls these handlers, and encodes
//! the replies.

use vstd::prelude::*;
use crate::connections::{ClientState, ConnectionManager, conn_lookup};
use crate::error::Error;
use crate::game::{MatchResult, MatchType, RoomStatus, str_eq};
use crate::service::{
    MatchService, has_room, join_ok_shape, leave_ok_shape, pools_idle_ok,
};

verus! {

/// The recognized inbound operations.
#[derive(Debug, Clone, Copy, PartialEq, Eq, Structural)]
pub enum CommandKind {
    MatchStart,
    MatchCancel,
    SysPing,
}

pub open spec fn spec_parse_command(s: Seq<char>) -> Option<CommandKind> {
    if s == "match.start"@ {
        Some(CommandKind::MatchStart)
    } else if s == "match.cancel"@ {
        Some(CommandKind::MatchCancel)
    } else if s == "sys.ping"@ {
        Some(CommandKind::SysPing)
    } else {
        None
    }
}

/// Maps an operation name to its command; unrecognized names yield `None`,
/// which the session reports as an invalid message.
pub fn parse_command(cmd: &str) -> (r: Option<CommandKind>)
    ensures
        r == spec_parse_command(cmd@),
{
    if str_eq(cmd, "match.start") {
        Some(CommandKind::MatchStart)
    } else if str_eq(cmd, "match.cancel") {
        Some(CommandKind::MatchCancel)
    } else if str_eq(cmd, "sys.ping") {
        Some(CommandKind::SysPing)
    } else {
        None
    }
}

/// Typed outbound payloads, one variant per kind of reply.
#[derive(Debug, Clone, Copy, PartialEq, Eq, Structural)]
pub enum ReplyData {
    Welcome { conn_id: u128 },
    Snapshot(MatchResult),
    Cancelled,
    Pong { match_status: Option<RoomStatus> },
    MatchUpdate(MatchResult),
}

/// One outbound message: the echoed (or fresh) correlation id, a status
/// code (0 for success), and either a payload or the error reported.
#[derive(Debug, Clone)]
pub struct ServerMessage {
    pub msg_id: u128,
    pub code: i32,
    pub data: Option<ReplyData>,
    pub error: Option<Error>,
}

/// A success reply carrying `data`.
pub fn ok_reply(msg_id: u128, data: ReplyData) -> (m: ServerMessage)
    ensures
        m.msg_id == msg_id,
        m.code == 0,
        m.data == Some(data),
        m.error is None,
{
    ServerMessage { msg_id, code: 0, data: Some(data), error: None }
}

/// An error reply carrying the error's stable code.
pub fn error_reply(msg_id: u128, e: Error) -> (m: ServerMessage)
    ensures
        m.msg_id == msg_id,
        m.code == e.spec_code(),
        m.data is None,
        m.error == Some(e),
{
    let code = e.code();
    ServerMessage { msg_id, code, data: None, error: Some(e) }
}

/// The `match.start` operation: joins the connection's user into the named
/// pool and, on success, binds the connection to the room joined so that
/// broadcasts reach it.
///
/// `user_in_active_match` is the persistence collaborator's verdict on the
/// user, obtained by the caller before dispatch.
pub fn handle_match_start(
    conn_mgr: &mut ConnectionManager,
    svc: &mut MatchService,
    conn_id: u128,
    match_type: &str,
    user_in_active_match: bool,
) -> (r: Result<MatchResult, Error>)
    requires
        old(conn_mgr).wf(),
        old(svc).wf(),
    ensures
        final(conn_mgr).wf(),
        final(svc).wf(),
        pools_idle_ok(old(svc)@) ==> pools_idle_ok(final(svc)@),
        match r {
            Result::Err(Error::ConnectionNotFound) => {
                &&& conn_lookup(old(conn_mgr)@, conn_id) is None
                &&& final(conn_mgr)@ == old(conn_mgr)@
                &&& final(svc)@ == old(svc)@
            },
            Result::Err(Error::UserAlreadyInMatch) => {
                &&& conn_lookup(old(conn_mgr)@, conn_id) is Some
                &&& user_in_active_match
                &&& final(conn_mgr)@ == old(conn_mgr)@
                &&& final(svc)@ == old(svc)@
            },
            Result::Err(Error::InvalidMatchType) => {
                &&& conn_lookup(old(conn_mgr)@, conn_id) is Some
                &&& !user_in_active_match
                &&& MatchType::spec_from_str(match_type@) is None
                &&& final(conn_mgr)@ == old(conn_mgr)@
                &&& final(svc)@ == old(svc)@
            },
            Result::Ok(res) => {
                &&& conn_lookup(old(conn_mgr)@, conn_id) is Some
                &&& !user_in_active_match
                &&& MatchType::spec_from_str(match_type@) is Some
                &&& exists|nid: u128, tids: Seq<u128>|
                    join_ok_shape(
                        old(svc)@,
                        final(svc)@,
                        conn_lookup(old(conn_mgr)@, conn_id)->Some_0.user_id,
                        MatchType::spec_from_str(match_type@)->Some_0,
                        nid,
                        tids,
                        res,
                    )
                &&& conn_lookup(final(conn_mgr)@, conn_id) == Some(
                    ClientState {
                        user_id: conn_lookup(old(conn_mgr)@, conn_id)->Some_0.user_id,
                        match_id: Some(res.match_id),
                    },
                )
                &&& forall|c: u128|
                    c != conn_id ==> conn_lookup(final(conn_mgr)@, c) == conn_lookup(
                        old(conn_mgr)@,
                        c,
                    )
            },
            _ => false,
        },
{
    let st = match conn_mgr.get_connection(conn_id) {
        Some(st) => st,
        None => {
            return Err(Error::ConnectionNotFound);
        },
    };
    match svc.join_match(st.user_id, match_type, user_in_active_match) {
        Ok(res) => {
            conn_mgr.update_match_id(conn_id, Some(res.match_id));
            Ok(res)
        },
        Err(e) => Err(e),
    }
}

/// The `match.cancel` operation: if the connection is bound to a match,
/// takes its user out of the room and clears the binding; a connection
/// with no bound match is acknowledged unchanged.
pub fn handle_match_cancel(
    conn_mgr: &mut ConnectionManager,
    svc: &mut MatchService,
    conn_id: u128,
) -> (r: Result<(), Error>)
    requires
        old(conn_mgr).wf(),
        old(svc).wf(),
    ensures
        final(conn_mgr).wf(),
        final(svc).wf(),
        pools_idle_ok(old(svc)@) ==> pools_idle_ok(final(svc)@),
        match r {
            Result::Err(Error::ConnectionNotFound) => {
                &&& conn_lookup(old(conn_mgr)@, conn_id) is None
                &&& final(conn_mgr)@ == old(conn_mgr)@
                &&& final(svc)@ == old(svc)@
            },
            Result::Ok(()) => {
                &&& conn_lookup(old(conn_mgr)@, conn_id) is Some
                &&& {
                    let st = conn_lookup(old(conn_mgr)@, conn_id)->Some_0;
                    match st.match_id {
                        None => {
                            &&& final(conn_mgr)@ == old(conn_mgr)@
                            &&& final(svc)@ == old(svc)@
                        },
                        Some(mid) => {
                            &&& exists|k: int, i: int|
                                leave_ok_shape(
                                    old(svc)@,
                                    final(svc)@,
                                    st.user_id,
                                    mid,
                                    k,
                                    i,
                                )
                            &&& conn_lookup(final(conn_mgr)@, conn_id) == Some(
                                ClientState { user_id: st.user_id, match_id: None::<u128> },
                            )
                            &&& forall|c: u128|
                                c != conn_id ==> conn_lookup(final(conn_mgr)@, c)
                                    == conn_lookup(old(conn_mgr)@, c)
                        },
                    }
                }
            },
            Result::Err(Error::MatchAlreadyStarted) => {
                &&& conn_lookup(old(conn_mgr)@, conn_id) is Some
                &&& conn_lookup(old(conn_mgr)@, conn_id)->Some_0.match_id is Some
                &&& final(conn_mgr)@ == old(conn_mgr)@
                &&& final(svc)@ == old(svc)@
            },
            Result::Err(Error::MatchNotFound) => {
                &&& conn_lookup(old(conn_mgr)@, conn_id) is Some
                &&& conn_lookup(old(conn_mgr)@, conn_id)->Some_0.match_id is Some
                &&& !has_room(
                    old(svc)@,
                    conn_lookup(old(conn_mgr)@, conn_id)->Some_0.match_id->Some_0,
                )
                &&& final(conn_mgr)@ == old(conn_mgr)@
                &&& final(svc)@ == old(svc)@
            },
            _ => false,
        },
{
    let st = match conn_mgr.get_connection(conn_id) {
        Some(st) => st,
        None => {
            return Err(Error::ConnectionNotFound);
        },
    };
    match st.match_id {
        None => Ok(()),
        Some(mid) => {
            match svc.leave_match(st.user_id, mid) {
                Ok(()) => {
                    conn_mgr.update_match_id(conn_id, None);
                    Ok(())
                },
                Err(e) => Err(e),
            }
        },
    }
}

/// The `sys.ping` operation: reports the current status of the match the
/// connection is bound to, if any. The transport shell adds the timestamp.
pub fn handle_ping(
    conn_mgr: &ConnectionManager,
    svc: &MatchService,
    conn_id: u128,
) -> (r: Result<Option<RoomStatus>, Error>)
    ensures
        match r {
            Result::Err(Error::ConnectionNotFound) => conn_lookup(conn_mgr@, conn_id) is None,
            Result::Ok(opt) => {
                &&& conn_lookup(conn_mgr@, conn_id) is Some
                &&& {
                    let st = conn_lookup(conn_mgr@, conn_id)->Some_0;
                    match opt {
                        None => st.match_id is None,
                        Some(s) => st.match_id is Some && exists|k: int, i: int|
                            {
                                &&& 0 <= k < svc@.len()
                                &&& 0 <= i < svc@[k].rooms.len()
                                &&& svc@[k].rooms[i].id == st.match_id->Some_0
                                &&& svc@[k].rooms[i].status == s
                            },
                    }
                }
            },
            Result::Err(Error::MatchNotFound) => {
                &&& conn_lookup(conn_mgr@, conn_id) is Some
                &&& conn_lookup(conn_mgr@, conn_id)->Some_0.match_id is Some
                &&& !has_room(svc@, conn_lookup(conn_mgr@, conn_id)->Some_0.match_id->Some_0)
            },
            _ => false,
        },
{
    let st = match conn_mgr.get_connection(conn_id) {
        Some(st) => st,
        None => {
            return Err(Error::ConnectionNotFound);
        },
    };
    match st.match_id {
        None => Ok(None),
        Some(mid) => {
            match svc.get_match_status(mid) {
                Ok(s) => Ok(Some(s)),
                Err(e) => Err(e),
            }
        },
    }
}

} // verus!
