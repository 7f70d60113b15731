//! Error kinds shared by the matchmaking core, each with a stable numeric
//! code that the gateway reports to clients.

use vstd::prelude::*;

verus! {

/// Everything that can go wrong while serving a client of the gateway.
/// Transport and store failures carry the collaborator's own description.
#[derive(Debug, Clone)]
pub enum Error {
    AuthError,
    InvalidMessage,
    WsError(String),
    DbError(String),
    ConnectionNotFound,
    MatchNotFound,
    InvalidMatchType,
    MatchNotReady,
    UserAlreadyInMatch,
    MatchAlreadyStarted,
}

impl Error {
    /// The stable numeric code of each error kind, as sent on the wire.
    pub open spec fn spec_code(&self) -> i32 {
        match self {
            Error::AuthError => 1001,
            Error::InvalidMessage => 1002,
            Error::WsError(_) => 1003,
            Error::DbError(_) => 1004,
            Error::ConnectionNotFound => 1005,
            Error::MatchNotFound => 1006,
            Error::InvalidMatchType => 1007,
            Error::MatchNotReady => 1008,
            Error::UserAlreadyInMatch => 1009,
            Error::MatchAlreadyStarted => 1010,
        }
    }

    pub fn code(&self) -> (c: i32)
        ensures
            c == self.spec_code(),
    {
        match self {
            Error::AuthError => 1001,
            Error::InvalidMessage => 1002,
            Error::WsError(_) => 1003,
            Error::DbError(_) => 1004,
            Error::ConnectionNotFound => 1005,
            Error::MatchNotFound => 1006,
            Error::InvalidMatchType => 1007,
            Error::MatchNotReady => 1008,
            Error::UserAlreadyInMatch => 1009,
            Error::MatchAlreadyStarted => 1010,
        }
    }
}

} // verus!
