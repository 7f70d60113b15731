//! Data model of the matchmaking core: match types, the room lifecycle, and
//! the plain records exchanged with the persistence collaborator.
//!
//! User, room, team and connection identities are carried as `u128` values
//! (the integer form of the transport layer's 128-bit identifiers).

use vstd::prelude::*;

verus! {

/// The recognized match types; each fixes a team size and so a room capacity.
#[derive(Debug, Clone, Copy, PartialEq, Eq, Structural)]
pub enum MatchType {
    OneVsOne,
    TwoVsTwo,
    FiveVsFive,
}

/// Compares two string slices by their character sequences.
pub fn str_eq(a: &str, b: &str) -> (r: bool)
    ensures
        r == (a@ == b@),
{
    let x: String = a.to_owned();
    let y: String = b.to_owned();
    x == y
}

impl MatchType {
    pub open spec fn spec_team_size(&self) -> i32 {
        match self {
            MatchType::OneVsOne => 1,
            MatchType::TwoVsTwo => 2,
            MatchType::FiveVsFive => 5,
        }
    }

    /// How many players stand on each of the two teams.
    pub fn team_size(&self) -> (n: i32)
        ensures
            n == self.spec_team_size(),
    {
        match self {
            MatchType::OneVsOne => 1,
            MatchType::TwoVsTwo => 2,
            MatchType::FiveVsFive => 5,
        }
    }

    /// Total capacity of a room of this type: both teams together.
    pub open spec fn spec_required_players(&self) -> i32 {
        match self {
            MatchType::OneVsOne => 2,
            MatchType::TwoVsTwo => 4,
            MatchType::FiveVsFive => 10,
        }
    }

    pub fn required_players(&self) -> (n: i32)
        ensures
            n == self.spec_required_players(),
    {
        match self {
            MatchType::OneVsOne => 2,
            MatchType::TwoVsTwo => 4,
            MatchType::FiveVsFive => 10,
        }
    }

    /// The minimum number of idle rooms the registry keeps primed per type.
    pub open spec fn spec_min_idle_rooms(&self) -> usize {
        match self {
            MatchType::OneVsOne => 5,
            MatchType::TwoVsTwo => 3,
            MatchType::FiveVsFive => 2,
        }
    }

    pub fn min_idle_rooms(&self) -> (n: usize)
        ensures
            n == self.spec_min_idle_rooms(),
    {
        match self {
            MatchType::OneVsOne => 5,
            MatchType::TwoVsTwo => 3,
            MatchType::FiveVsFive => 2,
        }
    }

    pub open spec fn spec_from_str(s: Seq<char>) -> Option<MatchType> {
        if s == "1v1"@ {
            Some(MatchType::OneVsOne)
        } else if s == "2v2"@ {
            Some(MatchType::TwoVsTwo)
        } else if s == "5v5"@ {
            Some(MatchType::FiveVsFive)
        } else {
            None
        }
    }

    /// Parses a match-type tag; unrecognized tags yield `None`.
    pub fn from_str(s: &str) -> (r: Option<MatchType>)
        ensures
            r == Self::spec_from_str(s@),
    {
        if str_eq(s, "1v1") {
            Some(MatchType::OneVsOne)
        } else if str_eq(s, "2v2") {
            Some(MatchType::TwoVsTwo)
        } else if str_eq(s, "5v5") {
            Some(MatchType::FiveVsFive)
        } else {
            None
        }
    }

    pub open spec fn spec_to_str(&self) -> Seq<char> {
        match self {
            MatchType::OneVsOne => "1v1"@,
            MatchType::TwoVsTwo => "2v2"@,
            MatchType::FiveVsFive => "5v5"@,
        }
    }

    pub fn to_str(&self) -> (r: &'static str)
        ensures
            r@ == self.spec_to_str(),
    {
        match self {
            MatchType::OneVsOne => "1v1",
            MatchType::TwoVsTwo => "2v2",
            MatchType::FiveVsFive => "5v5",
        }
    }
}

/// Lifecycle of a room. Transitions are monotone:
/// `Matching -> Ready -> InProgress -> Finished`, never backward.
#[derive(Debug, Clone, Copy, PartialEq, Eq, Structural)]
pub enum RoomStatus {
    Matching,
    Ready,
    InProgress,
    Finished,
}

/// One match instance held in memory: identity, capacity, roster, lifecycle.
#[derive(Debug)]
pub struct MatchRoom {
    pub id: u128,
    pub required_players: i32,
    pub current_players: i32,
    pub players: Vec<u128>,
    pub status: RoomStatus,
}

/// Mathematical shape of a room: the occupied-seat count is kept implicit,
/// it always equals the roster length.
#[verifier::ext_equal]
pub ghost struct RoomModel {
    pub id: u128,
    pub required: int,
    pub players: Seq<u128>,
    pub status: RoomStatus,
}

impl View for MatchRoom {
    type V = RoomModel;

    open spec fn view(&self) -> RoomModel {
        RoomModel {
            id: self.id,
            required: self.required_players as int,
            players: self.players@,
            status: self.status,
        }
    }
}

/// Well-formedness of a room model: the roster fits the capacity and holds
/// no user twice; a room past `Matching` is exactly full, one still
/// `Matching` still has a free seat.
pub open spec fn room_model_wf(r: RoomModel) -> bool {
    &&& 2 <= r.required
    &&& r.players.len() <= r.required
    &&& r.players.no_duplicates()
    &&& (r.status == RoomStatus::Matching ==> r.players.len() < r.required)
    &&& (r.status != RoomStatus::Matching ==> r.players.len() == r.required)
}

impl MatchRoom {
    /// Well-formedness of the in-memory room: the stored seat count agrees
    /// with the roster, which in turn is a well-formed room model.
    pub open spec fn wf(&self) -> bool {
        &&& self.current_players as int == self.players@.len()
        &&& room_model_wf(self@)
    }

    /// A fresh, empty room of the given capacity.
    pub fn new_room(id: u128, required_players: i32) -> (r: MatchRoom)
        requires
            2 <= required_players,
        ensures
            r.wf(),
            r@ == (RoomModel {
                id,
                required: required_players as int,
                players: Seq::<u128>::empty(),
                status: RoomStatus::Matching,
            }),
    {
        MatchRoom {
            id,
            required_players,
            current_players: 0,
            players: Vec::new(),
            status: RoomStatus::Matching,
        }
    }
}

/// Snapshot of a room handed back from a join: a copy, never a live view.
#[derive(Debug, Clone, Copy, PartialEq, Eq, Structural)]
pub struct MatchResult {
    pub match_id: u128,
    pub status: RoomStatus,
    pub match_type: MatchType,
    pub current_players: i32,
    pub required_players: i32,
}

/// A team member as recorded by the persistence collaborator.
#[derive(Debug, Clone)]
pub struct MatchMember {
    pub user_id: u128,
    pub score: i32,
}

/// A team as recorded by the persistence collaborator.
#[derive(Debug, Clone)]
pub struct MatchTeam {
    pub id: u128,
    pub team_number: i32,
    pub members: Vec<MatchMember>,
    pub total_score: i32,
}

/// A member row of a durable match projection, with profile data.
#[derive(Debug, Clone)]
pub struct MemberDetails {
    pub user_id: u128,
    pub nickname: String,
    pub avatar_url: String,
    pub score: i32,
}

/// A team row of a durable match projection.
#[derive(Debug, Clone)]
pub struct TeamDetails {
    pub id: u128,
    pub team_number: i32,
    pub members: Vec<MemberDetails>,
    pub total_score: i32,
}

/// Durable projection of a whole match. Instants are unix seconds; the
/// duration is in seconds as well.
#[derive(Debug, Clone)]
pub struct MatchDetails {
    pub id: u128,
    pub match_type: String,
    pub status: String,
    pub start_time: Option<i64>,
    pub teams: Vec<TeamDetails>,
    pub duration: Option<u64>,
}

/// One scoring event: a user of a team found a treasure worth `score`.
#[derive(Debug, Clone)]
pub struct TreasureDiscovery {
    pub match_id: u128,
    pub team_id: u128,
    pub user_id: u128,
    pub treasure_id: u128,
    pub score: i32,
}

} // verus!
