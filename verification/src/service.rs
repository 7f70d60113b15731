//! The match-pool registry and room lifecycle: admission into rooms
//! (first-fit), leaving, the minimum-idle-room policy, the transition to
//! in-progress, removal at match end, and the team split prepared for the
//! persistence collaborator.

use vstd::prelude::*;
use crate::error::Error;
use crate::game::{MatchResult, MatchRoom, MatchType, RoomModel, RoomStatus, room_model_wf};
use crate::random::{fresh_id, shuffle_ids};

verus! {

/// All rooms of one match type, in insertion order.
#[derive(Debug)]
pub struct MatchPool {
    pub match_type: MatchType,
    pub rooms: Vec<MatchRoom>,
}

/// Mathematical shape of a pool.
#[verifier::ext_equal]
pub ghost struct PoolModel {
    pub match_type: MatchType,
    pub rooms: Seq<RoomModel>,
}

impl View for MatchPool {
    type V = PoolModel;

    open spec fn view(&self) -> PoolModel {
        PoolModel {
            match_type: self.match_type,
            rooms: self.rooms@.map_values(|r: MatchRoom| r@),
        }
    }
}

/// Which pool serves each match type: the registry keeps one pool per
/// recognized type, in a fixed order.
pub open spec fn pool_index_of_type(mt: MatchType) -> int {
    match mt {
        MatchType::OneVsOne => 0,
        MatchType::TwoVsTwo => 1,
        MatchType::FiveVsFive => 2,
    }
}

/// An idle room: empty and still matching, ready for immediate admission.
pub open spec fn is_idle_room(r: RoomModel) -> bool {
    r.status == RoomStatus::Matching && r.players.len() == 0
}

/// How many rooms of the pool are idle.
pub open spec fn count_idle(rooms: Seq<RoomModel>) -> int
    decreases rooms.len(),
{
    if rooms.len() == 0 {
        0
    } else {
        count_idle(rooms.drop_last()) + if is_idle_room(rooms.last()) {
            1int
        } else {
            0int
        }
    }
}

/// Every room of the pool is well formed and sized for the pool's type.
pub open spec fn pool_model_wf(p: PoolModel) -> bool {
    forall|i: int|
        0 <= i < p.rooms.len() ==> room_model_wf(#[trigger] p.rooms[i]) && p.rooms[i].required
            == p.match_type.spec_required_players() as int
}

/// The registry holds exactly one pool per match type, each well formed.
pub open spec fn pools_model_wf(pools: Seq<PoolModel>) -> bool {
    &&& pools.len() == 3
    &&& (forall|k: int| 0 <= k < pools.len() ==> pool_model_wf(#[trigger] pools[k]))
    &&& pools[0].match_type == MatchType::OneVsOne
    &&& pools[1].match_type == MatchType::TwoVsTwo
    &&& pools[2].match_type == MatchType::FiveVsFive
}

/// The admission buffer: every pool keeps at least its configured minimum
/// of idle rooms.
pub open spec fn pools_idle_ok(pools: Seq<PoolModel>) -> bool {
    forall|k: int|
        0 <= k < pools.len() ==> count_idle(#[trigger] pools[k].rooms)
            >= pools[k].match_type.spec_min_idle_rooms() as int
}

proof fn lemma_count_idle_nonneg(rooms: Seq<RoomModel>)
    ensures
        0 <= count_idle(rooms) <= rooms.len(),
    decreases rooms.len(),
{
    if rooms.len() > 0 {
        lemma_count_idle_nonneg(rooms.drop_last());
    }
}

proof fn lemma_count_idle_push(rooms: Seq<RoomModel>, r: RoomModel)
    ensures
        count_idle(rooms.push(r)) == count_idle(rooms) + if is_idle_room(r) {
            1int
        } else {
            0int
        },
{
    assert(rooms.push(r).drop_last() =~= rooms);
    assert(rooms.push(r).last() == r);
}

proof fn lemma_count_idle_update(rooms: Seq<RoomModel>, i: int, r: RoomModel)
    requires
        0 <= i < rooms.len(),
    ensures
        count_idle(rooms.update(i, r)) == count_idle(rooms) - (if is_idle_room(rooms[i]) {
            1int
        } else {
            0int
        }) + (if is_idle_room(r) {
            1int
        } else {
            0int
        }),
    decreases rooms.len(),
{
    let b = rooms.update(i, r);
    if i == rooms.len() - 1 {
        assert(b.drop_last() =~= rooms.drop_last());
        assert(b.last() == r);
    } else {
        assert(b.drop_last() =~= rooms.drop_last().update(i, r));
        assert(b.last() == rooms.last());
        lemma_count_idle_update(rooms.drop_last(), i, r);
    }
}

proof fn lemma_count_idle_remove(rooms: Seq<RoomModel>, i: int)
    requires
        0 <= i < rooms.len(),
    ensures
        count_idle(rooms.remove(i)) == count_idle(rooms) - if is_idle_room(rooms[i]) {
            1int
        } else {
            0int
        },
    decreases rooms.len(),
{
    let b = rooms.remove(i);
    if i == rooms.len() - 1 {
        assert(b =~= rooms.drop_last());
    } else {
        assert(b.drop_last() =~= rooms.drop_last().remove(i));
        assert(b.last() == rooms.last());
        lemma_count_idle_remove(rooms.drop_last(), i);
    }
}

/// The match-pool registry. All admission, departure and lifecycle
/// transitions go through it; callers serialize access from outside.
#[derive(Debug)]
pub struct MatchService {
    pools: Vec<MatchPool>,
}

impl View for MatchService {
    type V = Seq<PoolModel>;

    closed spec fn view(&self) -> Seq<PoolModel> {
        self.pools@.map_values(|p: MatchPool| p@)
    }
}

impl MatchService {
    /// The stored seat counters agree with the rosters.
    pub closed spec fn counts_ok(&self) -> bool {
        forall|k: int, i: int|
            0 <= k < self.pools@.len() && 0 <= i < self.pools@[k].rooms@.len()
                ==> (#[trigger] self.pools@[k].rooms@[i]).wf()
    }

    /// Well-formedness of the whole registry.
    pub open spec fn wf(&self) -> bool {
        &&& self.counts_ok()
        &&& pools_model_wf(self@)
    }

    /// A registry with one empty pool per recognized match type. The idle
    /// buffers are primed by `initialize_pools`.
    pub fn new() -> (r: MatchService)
        ensures
            r.wf(),
            r@.len() == 3,
            forall|k: int| 0 <= k < 3 ==> (#[trigger] r@[k]).rooms.len() == 0,
    {
        let mut pools: Vec<MatchPool> = Vec::new();
        pools.push(MatchPool { match_type: MatchType::OneVsOne, rooms: Vec::new() });
        pools.push(MatchPool { match_type: MatchType::TwoVsTwo, rooms: Vec::new() });
        pools.push(MatchPool { match_type: MatchType::FiveVsFive, rooms: Vec::new() });
        let r = MatchService { pools };
        proof {
            assert(r@.len() == 3);
            assert(r@[0] == r.pools@[0]@);
            assert(r@[1] == r.pools@[1]@);
            assert(r@[2] == r.pools@[2]@);
            assert(forall|k: int|
                0 <= k < 3 ==> (#[trigger] r@[k]).rooms.len() == 0);
        }
        r
    }
}

/// The mathematical shape of a room list.
pub open spec fn rooms_model(rooms: Seq<MatchRoom>) -> Seq<RoomModel> {
    rooms.map_values(|r: MatchRoom| r@)
}

/// Replaces the room list of pool `k`, keeping its type.
pub open spec fn pool_update(pools: Seq<PoolModel>, k: int, rooms: Seq<RoomModel>) -> Seq<
    PoolModel,
> {
    pools.update(k, PoolModel { match_type: pools[k].match_type, rooms })
}

/// A room a joining user may be seated in: still matching, a free seat,
/// and the user not already on the roster.
pub open spec fn room_eligible(r: RoomModel, user: u128) -> bool {
    &&& r.status == RoomStatus::Matching
    &&& r.players.len() < r.required
    &&& !r.players.contains(user)
}

/// The first room a join scans to (first-fit, pool insertion order), or -1.
pub open spec fn first_eligible(rooms: Seq<RoomModel>, user: u128) -> int
    decreases rooms.len(),
{
    if rooms.len() == 0 {
        -1
    } else if room_eligible(rooms[0], user) {
        0
    } else {
        let r = first_eligible(rooms.skip(1), user);
        if r < 0 {
            -1
        } else {
            r + 1
        }
    }
}

/// The room after a user is seated: the roster grows by one, and a room
/// that just filled turns `Ready`.
pub open spec fn joined_room_model(r: RoomModel, user: u128) -> RoomModel {
    RoomModel {
        id: r.id,
        required: r.required,
        players: r.players.push(user),
        status: if r.players.len() + 1 == r.required {
            RoomStatus::Ready
        } else {
            RoomStatus::Matching
        },
    }
}

/// A fresh, empty room.
pub open spec fn empty_room_model(id: u128, required: int) -> RoomModel {
    RoomModel { id, required, players: Seq::<u128>::empty(), status: RoomStatus::Matching }
}

/// A pool's rooms after one join: the first eligible room gains the user,
/// or a fresh room with the user alone is appended.
pub open spec fn pool_rooms_after_join(
    rooms: Seq<RoomModel>,
    user: u128,
    required: int,
    new_id: u128,
) -> Seq<RoomModel> {
    let i = first_eligible(rooms, user);
    if i >= 0 {
        rooms.update(i, joined_room_model(rooms[i], user))
    } else {
        rooms.push(
            RoomModel { id: new_id, required, players: seq![user], status: RoomStatus::Matching },
        )
    }
}

/// The snapshot a join hands back, a copy of the room it seated the user in.
pub open spec fn join_snapshot(
    rooms: Seq<RoomModel>,
    user: u128,
    mt: MatchType,
    new_id: u128,
) -> MatchResult {
    let i = first_eligible(rooms, user);
    if i >= 0 {
        MatchResult {
            match_id: rooms[i].id,
            status: joined_room_model(rooms[i], user).status,
            match_type: mt,
            current_players: (rooms[i].players.len() + 1) as i32,
            required_players: mt.spec_required_players(),
        }
    } else {
        MatchResult {
            match_id: new_id,
            status: RoomStatus::Matching,
            match_type: mt,
            current_players: 1,
            required_players: mt.spec_required_players(),
        }
    }
}

/// Appends fresh idle rooms, one identifier at a time, until the pool holds
/// at least `min` idle rooms or the identifiers run out.
pub open spec fn top_up(rooms: Seq<RoomModel>, required: int, min: int, ids: Seq<u128>) -> Seq<
    RoomModel,
>
    decreases ids.len(),
{
    if count_idle(rooms) >= min || ids.len() == 0 {
        rooms
    } else {
        top_up(rooms.push(empty_room_model(ids[0], required)), required, min, ids.skip(1))
    }
}

/// The whole change one successful join makes: pool `k` of the joined type
/// gains the user (and any priming rooms); every other pool is untouched.
pub open spec fn join_ok_shape(
    pre: Seq<PoolModel>,
    post: Seq<PoolModel>,
    user: u128,
    mt: MatchType,
    new_id: u128,
    tids: Seq<u128>,
    res: MatchResult,
) -> bool {
    let k = pool_index_of_type(mt);
    let req = mt.spec_required_players() as int;
    let min = mt.spec_min_idle_rooms() as int;
    &&& post == pool_update(
        pre,
        k,
        top_up(pool_rooms_after_join(pre[k].rooms, user, req, new_id), req, min, tids),
    )
    &&& res == join_snapshot(pre[k].rooms, user, mt, new_id)
}

proof fn lemma_first_eligible_found(rooms: Seq<RoomModel>, user: u128, i: int)
    requires
        0 <= i < rooms.len(),
        room_eligible(rooms[i], user),
        forall|j: int| 0 <= j < i ==> !room_eligible(#[trigger] rooms[j], user),
    ensures
        first_eligible(rooms, user) == i,
    decreases i,
{
    if i > 0 {
        let t = rooms.skip(1);
        assert(t[i - 1] == rooms[i]);
        assert forall|j: int| 0 <= j < i - 1 implies !room_eligible(#[trigger] t[j], user) by {
            assert(t[j] == rooms[j + 1]);
        }
        lemma_first_eligible_found(t, user, i - 1);
    }
}

proof fn lemma_first_eligible_none(rooms: Seq<RoomModel>, user: u128)
    requires
        forall|j: int| 0 <= j < rooms.len() ==> !room_eligible(#[trigger] rooms[j], user),
    ensures
        first_eligible(rooms, user) == -1,
    decreases rooms.len(),
{
    if rooms.len() > 0 {
        let t = rooms.skip(1);
        assert forall|j: int| 0 <= j < t.len() implies !room_eligible(#[trigger] t[j], user) by {
            assert(t[j] == rooms[j + 1]);
        }
        lemma_first_eligible_none(t, user);
    }
}

proof fn lemma_first_eligible_props(rooms: Seq<RoomModel>, user: u128)
    ensures
        first_eligible(rooms, user) >= 0 ==> {
            &&& first_eligible(rooms, user) < rooms.len()
            &&& room_eligible(rooms[first_eligible(rooms, user)], user)
            &&& forall|j: int|
                0 <= j < first_eligible(rooms, user) ==> !room_eligible(
                    #[trigger] rooms[j],
                    user,
                )
        },
        first_eligible(rooms, user) < 0 ==> forall|j: int|
            0 <= j < rooms.len() ==> !room_eligible(#[trigger] rooms[j], user),
    decreases rooms.len(),
{
    if rooms.len() > 0 && !room_eligible(rooms[0], user) {
        let t = rooms.skip(1);
        lemma_first_eligible_props(t, user);
        let f = first_eligible(rooms, user);
        if f >= 0 {
            assert(rooms[f] == t[f - 1]);
            assert forall|j: int| 0 <= j < f implies !room_eligible(
                #[trigger] rooms[j],
                user,
            ) by {
                if j > 0 {
                    assert(t[j - 1] == rooms[j]);
                }
            }
        } else {
            assert forall|j: int| 0 <= j < rooms.len() implies !room_eligible(
                #[trigger] rooms[j],
                user,
            ) by {
                if j > 0 {
                    assert(t[j - 1] == rooms[j]);
                }
            }
        }
    }
}

/// A roster that did not hold the newcomer stays free of duplicates.
proof fn lemma_no_dup_push(s: Seq<u128>, x: u128)
    requires
        s.no_duplicates(),
        !s.contains(x),
    ensures
        s.push(x).no_duplicates(),
{
    let b = s.push(x);
    assert forall|i: int, j: int| 0 <= i < j < b.len() implies b[i] != b[j] by {
        if j == s.len() {
            assert(b[i] == s[i]);
            if s[i] == x {
                assert(s.contains(x));
            }
        }
    }
}

/// What topping a pool up does: the old rooms stay in place, every appended
/// room is idle and well formed, and with enough identifiers on hand the
/// idle count reaches the minimum.
proof fn lemma_top_up_props(rooms: Seq<RoomModel>, required: int, min: int, ids: Seq<u128>)
    requires
        2 <= required,
    ensures
        ({
            let res = top_up(rooms, required, min, ids);
            &&& res.len() >= rooms.len()
            &&& res.take(rooms.len() as int) == rooms
            &&& forall|j: int|
                rooms.len() <= j < res.len() ==> is_idle_room(#[trigger] res[j])
                    && room_model_wf(res[j]) && res[j].required == required
            &&& count_idle(res) >= count_idle(rooms)
            &&& count_idle(rooms) + ids.len() >= min ==> count_idle(res) >= min
        }),
    decreases ids.len(),
{
    let res = top_up(rooms, required, min, ids);
    if count_idle(rooms) >= min || ids.len() == 0 {
        assert(res.take(rooms.len() as int) =~= rooms);
    } else {
        let r0 = empty_room_model(ids[0], required);
        let next = rooms.push(r0);
        lemma_count_idle_push(rooms, r0);
        lemma_top_up_props(next, required, min, ids.skip(1));
        assert(res == top_up(next, required, min, ids.skip(1)));
        assert(next.take(rooms.len() as int) =~= rooms);
        assert forall|j: int| 0 <= j < rooms.len() implies res[j] == rooms[j] by {
            assert(res.take(next.len() as int)[j] == res[j]);
            assert(next[j] == rooms[j]);
        }
        assert(res.take(rooms.len() as int) =~= rooms);
        assert forall|j: int|
            rooms.len() <= j < res.len() implies is_idle_room(#[trigger] res[j])
                && room_model_wf(res[j]) && res[j].required == required by {
            if j < next.len() {
                assert(res.take(next.len() as int)[j] == res[j]);
                assert(res[j] == next[j]);
                assert(next[j] == r0);
            }
        }
    }
}

/// True when `v` holds `x`.
fn roster_contains(v: &Vec<u128>, x: u128) -> (r: bool)
    ensures
        r == v@.contains(x),
{
    let n = v.len();
    let mut i: usize = 0;
    while i < n
        invariant
            i <= n,
            n == v@.len(),
            forall|j: int| 0 <= j < i ==> v@[j] != x,
        decreases n - i,
    {
        if v[i] == x {
            return true;
        }
        i = i + 1;
    }
    false
}

/// Counts the idle rooms of a pool.
fn count_idle_rooms(rooms: &Vec<MatchRoom>) -> (c: usize)
    ensures
        c == count_idle(rooms@.map_values(|r: MatchRoom| r@)),
{
    let ghost model = rooms@.map_values(|r: MatchRoom| r@);
    let n = rooms.len();
    let mut c: usize = 0;
    let mut i: usize = 0;
    while i < n
        invariant
            i <= n,
            n == rooms@.len(),
            model == rooms@.map_values(|r: MatchRoom| r@),
            c == count_idle(model.take(i as int)),
            c <= i,
        decreases n - i,
    {
        proof {
            assert(model.take(i + 1).drop_last() =~= model.take(i as int));
            assert(model.take(i + 1).last() == model[i as int]);
            assert(model[i as int] == rooms@[i as int]@);
            lemma_count_idle_nonneg(model.take(i as int));
        }
        let idle = {
            let room = &rooms[i];
            let status_matching = room.status == RoomStatus::Matching;
            status_matching && room.players.len() == 0
        };
        if idle {
            c = c + 1;
        }
        i = i + 1;
    }
    proof {
        assert(model.take(n as int) =~= model);
    }
    c
}

/// Scans the pool in insertion order for the first room the user fits in.
fn find_eligible_room(rooms: &Vec<MatchRoom>, user_id: u128) -> (r: Option<usize>)
    requires
        forall|i: int| 0 <= i < rooms@.len() ==> (#[trigger] rooms@[i]).wf(),
    ensures
        match r {
            Some(i) => i < rooms@.len() && first_eligible(rooms_model(rooms@), user_id)
                == i,
            None => first_eligible(rooms_model(rooms@), user_id) == -1,
        },
{
    let ghost model = rooms_model(rooms@);
    let n = rooms.len();
    let mut i: usize = 0;
    while i < n
        invariant
            i <= n,
            n == rooms@.len(),
            model == rooms_model(rooms@),
            forall|k: int| 0 <= k < rooms@.len() ==> (#[trigger] rooms@[k]).wf(),
            forall|j: int| 0 <= j < i ==> !room_eligible(#[trigger] model[j], user_id),
        decreases n - i,
    {
        let room = &rooms[i];
        let matching = room.status == RoomStatus::Matching;
        if matching && room.current_players < room.required_players && !roster_contains(
            &room.players,
            user_id,
        ) {
            proof {
                assert(model[i as int] == rooms@[i as int]@);
                lemma_first_eligible_found(model, user_id, i as int);
            }
            return Some(i);
        }
        proof {
            assert(model[i as int] == rooms@[i as int]@);
        }
        i = i + 1;
    }
    proof {
        lemma_first_eligible_none(model, user_id);
    }
    None
}

/// Appends fresh idle rooms until the pool holds `min` idle rooms, drawing
/// identifiers from `ids` in order.
fn top_up_rooms(rooms: &mut Vec<MatchRoom>, required: i32, min: usize, ids: &Vec<u128>)
    requires
        2 <= required,
        forall|i: int| 0 <= i < old(rooms)@.len() ==> (#[trigger] old(rooms)@[i]).wf(),
    ensures
        rooms_model(final(rooms)@) == top_up(
            rooms_model(old(rooms)@),
            required as int,
            min as int,
            ids@,
        ),
        forall|i: int| 0 <= i < final(rooms)@.len() ==> (#[trigger] final(rooms)@[i]).wf(),
{
    let ghost orig = rooms_model(old(rooms)@);
    proof {
        assert(ids@.skip(0) =~= ids@);
    }
    let mut used: usize = 0;
    while used < ids.len()
        invariant
            used <= ids@.len(),
            2 <= required,
            forall|i: int| 0 <= i < rooms@.len() ==> (#[trigger] rooms@[i]).wf(),
            top_up(orig, required as int, min as int, ids@) == top_up(
                rooms_model(rooms@),
                required as int,
                min as int,
                ids@.skip(used as int),
            ),
        decreases ids@.len() - used,
    {
        let c = count_idle_rooms(rooms);
        if c < min {
            let ghost cur = rooms_model(rooms@);
            let ghost rest = ids@.skip(used as int);
            let room = MatchRoom::new_room(ids[used], required);
            rooms.push(room);
            proof {
                assert(rest[0] == ids@[used as int]);
                assert(rest.skip(1) =~= ids@.skip(used as int + 1));
                assert(rooms_model(rooms@) =~= cur.push(
                    empty_room_model(ids@[used as int], required as int),
                ));
                assert(top_up(cur, required as int, min as int, rest) == top_up(
                    rooms_model(rooms@),
                    required as int,
                    min as int,
                    rest.skip(1),
                ));
            }
            used = used + 1;
        } else {
            proof {
                assert(top_up(
                    rooms_model(rooms@),
                    required as int,
                    min as int,
                    ids@.skip(used as int),
                ) == rooms_model(rooms@));
                assert(top_up(
                    rooms_model(rooms@),
                    required as int,
                    min as int,
                    ids@.skip(ids@.len() as int),
                ) == rooms_model(rooms@));
            }
            used = ids.len();
        }
    }
    proof {
        assert(ids@.skip(ids@.len() as int).len() == 0);
    }
}

impl MatchService {
    /// Seats a user in the first eligible room of the named pool, or opens
    /// a fresh room for them, then tops the pool's idle buffer back up. The
    /// room identifiers to use are handed in: `new_room_id` for the room a
    /// full scan may open, `topup_ids` for the priming rooms.
    ///
    /// `user_in_active_match` is the persistence collaborator's answer to
    /// "does this user already have an active match"; a join with it set is
    /// rejected untouched.
    pub fn join_with_ids(
        &mut self,
        user_id: u128,
        match_type: &str,
        user_in_active_match: bool,
        new_room_id: u128,
        topup_ids: &Vec<u128>,
    ) -> (r: Result<MatchResult, Error>)
        requires
            old(self).wf(),
            topup_ids@.len() >= 5,
        ensures
            final(self).wf(),
            pools_idle_ok(old(self)@) ==> pools_idle_ok(final(self)@),
            match r {
                Result::Err(Error::UserAlreadyInMatch) => {
                    &&& user_in_active_match
                    &&& final(self)@ == old(self)@
                },
                Result::Err(Error::InvalidMatchType) => {
                    &&& !user_in_active_match
                    &&& MatchType::spec_from_str(match_type@) is None
                    &&& final(self)@ == old(self)@
                },
                Result::Ok(res) => {
                    &&& !user_in_active_match
                    &&& MatchType::spec_from_str(match_type@) is Some
                    &&& join_ok_shape(
                        old(self)@,
                        final(self)@,
                        user_id,
                        MatchType::spec_from_str(match_type@)->Some_0,
                        new_room_id,
                        topup_ids@,
                        res,
                    )
                },
                _ => false,
            },
            r is Ok ==> {
                let mt = MatchType::spec_from_str(match_type@)->Some_0;
                count_idle(final(self)@[pool_index_of_type(mt)].rooms)
                    >= mt.spec_min_idle_rooms() as int
            },
    {
        if user_in_active_match {
            return Err(Error::UserAlreadyInMatch);
        }
        let mt = match MatchType::from_str(match_type) {
            Some(m) => m,
            None => {
                return Err(Error::InvalidMatchType);
            },
        };
        let k: usize = match mt {
            MatchType::OneVsOne => 0,
            MatchType::TwoVsTwo => 1,
            MatchType::FiveVsFive => 2,
        };
        let required = mt.required_players();
        let min = mt.min_idle_rooms();
        let ghost pre = self@;
        let ghost pre_pools = self.pools@;
        let mut pool = self.pools.remove(k);
        let ghost pre_rooms = pool@.rooms;
        proof {
            assert(pre[k as int] == pre_pools[k as int]@);
            assert(pre_rooms == pre[k as int].rooms);
            assert(pool_model_wf(pre[k as int]));
            assert forall|i: int|
                0 <= i < pool.rooms@.len() implies (#[trigger] pool.rooms@[i]).wf() by {
                assert(pre_pools[k as int].rooms@[i] == pool.rooms@[i]);
            }
        }
        let res: MatchResult;
        match find_eligible_room(&pool.rooms, user_id) {
            Some(i) => {
                proof {
                    lemma_first_eligible_props(pre_rooms, user_id);
                    assert(pre_rooms[i as int] == pool.rooms@[i as int]@);
                }
                let mut room = pool.rooms.remove(i);
                let ghost old_room = room@;
                room.players.push(user_id);
                room.current_players = room.current_players + 1;
                if room.current_players == room.required_players {
                    room.status = RoomStatus::Ready;
                }
                proof {
                    assert(room@ == joined_room_model(old_room, user_id));
                    lemma_no_dup_push(old_room.players, user_id);
                }
                res = MatchResult {
                    match_id: room.id,
                    status: room.status,
                    match_type: mt,
                    current_players: room.current_players,
                    required_players: room.required_players,
                };
                pool.rooms.insert(i, room);
                proof {
                    assert(rooms_model(pool.rooms@) =~= pre_rooms.update(
                        i as int,
                        joined_room_model(old_room, user_id),
                    ));
                    assert(res == join_snapshot(pre_rooms, user_id, mt, new_room_id));
                }
            },
            None => {
                let mut players: Vec<u128> = Vec::new();
                players.push(user_id);
                let room = MatchRoom {
                    id: new_room_id,
                    required_players: required,
                    current_players: 1,
                    players,
                    status: RoomStatus::Matching,
                };
                proof {
                    assert(room@.players =~= seq![user_id]);
                }
                res = MatchResult {
                    match_id: new_room_id,
                    status: RoomStatus::Matching,
                    match_type: mt,
                    current_players: 1,
                    required_players: required,
                };
                pool.rooms.push(room);
                proof {
                    assert(rooms_model(pool.rooms@) =~= pool_rooms_after_join(
                        pre_rooms,
                        user_id,
                        required as int,
                        new_room_id,
                    ));
                    assert(res == join_snapshot(pre_rooms, user_id, mt, new_room_id));
                }
            },
        }
        let ghost joined = rooms_model(pool.rooms@);
        proof {
            assert(joined == pool_rooms_after_join(
                pre_rooms,
                user_id,
                required as int,
                new_room_id,
            ));
        }
        top_up_rooms(&mut pool.rooms, required, min, topup_ids);
        let ghost topped = rooms_model(pool.rooms@);
        self.pools.insert(k, pool);
        proof {
            assert(topped == top_up(joined, required as int, min as int, topup_ids@));
            assert(self.pools@ =~= pre_pools.update(k as int, self.pools@[k as int]));
            assert(self@ =~= pool_update(pre, k as int, topped));
            lemma_top_up_props(joined, required as int, min as int, topup_ids@);
            lemma_count_idle_nonneg(joined);
            assert(count_idle(topped) >= min as int);
            lemma_join_preserves_wf(pre, self@, user_id, mt, new_room_id, topup_ids@);
            assert forall|k2: int, i2: int|
                0 <= k2 < self.pools@.len() && 0 <= i2 < self.pools@[k2].rooms@.len()
                    implies (#[trigger] self.pools@[k2].rooms@[i2]).wf() by {
                if k2 != k as int {
                    assert(self.pools@[k2] == pre_pools[k2]);
                }
            }
            assert forall|k2: int|
                0 <= k2 < self@.len() && pools_idle_ok(pre) implies count_idle(
                    #[trigger] self@[k2].rooms,
                ) >= self@[k2].match_type.spec_min_idle_rooms() as int by {
                if k2 != k as int {
                    assert(self@[k2] == pre[k2]);
                }
            }
        }
        Ok(res)
    }
}

/// True when some pool room carries the identity.
pub open spec fn pool_has_room(p: PoolModel, match_id: u128) -> bool {
    exists|i: int| 0 <= i < p.rooms.len() && p.rooms[i].id == match_id
}

/// True when any pool holds a room with the identity.
pub open spec fn has_room(pools: Seq<PoolModel>, match_id: u128) -> bool {
    exists|k: int| 0 <= k < pools.len() && pool_has_room(#[trigger] pools[k], match_id)
}

/// The room after a user leaves it: the first (only) occurrence of the
/// user goes; a user not on the roster leaves it unchanged.
pub open spec fn room_without(r: RoomModel, user: u128) -> RoomModel {
    RoomModel {
        id: r.id,
        required: r.required,
        players: r.players.remove_value(user),
        status: r.status,
    }
}

/// The whole change one successful leave makes at room `i` of pool `k`:
/// the user goes from the roster, and a room left empty is evicted only
/// when the pool's idle count stays above the configured minimum.
pub open spec fn leave_ok_shape(
    pre: Seq<PoolModel>,
    post: Seq<PoolModel>,
    user: u128,
    match_id: u128,
    k: int,
    i: int,
) -> bool {
    &&& 0 <= k < pre.len()
    &&& 0 <= i < pre[k].rooms.len()
    &&& pre[k].rooms[i].id == match_id
    &&& pre[k].rooms[i].status == RoomStatus::Matching
    &&& {
        let r2 = room_without(pre[k].rooms[i], user);
        let rooms2 = pre[k].rooms.update(i, r2);
        if pre[k].rooms[i].players.contains(user) {
            if r2.players.len() == 0 && count_idle(rooms2)
                > pre[k].match_type.spec_min_idle_rooms() as int {
                post == pool_update(pre, k, rooms2.remove(i))
            } else {
                post == pool_update(pre, k, rooms2)
            }
        } else {
            post == pre
        }
    }
}

/// The room once its match is under way.
pub open spec fn in_progress_room(r: RoomModel) -> RoomModel {
    RoomModel { id: r.id, required: r.required, players: r.players, status: RoomStatus::InProgress }
}

/// The pool's rooms with every room of the given identity dropped.
pub open spec fn rooms_without_id(rooms: Seq<RoomModel>, match_id: u128) -> Seq<RoomModel>
    decreases rooms.len(),
{
    if rooms.len() == 0 {
        Seq::<RoomModel>::empty()
    } else if rooms[0].id == match_id {
        rooms_without_id(rooms.skip(1), match_id)
    } else {
        seq![rooms[0]] + rooms_without_id(rooms.skip(1), match_id)
    }
}

/// A roster stays duplicate-free when an entry is removed.
proof fn lemma_no_dup_remove(s: Seq<u128>, i: int)
    requires
        s.no_duplicates(),
        0 <= i < s.len(),
    ensures
        s.remove(i).no_duplicates(),
{
    let b = s.remove(i);
    assert forall|p: int, q: int| 0 <= p < q < b.len() implies b[p] != b[q] by {
        let p2 = if p < i {
            p
        } else {
            p + 1
        };
        let q2 = if q < i {
            q
        } else {
            q + 1
        };
        assert(b[p] == s[p2]);
        assert(b[q] == s[q2]);
    }
}

/// Finds the first room of the pool carrying the identity.
fn find_room_in_rooms(rooms: &Vec<MatchRoom>, match_id: u128) -> (r: Option<usize>)
    ensures
        match r {
            Some(i) => {
                &&& i < rooms@.len()
                &&& rooms_model(rooms@)[i as int].id == match_id
                &&& forall|j: int|
                    0 <= j < i ==> rooms_model(rooms@)[j].id != match_id
            },
            None => forall|j: int|
                0 <= j < rooms@.len() ==> rooms_model(rooms@)[j].id != match_id,
        },
{
    let ghost model = rooms_model(rooms@);
    let n = rooms.len();
    let mut i: usize = 0;
    while i < n
        invariant
            i <= n,
            n == rooms@.len(),
            model == rooms_model(rooms@),
            forall|j: int| 0 <= j < i ==> model[j].id != match_id,
        decreases n - i,
    {
        proof {
            assert(model[i as int] == rooms@[i as int]@);
        }
        if rooms[i].id == match_id {
            return Some(i);
        }
        i = i + 1;
    }
    None
}

impl MatchService {
    /// Takes a user out of a still-matching room. A room that has
    /// progressed past matching cannot be abandoned through this path: the
    /// call fails with `MatchAlreadyStarted` and mutates nothing. A room
    /// left empty is evicted only when the pool's idle count stays above
    /// its configured minimum.
    pub fn leave_match(&mut self, user_id: u128, match_id: u128) -> (r: Result<(), Error>)
        requires
            old(self).wf(),
        ensures
            final(self).wf(),
            pools_idle_ok(old(self)@) ==> pools_idle_ok(final(self)@),
            match r {
                Result::Ok(()) => exists|k: int, i: int|
                    leave_ok_shape(old(self)@, final(self)@, user_id, match_id, k, i),
                Result::Err(Error::MatchAlreadyStarted) => {
                    &&& final(self)@ == old(self)@
                    &&& exists|k: int, i: int|
                        0 <= k < old(self)@.len() && 0 <= i < old(self)@[k].rooms.len()
                            && old(self)@[k].rooms[i].id == match_id && old(
                            self,
                        )@[k].rooms[i].status != RoomStatus::Matching
                },
                Result::Err(Error::MatchNotFound) => {
                    &&& final(self)@ == old(self)@
                    &&& !has_room(old(self)@, match_id)
                },
                _ => false,
            },
    {
        let ghost pre = self@;
        let ghost pre_pools = self.pools@;
        let n = self.pools.len();
        let mut k: usize = 0;
        while k < n
            invariant
                k <= n,
                n == 3,
                self.wf(),
                pre == old(self)@,
                pre_pools == old(self).pools@,
                self@ == pre,
                self.pools@ == pre_pools,
                forall|k2: int| 0 <= k2 < k ==> !pool_has_room(#[trigger] pre[k2], match_id),
            decreases n - k,
        {
            let found = find_room_in_rooms(&self.pools[k].rooms, match_id);
            proof {
                assert(self.pools@[k as int]@ == pre[k as int]);
            }
            match found {
                Some(i) => {
                    proof {
                        assert(pre[k as int].rooms[i as int].id == match_id);
                    }
                    let status_matching = {
                        let room = &self.pools[k].rooms[i];
                        proof {
                            assert(room@ == pre[k as int].rooms[i as int]);
                        }
                        room.status == RoomStatus::Matching
                    };
                    if !status_matching {
                        proof {
                            assert(pre[k as int].rooms[i as int].status
                                != RoomStatus::Matching);
                        }
                        return Err(Error::MatchAlreadyStarted);
                    }
                    let has_user = roster_contains(&self.pools[k].rooms[i].players, user_id);
                    proof {
                        assert(self.pools@[k as int].rooms@[i as int]@ == pre[k as int].rooms[
                            i as int]);
                    }
                    if !has_user {
                        proof {
                            assert(!pre[k as int].rooms[i as int].players.contains(user_id));
                            assert(leave_ok_shape(
                                pre,
                                self@,
                                user_id,
                                match_id,
                                k as int,
                                i as int,
                            ));
                        }
                        return Ok(());
                    }
                    let min = self.pools[k].match_type.min_idle_rooms();
                    let mut pool = self.pools.remove(k);
                    let ghost pre_rooms = pre[k as int].rooms;
                    proof {
                        assert(pool@ == pre[k as int]);
                        assert forall|i2: int|
                            0 <= i2 < pool.rooms@.len() implies (#[trigger] pool.rooms@[
                            i2]).wf() by {
                            assert(pre_pools[k as int].rooms@[i2] == pool.rooms@[i2]);
                        }
                    }
                    let mut room = pool.rooms.remove(i);
                    let ghost old_room = room@;
                    let upos = find_user_pos(&room.players, user_id);
                    match upos {
                        Some(p) => {
                            room.players.remove(p);
                            room.current_players = room.current_players - 1;
                            proof {
                                lemma_remove_value_at(old_room.players, user_id, p as int);
                                lemma_no_dup_remove(old_room.players, p as int);
                                assert(room@ == room_without(old_room, user_id));
                            }
                            let ghost r2 = room@;
                            let now_empty = room.current_players == 0;
                            pool.rooms.insert(i, room);
                            let ghost rooms2 = rooms_model(pool.rooms@);
                            proof {
                                assert(rooms2 =~= pre_rooms.update(i as int, r2));
                            }
                            let mut evicted = false;
                            if now_empty {
                                let empties = count_idle_rooms(&pool.rooms);
                                if empties > min {
                                    pool.rooms.remove(i);
                                    evicted = true;
                                    proof {
                                        assert(rooms_model(pool.rooms@) =~= rooms2.remove(
                                            i as int,
                                        ));
                                    }
                                }
                            }
                            let ghost post_rooms = rooms_model(pool.rooms@);
                            self.pools.insert(k, pool);
                            proof {
                                assert(self.pools@ =~= pre_pools.update(
                                    k as int,
                                    self.pools@[k as int],
                                ));
                                assert(self@ =~= pool_update(pre, k as int, post_rooms));
                                lemma_leave_shape_holds(
                                    pre,
                                    self@,
                                    user_id,
                                    match_id,
                                    k as int,
                                    i as int,
                                    min as int,
                                    evicted,
                                );
                                lemma_leave_preserves_wf(pre, self@, user_id, k as int, i as int);
                                lemma_leave_preserves_idle(
                                    pre,
                                    self@,
                                    user_id,
                                    k as int,
                                    i as int,
                                    evicted,
                                );
                            }
                            return Ok(());
                        },
                        None => {
                            proof {
                                assert(old_room.players.contains(user_id));
                                assert(false);
                            }
                            self.pools.insert(k, pool);
                            return Err(Error::MatchNotFound);
                        },
                    }
                },
                None => {
                    proof {
                        assert(!pool_has_room(pre[k as int], match_id));
                    }
                },
            }
            k = k + 1;
        }
        proof {
            assert(!has_room(pre, match_id));
        }
        Err(Error::MatchNotFound)
    }
}

impl MatchService {
    /// The in-memory status of a room. Finished matches are no longer held
    /// here; callers fall back to the persistence collaborator for those.
    pub fn get_match_status(&self, match_id: u128) -> (r: Result<RoomStatus, Error>)
        ensures
            match r {
                Result::Ok(s) => exists|k: int, i: int|
                    {
                        &&& 0 <= k < self@.len()
                        &&& 0 <= i < self@[k].rooms.len()
                        &&& self@[k].rooms[i].id == match_id
                        &&& self@[k].rooms[i].status == s
                    },
                Result::Err(Error::MatchNotFound) => !has_room(self@, match_id),
                _ => false,
            },
    {
        let n = self.pools.len();
        let mut k: usize = 0;
        while k < n
            invariant
                k <= n,
                n == self@.len(),
                forall|k2: int| 0 <= k2 < k ==> !pool_has_room(#[trigger] self@[k2], match_id),
            decreases n - k,
        {
            match find_room_in_rooms(&self.pools[k].rooms, match_id) {
                Some(i) => {
                    let s = self.pools[k].rooms[i].status;
                    proof {
                        assert(self.pools@[k as int]@ == self@[k as int]);
                        assert(self@[k as int].rooms[i as int].id == match_id);
                        assert(self@[k as int].rooms[i as int].status == s);
                    }
                    return Ok(s);
                },
                None => {
                    proof {
                        assert(self.pools@[k as int]@ == self@[k as int]);
                        assert(!pool_has_room(self@[k as int], match_id));
                    }
                },
            }
            k = k + 1;
        }
        Err(Error::MatchNotFound)
    }

    /// Marks a `Ready` room as under way, once its teams have been durably
    /// recorded. A room in any other state is left untouched.
    pub fn mark_in_progress(&mut self, match_id: u128) -> (r: Result<(), Error>)
        requires
            old(self).wf(),
        ensures
            final(self).wf(),
            pools_idle_ok(old(self)@) ==> pools_idle_ok(final(self)@),
            match r {
                Result::Ok(()) => exists|k: int, i: int|
                    {
                        &&& 0 <= k < old(self)@.len()
                        &&& 0 <= i < old(self)@[k].rooms.len()
                        &&& old(self)@[k].rooms[i].id == match_id
                        &&& old(self)@[k].rooms[i].status == RoomStatus::Ready
                        &&& final(self)@ == pool_update(
                            old(self)@,
                            k,
                            old(self)@[k].rooms.update(
                                i,
                                in_progress_room(old(self)@[k].rooms[i]),
                            ),
                        )
                    },
                Result::Err(Error::MatchNotReady) => {
                    &&& final(self)@ == old(self)@
                    &&& exists|k: int, i: int|
                        0 <= k < old(self)@.len() && 0 <= i < old(self)@[k].rooms.len()
                            && old(self)@[k].rooms[i].id == match_id && old(
                            self,
                        )@[k].rooms[i].status != RoomStatus::Ready
                },
                Result::Err(Error::MatchNotFound) => {
                    &&& final(self)@ == old(self)@
                    &&& !has_room(old(self)@, match_id)
                },
                _ => false,
            },
    {
        let ghost pre = self@;
        let ghost pre_pools = self.pools@;
        let n = self.pools.len();
        let mut k: usize = 0;
        while k < n
            invariant
                k <= n,
                n == 3,
                self.wf(),
                pre == old(self)@,
                pre_pools == old(self).pools@,
                self@ == pre,
                self.pools@ == pre_pools,
                forall|k2: int| 0 <= k2 < k ==> !pool_has_room(#[trigger] pre[k2], match_id),
            decreases n - k,
        {
            let found = find_room_in_rooms(&self.pools[k].rooms, match_id);
            proof {
                assert(self.pools@[k as int]@ == pre[k as int]);
            }
            match found {
                Some(i) => {
                    proof {
                        assert(pre[k as int].rooms[i as int].id == match_id);
                    }
                    let is_ready = {
                        let room = &self.pools[k].rooms[i];
                        proof {
                            assert(room@ == pre[k as int].rooms[i as int]);
                        }
                        room.status == RoomStatus::Ready
                    };
                    if !is_ready {
                        proof {
                            assert(pre[k as int].rooms[i as int].status != RoomStatus::Ready);
                        }
                        return Err(Error::MatchNotReady);
                    }
                    let mut pool = self.pools.remove(k);
                    let ghost pre_rooms = pre[k as int].rooms;
                    proof {
                        assert(pool@ == pre[k as int]);
                        assert forall|i2: int|
                            0 <= i2 < pool.rooms@.len() implies (#[trigger] pool.rooms@[
                            i2]).wf() by {
                            assert(pre_pools[k as int].rooms@[i2] == pool.rooms@[i2]);
                        }
                    }
                    let mut room = pool.rooms.remove(i);
                    let ghost old_room = room@;
                    room.status = RoomStatus::InProgress;
                    proof {
                        assert(room@ == in_progress_room(old_room));
                    }
                    pool.rooms.insert(i, room);
                    let ghost post_rooms = rooms_model(pool.rooms@);
                    self.pools.insert(k, pool);
                    proof {
                        assert(post_rooms =~= pre_rooms.update(
                            i as int,
                            in_progress_room(old_room),
                        ));
                        assert(self.pools@ =~= pre_pools.update(
                            k as int,
                            self.pools@[k as int],
                        ));
                        assert(self@ =~= pool_update(pre, k as int, post_rooms));
                        assert(room_model_wf(in_progress_room(old_room)));
                        assert forall|k2: int|
                            0 <= k2 < self@.len() implies pool_model_wf(
                            #[trigger] self@[k2]) by {
                            if k2 == k as int {
                                assert forall|i2: int|
                                    0 <= i2 < post_rooms.len() implies room_model_wf(
                                    #[trigger] post_rooms[i2]) && post_rooms[i2].required
                                    == self@[k2].match_type.spec_required_players() as int by {
                                    if i2 != i as int {
                                        assert(post_rooms[i2] == pre_rooms[i2]);
                                    }
                                }
                            } else {
                                assert(self@[k2] == pre[k2]);
                            }
                        }
                        if pools_idle_ok(pre) {
                            lemma_count_idle_update(
                                pre_rooms,
                                i as int,
                                in_progress_room(old_room),
                            );
                            assert(count_idle(post_rooms) == count_idle(pre_rooms));
                            assert forall|k2: int|
                                0 <= k2 < self@.len() implies count_idle(
                                #[trigger] self@[k2].rooms) >= self@[
                                k2].match_type.spec_min_idle_rooms() as int by {
                                if k2 != k as int {
                                    assert(self@[k2] == pre[k2]);
                                }
                            }
                        }
                    }
                    return Ok(());
                },
                None => {
                    proof {
                        assert(!pool_has_room(pre[k as int], match_id));
                    }
                },
            }
            k = k + 1;
        }
        proof {
            assert(!has_room(pre, match_id));
        }
        Err(Error::MatchNotFound)
    }

    /// Drops a finished (or abandoned) room from the in-memory pools: from
    /// here on it is no longer joinable nor visible to status lookups. The
    /// durable record lives on with the persistence collaborator.
    pub fn remove_match(&mut self, match_id: u128)
        requires
            old(self).wf(),
        ensures
            final(self).wf(),
            !has_room(old(self)@, match_id) ==> final(self)@ == old(self)@,
            has_room(old(self)@, match_id) ==> exists|k: int|
                {
                    &&& 0 <= k < old(self)@.len()
                    &&& pool_has_room(old(self)@[k], match_id)
                    &&& forall|k2: int|
                        0 <= k2 < k ==> !pool_has_room(#[trigger] old(self)@[k2], match_id)
                    &&& final(self)@ == pool_update(
                        old(self)@,
                        k,
                        rooms_without_id(old(self)@[k].rooms, match_id),
                    )
                },
    {
        let ghost pre = self@;
        let ghost pre_pools = self.pools@;
        let n = self.pools.len();
        let mut k: usize = 0;
        while k < n
            invariant
                k <= n,
                n == 3,
                self.wf(),
                pre == old(self)@,
                pre_pools == old(self).pools@,
                self@ == pre,
                self.pools@ == pre_pools,
                forall|k2: int| 0 <= k2 < k ==> !pool_has_room(#[trigger] pre[k2], match_id),
            decreases n - k,
        {
            let found = find_room_in_rooms(&self.pools[k].rooms, match_id);
            proof {
                assert(self.pools@[k as int]@ == pre[k as int]);
            }
            match found {
                Some(i) => {
                    proof {
                        assert(pre[k as int].rooms[i as int].id == match_id);
                    }
                    let mut pool = self.pools.remove(k);
                    let ghost pre_rooms = pre[k as int].rooms;
                    proof {
                        assert(pool@ == pre[k as int]);
                        assert forall|i2: int|
                            0 <= i2 < pool.rooms@.len() implies (#[trigger] pool.rooms@[
                            i2]).wf() by {
                            assert(pre_pools[k as int].rooms@[i2] == pool.rooms@[i2]);
                        }
                    }
                    let mut kept: Vec<MatchRoom> = Vec::new();
                    let m = pool.rooms.len();
                    proof {
                        assert(pre_rooms.skip(0) =~= pre_rooms);
                        assert(rooms_model(kept@) =~= Seq::<RoomModel>::empty());
                        assert(rooms_model(kept@) + rooms_without_id(pre_rooms, match_id)
                            =~= rooms_without_id(pre_rooms, match_id));
                    }
                    let mut j: usize = 0;
                    while j < m
                        invariant
                            j <= m,
                            m == pre_rooms.len(),
                            0 <= (k as int) && (k as int) < pre.len(),
                            pool_model_wf(pre[k as int]),
                            pre_rooms == pre[k as int].rooms,
                            rooms_model(pool.rooms@) == pre_rooms,
                            forall|i2: int|
                                0 <= i2 < pool.rooms@.len() ==> (#[trigger] pool.rooms@[
                                i2]).wf(),
                            forall|i2: int|
                                0 <= i2 < kept@.len() ==> (#[trigger] kept@[i2]).wf(),
                            rooms_model(kept@) + rooms_without_id(
                                pre_rooms.skip(j as int),
                                match_id,
                            ) == rooms_without_id(pre_rooms, match_id),
                            forall|i2: int|
                                0 <= i2 < kept@.len() ==> room_model_wf(
                                    #[trigger] rooms_model(kept@)[i2],
                                ) && rooms_model(kept@)[i2].required == pre[
                                    k as int].match_type.spec_required_players() as int,
                        decreases m - j,
                    {
                        let ghost rest = pre_rooms.skip(j as int);
                        let room = &pool.rooms[j];
                        proof {
                            assert(rest[0] == pre_rooms[j as int]);
                            assert(rest.skip(1) =~= pre_rooms.skip(j as int + 1));
                            assert(room@ == pre_rooms[j as int]);
                        }
                        if room.id != match_id {
                            let ghost kept_model = rooms_model(kept@);
                            let copy = MatchRoom {
                                id: room.id,
                                required_players: room.required_players,
                                current_players: room.current_players,
                                players: copy_ids(&room.players),
                                status: room.status,
                            };
                            proof {
                                assert(copy@ == pre_rooms[j as int]);
                            }
                            kept.push(copy);
                            proof {
                                assert(rooms_model(kept@) =~= kept_model.push(
                                    pre_rooms[j as int],
                                ));
                                assert(rooms_without_id(rest, match_id) =~= seq![rest[0]]
                                    + rooms_without_id(rest.skip(1), match_id));
                                assert(rooms_model(kept@) + rooms_without_id(
                                    pre_rooms.skip(j as int + 1),
                                    match_id,
                                ) =~= kept_model + rooms_without_id(rest, match_id));
                                assert forall|i2: int|
                                    0 <= i2 < kept@.len() implies room_model_wf(
                                    #[trigger] rooms_model(kept@)[i2]) && rooms_model(
                                    kept@)[i2].required == pre[
                                    k as int].match_type.spec_required_players() as int by {
                                    if i2 < kept_model.len() {
                                        assert(rooms_model(kept@)[i2] == kept_model[i2]);
                                    } else {
                                        assert(rooms_model(kept@)[i2] == pre_rooms[j as int]);
                                    }
                                }
                            }
                        } else {
                            proof {
                                assert(rooms_without_id(rest, match_id) == rooms_without_id(
                                    rest.skip(1),
                                    match_id,
                                ));
                            }
                        }
                        j = j + 1;
                    }
                    proof {
                        assert(pre_rooms.skip(m as int).len() == 0);
                        assert(rooms_model(kept@) + rooms_without_id(
                            pre_rooms.skip(m as int),
                            match_id,
                        ) =~= rooms_model(kept@));
                        assert(rooms_model(kept@) == rooms_without_id(pre_rooms, match_id));
                    }
                    pool.rooms = kept;
                    let ghost post_rooms = rooms_model(pool.rooms@);
                    self.pools.insert(k, pool);
                    proof {
                        assert(self.pools@ =~= pre_pools.update(
                            k as int,
                            self.pools@[k as int],
                        ));
                        assert(self@ =~= pool_update(pre, k as int, post_rooms));
                        assert(pool_has_room(pre[k as int], match_id));
                        assert forall|k2: int|
                            0 <= k2 < self@.len() implies pool_model_wf(
                            #[trigger] self@[k2]) by {
                            if k2 != k as int {
                                assert(self@[k2] == pre[k2]);
                            }
                        }
                    }
                    return ;
                },
                None => {
                    proof {
                        assert(!pool_has_room(pre[k as int], match_id));
                    }
                },
            }
            k = k + 1;
        }
        proof {
            assert(!has_room(pre, match_id));
        }
    }
}

/// Draws `n` fresh identifiers.
fn fresh_ids(n: usize) -> (r: Vec<u128>)
    ensures
        r@.len() == n,
{
    let mut ids: Vec<u128> = Vec::new();
    while ids.len() < n
        invariant
            ids@.len() <= n,
        decreases n - ids@.len(),
    {
        ids.push(fresh_id());
    }
    ids
}

impl MatchService {
    /// Primes every pool up to its configured minimum of idle rooms. Run
    /// once at startup; afterwards every join and leave keeps the buffers
    /// at or above their minimums.
    pub fn initialize_pools(&mut self)
        requires
            old(self).wf(),
        ensures
            final(self).wf(),
            pools_idle_ok(final(self)@),
            final(self)@.len() == old(self)@.len(),
            forall|k: int|
                0 <= k < old(self)@.len() ==> {
                    &&& (#[trigger] final(self)@[k]).match_type == old(self)@[k].match_type
                    &&& exists|ids: Seq<u128>|
                        final(self)@[k].rooms == top_up(
                            old(self)@[k].rooms,
                            old(self)@[k].match_type.spec_required_players() as int,
                            old(self)@[k].match_type.spec_min_idle_rooms() as int,
                            ids,
                        )
                },
    {
        let ghost pre = self@;
        let n = self.pools.len();
        let mut k: usize = 0;
        while k < n
            invariant
                k <= n,
                n == 3,
                self.wf(),
                pre == old(self)@,
                self@.len() == 3,
                pre.len() == 3,
                forall|k2: int| k <= k2 < 3 ==> self@[k2] == pre[k2],
                forall|k2: int|
                    0 <= k2 < k ==> {
                        &&& (#[trigger] self@[k2]).match_type == pre[k2].match_type
                        &&& count_idle(self@[k2].rooms)
                            >= self@[k2].match_type.spec_min_idle_rooms() as int
                        &&& exists|ids: Seq<u128>|
                            self@[k2].rooms == top_up(
                                pre[k2].rooms,
                                pre[k2].match_type.spec_required_players() as int,
                                pre[k2].match_type.spec_min_idle_rooms() as int,
                                ids,
                            )
                    },
            decreases n - k,
        {
            let ghost mid = self@;
            let ghost mid_pools = self.pools@;
            let required = {
                let mt = &self.pools[k].match_type;
                mt.required_players()
            };
            let min = {
                let mt = &self.pools[k].match_type;
                mt.min_idle_rooms()
            };
            let ids = fresh_ids(5);
            let mut pool = self.pools.remove(k);
            let ghost pre_rooms = mid[k as int].rooms;
            proof {
                assert(pool@ == mid[k as int]);
                assert(pool_model_wf(mid[k as int]));
                assert forall|i2: int|
                    0 <= i2 < pool.rooms@.len() implies (#[trigger] pool.rooms@[i2]).wf() by {
                    assert(mid_pools[k as int].rooms@[i2] == pool.rooms@[i2]);
                }
            }
            top_up_rooms(&mut pool.rooms, required, min, &ids);
            let ghost topped = rooms_model(pool.rooms@);
            self.pools.insert(k, pool);
            proof {
                assert(topped == top_up(pre_rooms, required as int, min as int, ids@));
                lemma_top_up_props(pre_rooms, required as int, min as int, ids@);
                lemma_count_idle_nonneg(pre_rooms);
                assert(count_idle(topped) >= min as int);
                assert(self.pools@ =~= mid_pools.update(k as int, self.pools@[k as int]));
                assert(self@ =~= pool_update(mid, k as int, topped));
                assert forall|k2: int|
                    0 <= k2 < self@.len() implies pool_model_wf(#[trigger] self@[k2]) by {
                    if k2 == k as int {
                        assert forall|i2: int|
                            0 <= i2 < topped.len() implies room_model_wf(
                            #[trigger] topped[i2]) && topped[i2].required == self@[
                            k2].match_type.spec_required_players() as int by {
                            if i2 < pre_rooms.len() {
                                assert(topped.take(pre_rooms.len() as int)[i2] == topped[i2]);
                                assert(topped[i2] == pre_rooms[i2]);
                            }
                        }
                    } else {
                        assert(self@[k2] == mid[k2]);
                    }
                }
                assert(mid[k as int] == pre[k as int]);
                assert(self@[k as int].rooms == top_up(
                    pre[k as int].rooms,
                    pre[k as int].match_type.spec_required_players() as int,
                    pre[k as int].match_type.spec_min_idle_rooms() as int,
                    ids@,
                ));
            }
            k = k + 1;
        }
    }

    /// Seats a user in the named pool as `join_with_ids` does, drawing the
    /// fresh room identifiers itself.
    pub fn join_match(&mut self, user_id: u128, match_type: &str, user_in_active_match: bool) -> (r:
        Result<MatchResult, Error>)
        requires
            old(self).wf(),
        ensures
            final(self).wf(),
            pools_idle_ok(old(self)@) ==> pools_idle_ok(final(self)@),
            match r {
                Result::Err(Error::UserAlreadyInMatch) => {
                    &&& user_in_active_match
                    &&& final(self)@ == old(self)@
                },
                Result::Err(Error::InvalidMatchType) => {
                    &&& !user_in_active_match
                    &&& MatchType::spec_from_str(match_type@) is None
                    &&& final(self)@ == old(self)@
                },
                Result::Ok(res) => {
                    &&& !user_in_active_match
                    &&& MatchType::spec_from_str(match_type@) is Some
                    &&& exists|nid: u128, tids: Seq<u128>|
                        join_ok_shape(
                            old(self)@,
                            final(self)@,
                            user_id,
                            MatchType::spec_from_str(match_type@)->Some_0,
                            nid,
                            tids,
                            res,
                        )
                },
                _ => false,
            },
            r is Ok ==> {
                let mt = MatchType::spec_from_str(match_type@)->Some_0;
                count_idle(final(self)@[pool_index_of_type(mt)].rooms)
                    >= mt.spec_min_idle_rooms() as int
            },
    {
        let ids = fresh_ids(5);
        let nid = fresh_id();
        let r = self.join_with_ids(user_id, match_type, user_in_active_match, nid, &ids);
        proof {
            if r is Ok {
                let mt = MatchType::spec_from_str(match_type@)->Some_0;
                assert(join_ok_shape(
                    old(self)@,
                    self@,
                    user_id,
                    mt,
                    nid,
                    ids@,
                    r->Ok_0,
                ));
            }
        }
        r
    }
}

/// Everything the coordinator needs to start a match: the two team
/// identities and the shuffled two-way split of the roster.
#[derive(Debug)]
pub struct StartPlan {
    pub match_id: u128,
    pub match_type: MatchType,
    pub players_per_team: i32,
    pub team1_id: u128,
    pub team2_id: u128,
    pub team1_players: Vec<u128>,
    pub team2_players: Vec<u128>,
}

/// The plan's teams partition the room's roster into two halves: together
/// they carry exactly the roster, with no player on both sides.
pub open spec fn start_plan_matches_room(plan: StartPlan, room: RoomModel, mt: MatchType) -> bool {
    &&& plan.match_id == room.id
    &&& plan.match_type == mt
    &&& plan.players_per_team as int == room.required / 2
    &&& plan.team1_players@.len() == room.required / 2
    &&& plan.team2_players@.len() == room.required - room.required / 2
    &&& plan.team1_players@.to_multiset().add(plan.team2_players@.to_multiset())
        == room.players.to_multiset()
    &&& plan.team1_players@.no_duplicates()
    &&& plan.team2_players@.no_duplicates()
    &&& plan.team1_players@.to_set().disjoint(plan.team2_players@.to_set())
    &&& plan.team1_players@.to_set().union(plan.team2_players@.to_set())
        == room.players.to_set()
}

/// Splitting a duplicate-free roster into two sequences that together
/// carry the roster's multiset yields two duplicate-free, disjoint teams
/// whose union is exactly the roster: nobody is dropped, duplicated, or
/// placed on both teams.
pub proof fn lemma_team_split_partitions_roster(roster: Seq<u128>, t1: Seq<u128>, t2: Seq<u128>)
    requires
        roster.no_duplicates(),
        t1.to_multiset().add(t2.to_multiset()) == roster.to_multiset(),
    ensures
        t1.no_duplicates(),
        t2.no_duplicates(),
        t1.to_set().disjoint(t2.to_set()),
        t1.to_set().union(t2.to_set()) == roster.to_set(),
        t1.len() + t2.len() == roster.len(),
{
    broadcast use vstd::seq_lib::group_to_multiset_ensures;
    broadcast use vstd::multiset::group_multiset_axioms;

    roster.lemma_multiset_has_no_duplicates();
    assert forall|x: u128| #[trigger]
        t1.to_multiset().contains(x) implies t1.to_multiset().count(x) == 1 by {
        assert(roster.to_multiset().count(x) == t1.to_multiset().count(x)
            + t2.to_multiset().count(x));
        assert(roster.to_multiset().count(x) >= 1);
        assert(roster.to_multiset().contains(x));
    }
    t1.lemma_multiset_has_no_duplicates_conv();
    assert forall|x: u128| #[trigger]
        t2.to_multiset().contains(x) implies t2.to_multiset().count(x) == 1 by {
        assert(roster.to_multiset().count(x) == t1.to_multiset().count(x)
            + t2.to_multiset().count(x));
        assert(roster.to_multiset().count(x) >= 1);
        assert(roster.to_multiset().contains(x));
    }
    t2.lemma_multiset_has_no_duplicates_conv();
    assert forall|x: u128| t1.to_set().contains(x) implies !t2.to_set().contains(x) by {
        assert(t1.contains(x));
        assert(t1.to_multiset().count(x) > 0);
        assert(roster.to_multiset().count(x) == t1.to_multiset().count(x)
            + t2.to_multiset().count(x));
        assert(roster.to_multiset().contains(x));
        assert(roster.to_multiset().count(x) == 1);
        assert(t2.to_multiset().count(x) == 0);
        if t2.contains(x) {
            assert(t2.to_multiset().count(x) > 0);
        }
    }
    assert(t1.to_set().union(t2.to_set()) =~= roster.to_set()) by {
        assert forall|x: u128|
            t1.to_set().union(t2.to_set()).contains(x) == roster.to_set().contains(x) by {
            assert(t1.to_set().contains(x) == t1.contains(x));
            assert(t2.to_set().contains(x) == t2.contains(x));
            assert(roster.to_set().contains(x) == roster.contains(x));
            assert(roster.to_multiset().count(x) == t1.to_multiset().count(x)
                + t2.to_multiset().count(x));
        }
    }
    assert(t1.len() == t1.to_multiset().len());
    assert(t2.len() == t2.to_multiset().len());
    assert(roster.len() == roster.to_multiset().len());
}

impl MatchService {
    /// Builds the start plan for a `Ready` room: the two-team split of its
    /// roster by uniform shuffle, with fresh team identities. Reads only;
    /// the room is marked in progress by `mark_in_progress` once the plan
    /// has been durably recorded.
    pub fn prepare_start(&self, match_id: u128) -> (r: Result<StartPlan, Error>)
        requires
            self.wf(),
        ensures
            match r {
                Result::Ok(plan) => exists|k: int, i: int|
                    {
                        &&& 0 <= k < self@.len()
                        &&& 0 <= i < self@[k].rooms.len()
                        &&& self@[k].rooms[i].id == match_id
                        &&& self@[k].rooms[i].status == RoomStatus::Ready
                        &&& start_plan_matches_room(
                            plan,
                            self@[k].rooms[i],
                            self@[k].match_type,
                        )
                    },
                Result::Err(Error::MatchNotReady) => exists|k: int, i: int|
                    {
                        &&& 0 <= k < self@.len()
                        &&& 0 <= i < self@[k].rooms.len()
                        &&& self@[k].rooms[i].id == match_id
                        &&& self@[k].rooms[i].status != RoomStatus::Ready
                    },
                Result::Err(Error::MatchNotFound) => !has_room(self@, match_id),
                _ => false,
            },
    {
        let n = self.pools.len();
        let mut k: usize = 0;
        while k < n
            invariant
                k <= n,
                n == self@.len(),
                self.wf(),
                forall|k2: int| 0 <= k2 < k ==> !pool_has_room(#[trigger] self@[k2], match_id),
            decreases n - k,
        {
            match find_room_in_rooms(&self.pools[k].rooms, match_id) {
                Some(i) => {
                    let ghost room_m = self@[k as int].rooms[i as int];
                    proof {
                        assert(self.pools@[k as int]@ == self@[k as int]);
                        assert(room_m.id == match_id);
                        assert(self.pools@[k as int].rooms@[i as int]@ == room_m);
                        assert(room_model_wf(room_m));
                    }
                    let room = &self.pools[k].rooms[i];
                    if !(room.status == RoomStatus::Ready) {
                        return Err(Error::MatchNotReady);
                    }
                    let mut shuffled = copy_ids(&room.players);
                    shuffle_ids(&mut shuffled);
                    let ghost whole = shuffled@;
                    let ppt = room.required_players / 2;
                    proof {
                        broadcast use vstd::seq_lib::group_to_multiset_ensures;

                        assert(whole.to_multiset() == room_m.players.to_multiset());
                        assert(whole.len() == whole.to_multiset().len());
                        assert(room_m.players.len() == room_m.players.to_multiset().len());
                        assert(whole.len() == room_m.players.len());
                        assert(room_m.players.len() == room_m.required);
                    }
                    let team2_players = shuffled.split_off(ppt as usize);
                    let team1_players = shuffled;
                    let plan = StartPlan {
                        match_id,
                        match_type: self.pools[k].match_type,
                        players_per_team: ppt,
                        team1_id: fresh_id(),
                        team2_id: fresh_id(),
                        team1_players,
                        team2_players,
                    };
                    proof {
                        broadcast use vstd::seq_lib::group_to_multiset_ensures;

                        assert(plan.team1_players@ + plan.team2_players@ =~= whole);
                        vstd::seq_lib::lemma_multiset_commutative(
                            plan.team1_players@,
                            plan.team2_players@,
                        );
                        assert(plan.team1_players@.to_multiset().add(
                            plan.team2_players@.to_multiset(),
                        ) == room_m.players.to_multiset());
                        lemma_team_split_partitions_roster(
                            room_m.players,
                            plan.team1_players@,
                            plan.team2_players@,
                        );
                        assert(start_plan_matches_room(
                            plan,
                            room_m,
                            self@[k as int].match_type,
                        ));
                    }
                    return Ok(plan);
                },
                None => {
                    proof {
                        assert(self.pools@[k as int]@ == self@[k as int]);
                        assert(!pool_has_room(self@[k as int], match_id));
                    }
                },
            }
            k = k + 1;
        }
        Err(Error::MatchNotFound)
    }
}

/// The repository's idempotent seat-count maintenance for a team row: one
/// more player, never past the team's capacity.
pub fn bump_team_count(current: i32, max: i32) -> (n: i32)
    requires
        current < i32::MAX,
    ensures
        n == if current + 1 <= max {
            current + 1
        } else {
            max as int
        },
{
    let bumped = current + 1;
    if bumped <= max {
        bumped
    } else {
        max
    }
}

impl MatchService {
    /// How many idle rooms the named pool currently holds.
    pub fn idle_rooms(&self, match_type: &str) -> (r: Option<usize>)
        requires
            self.wf(),
        ensures
            match r {
                Some(c) => {
                    &&& MatchType::spec_from_str(match_type@) is Some
                    &&& c == count_idle(
                        self@[pool_index_of_type(
                            MatchType::spec_from_str(match_type@)->Some_0,
                        )].rooms,
                    )
                },
                None => MatchType::spec_from_str(match_type@) is None,
            },
    {
        let mt = match MatchType::from_str(match_type) {
            Some(m) => m,
            None => {
                return None;
            },
        };
        let k: usize = match mt {
            MatchType::OneVsOne => 0,
            MatchType::TwoVsTwo => 1,
            MatchType::FiveVsFive => 2,
        };
        let c = count_idle_rooms(&self.pools[k].rooms);
        proof {
            assert(self.pools@[k as int]@ == self@[k as int]);
        }
        Some(c)
    }
}

/// A fresh pool: every room idle.
pub open spec fn all_rooms_idle(rooms: Seq<RoomModel>) -> bool {
    forall|i: int| 0 <= i < rooms.len() ==> is_idle_room(#[trigger] rooms[i])
}

/// Every room well formed and sized for capacity `required`.
pub open spec fn pool_rooms_sized(rooms: Seq<RoomModel>, required: int) -> bool {
    forall|i: int|
        0 <= i < rooms.len() ==> room_model_wf(#[trigger] rooms[i]) && rooms[i].required
            == required
}

/// One full join step of the pool model: seat the user, then top the idle
/// buffer back up.
pub open spec fn pool_join_step(
    rooms: Seq<RoomModel>,
    user: u128,
    required: int,
    min: int,
    new_id: u128,
    tids: Seq<u128>,
) -> Seq<RoomModel> {
    top_up(pool_rooms_after_join(rooms, user, required, new_id), required, min, tids)
}

/// The pool model after a sequence of joins, one user at a time in the
/// order the lock admitted them.
pub open spec fn pool_join_fold(
    rooms: Seq<RoomModel>,
    users: Seq<u128>,
    required: int,
    min: int,
    nids: Seq<u128>,
    tidss: Seq<Seq<u128>>,
) -> Seq<RoomModel>
    decreases users.len(),
{
    if users.len() == 0 {
        rooms
    } else {
        pool_join_fold(
            pool_join_step(rooms, users[0], required, min, nids[0], tidss[0]),
            users.skip(1),
            required,
            min,
            nids.skip(1),
            tidss.skip(1),
        )
    }
}

/// The front room is mid-fill with exactly the first `k` users, in
/// admission order; every other room of the pool is idle.
pub open spec fn filling_front_room(
    rooms: Seq<RoomModel>,
    users: Seq<u128>,
    required: int,
    k: int,
) -> bool {
    &&& rooms.len() > 0
    &&& rooms[0].players == users.take(k)
    &&& rooms[0].required == required
    &&& rooms[0].status == (if k == required {
        RoomStatus::Ready
    } else {
        RoomStatus::Matching
    })
    &&& forall|j: int|
        1 <= j < rooms.len() ==> is_idle_room(#[trigger] rooms[j]) && rooms[j].required
            == required
}

proof fn lemma_join_step_fills(
    rooms: Seq<RoomModel>,
    users: Seq<u128>,
    required: int,
    min: int,
    k: int,
    nid: u128,
    tids: Seq<u128>,
)
    requires
        2 <= required,
        0 <= k < required,
        users.len() == required,
        users.no_duplicates(),
        filling_front_room(rooms, users, required, k),
    ensures
        filling_front_room(
            pool_join_step(rooms, users[k], required, min, nid, tids),
            users,
            required,
            k + 1,
        ),
{
    let u = users[k];
    assert(users.take(k).len() == k);
    assert(!users.take(k).contains(u)) by {
        if users.take(k).contains(u) {
            let j = choose|j: int| 0 <= j < k && users.take(k)[j] == u;
            assert(users[j] == users[k]);
        }
    }
    assert(room_eligible(rooms[0], u));
    assert(first_eligible(rooms, u) == 0);
    let joined = pool_rooms_after_join(rooms, u, required, nid);
    assert(joined == rooms.update(0, joined_room_model(rooms[0], u)));
    assert(joined[0].players =~= users.take(k + 1)) by {
        assert(users.take(k).push(users[k]) =~= users.take(k + 1));
    }
    lemma_top_up_props(joined, required, min, tids);
    let topped = top_up(joined, required, min, tids);
    assert(topped.take(joined.len() as int)[0] == topped[0]);
    assert(topped[0] == joined[0]);
    assert forall|j: int|
        1 <= j < topped.len() implies is_idle_room(#[trigger] topped[j]) && topped[j].required
        == required by {
        if j < joined.len() {
            assert(topped.take(joined.len() as int)[j] == topped[j]);
            assert(topped[j] == joined[j]);
            assert(joined[j] == rooms[j]);
        }
    }
}

proof fn lemma_fold_keeps_filling(
    rooms: Seq<RoomModel>,
    users: Seq<u128>,
    required: int,
    min: int,
    nids: Seq<u128>,
    tidss: Seq<Seq<u128>>,
    k: int,
)
    requires
        2 <= required,
        0 <= k <= required,
        users.len() == required,
        users.no_duplicates(),
        nids.len() == required - k,
        tidss.len() == required - k,
        filling_front_room(rooms, users, required, k),
    ensures
        filling_front_room(
            pool_join_fold(rooms, users.skip(k), required, min, nids, tidss),
            users,
            required,
            required,
        ),
    decreases required - k,
{
    if k == required {
        assert(users.skip(k).len() == 0);
    } else {
        assert(users.skip(k)[0] == users[k]);
        lemma_join_step_fills(rooms, users, required, min, k, nids[0], tidss[0]);
        let next = pool_join_step(rooms, users[k], required, min, nids[0], tidss[0]);
        assert(users.skip(k).skip(1) =~= users.skip(k + 1));
        lemma_fold_keeps_filling(
            next,
            users,
            required,
            min,
            nids.skip(1),
            tidss.skip(1),
            k + 1,
        );
    }
}

/// One join against a pool that is fresh (every room idle) or mid-fill:
/// the front room gains the user, the snapshot names that room, and it
/// turns `Ready` exactly on the join that fills it.
proof fn lemma_exec_join_step(
    rooms: Seq<RoomModel>,
    users: Seq<u128>,
    required: int,
    min: int,
    j: int,
    nid: u128,
    tids: Seq<u128>,
    mt: MatchType,
)
    requires
        2 <= required,
        0 <= j < required,
        users.len() == required,
        users.no_duplicates(),
        j == 0 ==> pool_rooms_sized(rooms, required) && all_rooms_idle(rooms),
        j >= 1 ==> filling_front_room(rooms, users, required, j),
    ensures
        ({
            let post = pool_join_step(rooms, users[j], required, min, nid, tids);
            let snap = join_snapshot(rooms, users[j], mt, nid);
            &&& filling_front_room(post, users, required, j + 1)
            &&& snap.match_id == post[0].id
            &&& snap.status == (if j + 1 == required {
                RoomStatus::Ready
            } else {
                RoomStatus::Matching
            })
        }),
{
    let u = users[j];
    let post = pool_join_step(rooms, u, required, min, nid, tids);
    if j == 0 && rooms.len() == 0 {
        assert(first_eligible(rooms, u) == -1);
        let fresh = RoomModel {
            id: nid,
            required,
            players: seq![u],
            status: RoomStatus::Matching,
        };
        let joined = pool_rooms_after_join(rooms, u, required, nid);
        assert(joined == rooms.push(fresh));
        assert(joined[0] == fresh);
        lemma_top_up_props(joined, required, min, tids);
        assert(post.take(joined.len() as int)[0] == post[0]);
        assert(post[0] == fresh);
        assert(fresh.players =~= users.take(1));
        assert forall|j2: int|
            1 <= j2 < post.len() implies is_idle_room(#[trigger] post[j2]) && post[j2].required
            == required by {
            assert(j2 >= joined.len());
        }
    } else {
        if j == 0 {
            assert(rooms[0].players =~= users.take(0)) by {
                assert(is_idle_room(rooms[0]));
            }
            assert(filling_front_room(rooms, users, required, 0));
        }
        lemma_join_step_fills(rooms, users, required, min, j, nid, tids);
        assert(users.take(j).len() == j);
        assert(!users.take(j).contains(u)) by {
            if users.take(j).contains(u) {
                let j2 = choose|j2: int| 0 <= j2 < j && users.take(j)[j2] == u;
                assert(users[j2] == users[j]);
            }
        }
        assert(room_eligible(rooms[0], u));
        assert(first_eligible(rooms, u) == 0);
        let joined = pool_rooms_after_join(rooms, u, required, nid);
        assert(joined == rooms.update(0, joined_room_model(rooms[0], u)));
        lemma_top_up_props(joined, required, min, tids);
        assert(post.take(joined.len() as int)[0] == post[0]);
        assert(post[0] == joined[0]);
        assert(post[0].id == rooms[0].id);
    }
}

/// Admitting `required` players with distinct identities into a fresh pool
/// — the linearized order in which the pool lock serves concurrent joins —
/// seats them all in the same room: that one room reaches `Ready` with a
/// roster of exactly those players in admission order, with no overshoot
/// and no duplicate admission, while every other room of the pool stays
/// idle. This holds whatever room identifiers the joins draw.
pub proof fn lemma_distinct_joins_fill_one_room(
    rooms0: Seq<RoomModel>,
    users: Seq<u128>,
    required: int,
    min: int,
    nids: Seq<u128>,
    tidss: Seq<Seq<u128>>,
)
    requires
        2 <= required,
        pool_rooms_sized(rooms0, required),
        all_rooms_idle(rooms0),
        users.no_duplicates(),
        users.len() == required,
        nids.len() == required,
        tidss.len() == required,
    ensures
        ({
            let fin = pool_join_fold(rooms0, users, required, min, nids, tidss);
            &&& fin.len() > 0
            &&& fin[0].status == RoomStatus::Ready
            &&& fin[0].players == users
            &&& forall|j: int| 1 <= j < fin.len() ==> is_idle_room(#[trigger] fin[j])
        }),
{
    let fin = pool_join_fold(rooms0, users, required, min, nids, tidss);
    if rooms0.len() == 0 {
        let u = users[0];
        assert(first_eligible(rooms0, u) == -1);
        let joined = pool_rooms_after_join(rooms0, u, required, nids[0]);
        let fresh = RoomModel {
            id: nids[0],
            required,
            players: seq![u],
            status: RoomStatus::Matching,
        };
        assert(joined == rooms0.push(fresh));
        assert(joined[0] == fresh);
        lemma_top_up_props(joined, required, min, tidss[0]);
        let step = pool_join_step(rooms0, u, required, min, nids[0], tidss[0]);
        assert(step.take(joined.len() as int)[0] == step[0]);
        assert(step[0] == fresh);
        assert(fresh.players =~= users.take(1));
        assert forall|j: int|
            1 <= j < step.len() implies is_idle_room(#[trigger] step[j]) && step[j].required
            == required by {
            assert(j >= joined.len());
        }
        assert(filling_front_room(step, users, required, 1));
        assert(users.skip(1).len() == required - 1);
        lemma_fold_keeps_filling(
            step,
            users,
            required,
            min,
            nids.skip(1),
            tidss.skip(1),
            1,
        );
        assert(fin == pool_join_fold(
            step,
            users.skip(1),
            required,
            min,
            nids.skip(1),
            tidss.skip(1),
        ));
    } else {
        assert(rooms0[0].players =~= users.take(0)) by {
            assert(is_idle_room(rooms0[0]));
        }
        assert(filling_front_room(rooms0, users, required, 0));
        assert(users.skip(0) =~= users);
        lemma_fold_keeps_filling(rooms0, users, required, min, nids, tidss, 0);
        assert(fin == pool_join_fold(rooms0, users.skip(0), required, min, nids, tidss)) by {
            if users.len() > 0 {
                assert(users.skip(0)[0] == users[0]);
                lemma_fold_same_users(rooms0, users.skip(0), users, required, min, nids, tidss);
            }
        }
    }
    assert(users.take(required as int) =~= users);
    assert(filling_front_room(fin, users, required, required));
}

impl MatchService {
    /// Admits a whole group: joins each listed user into the named pool in
    /// order — the linearized schedule in which the pool lock serves that
    /// many concurrent joins with distinct identities. Against a fresh
    /// pool (every room idle) each join succeeds and all land in the same
    /// room: exactly one room turns `Ready`, its roster is exactly the
    /// group in admission order, every other room of the pool stays idle,
    /// and no room ever overshoots its capacity.
    pub fn join_all(&mut self, users: &Vec<u128>, match_type: &str) -> (r: Result<
        MatchResult,
        Error,
    >)
        requires
            old(self).wf(),
            MatchType::spec_from_str(match_type@) is Some,
            users@.no_duplicates(),
            users@.len() == MatchType::spec_from_str(
                match_type@,
            )->Some_0.spec_required_players() as int,
            all_rooms_idle(
                old(self)@[pool_index_of_type(
                    MatchType::spec_from_str(match_type@)->Some_0,
                )].rooms,
            ),
        ensures
            final(self).wf(),
            pools_idle_ok(old(self)@) ==> pools_idle_ok(final(self)@),
            r is Ok,
            ({
                let mt = MatchType::spec_from_str(match_type@)->Some_0;
                let k = pool_index_of_type(mt);
                let rooms = final(self)@[k].rooms;
                &&& rooms.len() > 0
                &&& rooms[0].status == RoomStatus::Ready
                &&& rooms[0].players == users@
                &&& (forall|j: int| 1 <= j < rooms.len() ==> is_idle_room(#[trigger] rooms[j]))
                &&& r->Ok_0.match_id == rooms[0].id
                &&& r->Ok_0.status == RoomStatus::Ready
                &&& (forall|k2: int|
                    0 <= k2 < final(self)@.len() && k2 != k ==> final(self)@[k2] == old(
                        self,
                    )@[k2])
            }),
    {
        let ghost pre = self@;
        let mt = match MatchType::from_str(match_type) {
            Some(m) => m,
            None => {
                proof {
                    assert(false);
                }
                return Err(Error::InvalidMatchType);
            },
        };
        let ghost k = pool_index_of_type(mt);
        let ghost req = mt.spec_required_players() as int;
        let ghost min = mt.spec_min_idle_rooms() as int;
        proof {
            assert(2 <= req);
            assert(pre[k].match_type == mt);
            assert(pool_rooms_sized(pre[k].rooms, req)) by {
                assert(pool_model_wf(pre[k]));
            }
        }
        let n = users.len();
        let mut j: usize = 0;
        let mut last: Option<MatchResult> = None;
        while j < n
            invariant
                j <= n,
                n == users@.len(),
                self.wf(),
                pre == old(self)@,
                pre.len() == 3,
                self@.len() == 3,
                users@.no_duplicates(),
                MatchType::spec_from_str(match_type@) == Some(mt),
                k == pool_index_of_type(mt),
                req == mt.spec_required_players() as int,
                min == mt.spec_min_idle_rooms() as int,
                2 <= req,
                n as int == req,
                0 <= k < 3,
                pre[k].match_type == mt,
                pool_rooms_sized(pre[k].rooms, req),
                all_rooms_idle(pre[k].rooms),
                pools_idle_ok(pre) ==> pools_idle_ok(self@),
                forall|k2: int| 0 <= k2 < 3 && k2 != k ==> self@[k2] == pre[k2],
                j == 0 ==> self@ == pre && last is None,
                j >= 1 ==> {
                    &&& filling_front_room(self@[k].rooms, users@, req, j as int)
                    &&& last is Some
                    &&& last->Some_0.match_id == self@[k].rooms[0].id
                    &&& last->Some_0.status == (if j as int == req {
                        RoomStatus::Ready
                    } else {
                        RoomStatus::Matching
                    })
                },
            decreases n - j,
        {
            let ghost mid = self@;
            let ghost rooms_j = self@[k].rooms;
            let res = match self.join_match(users[j], match_type, false) {
                Ok(res) => res,
                Err(e) => {
                    proof {
                        assert(false);
                    }
                    return Err(e);
                },
            };
            proof {
                let (nid, tids) = choose|nid: u128, tids: Seq<u128>|
                    join_ok_shape(mid, self@, users@[j as int], mt, nid, tids, res);
                assert(self@ == pool_update(
                    mid,
                    k,
                    pool_join_step(rooms_j, users@[j as int], req, min, nid, tids),
                ));
                assert(self@[k].rooms == pool_join_step(
                    rooms_j,
                    users@[j as int],
                    req,
                    min,
                    nid,
                    tids,
                ));
                lemma_exec_join_step(rooms_j, users@, req, min, j as int, nid, tids, mt);
                assert(res == join_snapshot(rooms_j, users@[j as int], mt, nid));
                assert forall|k2: int| 0 <= k2 < 3 && k2 != k implies self@[k2] == pre[
                    k2] by {
                    assert(self@[k2] == mid[k2]);
                }
            }
            last = Some(res);
            j = j + 1;
        }
        proof {
            assert(users@.take(n as int) =~= users@);
        }
        match last {
            Some(res) => Ok(res),
            None => {
                proof {
                    assert(false);
                }
                Err(Error::MatchNotFound)
            },
        }
    }
}

/// Folding over equal user sequences gives equal results.
proof fn lemma_fold_same_users(
    rooms: Seq<RoomModel>,
    a: Seq<u128>,
    b: Seq<u128>,
    required: int,
    min: int,
    nids: Seq<u128>,
    tidss: Seq<Seq<u128>>,
)
    requires
        a == b,
    ensures
        pool_join_fold(rooms, a, required, min, nids, tidss) == pool_join_fold(
            rooms,
            b,
            required,
            min,
            nids,
            tidss,
        ),
{
}

/// Copies a roster.
fn copy_ids(v: &Vec<u128>) -> (r: Vec<u128>)
    ensures
        r@ == v@,
{
    let n = v.len();
    let mut out: Vec<u128> = Vec::new();
    let mut i: usize = 0;
    while i < n
        invariant
            i <= n,
            n == v@.len(),
            out@ == v@.take(i as int),
        decreases n - i,
    {
        out.push(v[i]);
        proof {
            assert(v@.take(i as int).push(v@[i as int]) =~= v@.take(i + 1));
        }
        i = i + 1;
    }
    proof {
        assert(v@.take(n as int) =~= v@);
    }
    out
}

/// Finds the seat of a user on a roster.
fn find_user_pos(v: &Vec<u128>, x: u128) -> (r: Option<usize>)
    ensures
        match r {
            Some(p) => p < v@.len() && v@[p as int] == x && forall|j: int|
                0 <= j < p ==> v@[j] != x,
            None => !v@.contains(x),
        },
{
    let n = v.len();
    let mut i: usize = 0;
    while i < n
        invariant
            i <= n,
            n == v@.len(),
            forall|j: int| 0 <= j < i ==> v@[j] != x,
        decreases n - i,
    {
        if v[i] == x {
            return Some(i);
        }
        i = i + 1;
    }
    None
}

/// Removing the first occurrence by index is `remove_value`.
proof fn lemma_remove_value_at(s: Seq<u128>, x: u128, p: int)
    requires
        0 <= p < s.len(),
        s[p] == x,
        forall|j: int| 0 <= j < p ==> s[j] != x,
    ensures
        s.remove_value(x) == s.remove(p),
{
    s.index_of_first_ensures(x);
    let idx = s.index_of_first(x);
    assert(s.contains(x));
    assert(idx is Some);
    let q = idx->Some_0;
    if q < p {
        assert(s[q] == x);
    }
    if p < q {
    }
}

/// The shape of the registry after the successful leave performed by the
/// exec path matches `leave_ok_shape`.
proof fn lemma_leave_shape_holds(
    pre: Seq<PoolModel>,
    post: Seq<PoolModel>,
    user: u128,
    match_id: u128,
    k: int,
    i: int,
    min: int,
    evicted: bool,
)
    requires
        pools_model_wf(pre),
        0 <= k < pre.len(),
        0 <= i < pre[k].rooms.len(),
        pre[k].rooms[i].id == match_id,
        pre[k].rooms[i].status == RoomStatus::Matching,
        pre[k].rooms[i].players.contains(user),
        min == pre[k].match_type.spec_min_idle_rooms() as int,
        ({
            let r2 = room_without(pre[k].rooms[i], user);
            let rooms2 = pre[k].rooms.update(i, r2);
            if evicted {
                &&& r2.players.len() == 0
                &&& count_idle(rooms2) > min
                &&& post == pool_update(pre, k, rooms2.remove(i))
            } else {
                &&& post == pool_update(pre, k, rooms2)
                &&& !(r2.players.len() == 0 && count_idle(rooms2) > min)
            }
        }),
    ensures
        leave_ok_shape(pre, post, user, match_id, k, i),
{
}

/// A leave keeps every pool well formed.
proof fn lemma_leave_preserves_wf(
    pre: Seq<PoolModel>,
    post: Seq<PoolModel>,
    user: u128,
    k: int,
    i: int,
)
    requires
        pools_model_wf(pre),
        0 <= k < pre.len(),
        0 <= i < pre[k].rooms.len(),
        pre[k].rooms[i].status == RoomStatus::Matching,
        pre[k].rooms[i].players.contains(user),
        ({
            let r2 = room_without(pre[k].rooms[i], user);
            let rooms2 = pre[k].rooms.update(i, r2);
            post == pool_update(pre, k, rooms2) || post == pool_update(
                pre,
                k,
                rooms2.remove(i),
            )
        }),
    ensures
        pools_model_wf(post),
{
    let r1 = pre[k].rooms[i];
    let r2 = room_without(r1, user);
    let rooms2 = pre[k].rooms.update(i, r2);
    r1.players.index_of_first_ensures(user);
    let p = r1.players.index_of_first(user)->Some_0;
    assert(r2.players == r1.players.remove(p));
    lemma_no_dup_remove(r1.players, p);
    assert(room_model_wf(r2));
    assert forall|j: int| 0 <= j < rooms2.len() implies room_model_wf(#[trigger] rooms2[j])
        && rooms2[j].required == pre[k].match_type.spec_required_players() as int by {
        if j != i {
            assert(rooms2[j] == pre[k].rooms[j]);
        }
    }
    if post == pool_update(pre, k, rooms2.remove(i)) {
        assert forall|j: int|
            0 <= j < rooms2.remove(i).len() implies room_model_wf(
            #[trigger] rooms2.remove(i)[j]) && rooms2.remove(i)[j].required == pre[
            k].match_type.spec_required_players() as int by {
            if j < i {
                assert(rooms2.remove(i)[j] == rooms2[j]);
            } else {
                assert(rooms2.remove(i)[j] == rooms2[j + 1]);
            }
        }
    }
    assert forall|k2: int| 0 <= k2 < post.len() implies pool_model_wf(#[trigger] post[k2]) by {
        if k2 != k {
            assert(post[k2] == pre[k2]);
        }
    }
}

/// A leave never drops a pool's idle count below the configured minimum.
proof fn lemma_leave_preserves_idle(
    pre: Seq<PoolModel>,
    post: Seq<PoolModel>,
    user: u128,
    k: int,
    i: int,
    evicted: bool,
)
    requires
        pools_model_wf(pre),
        0 <= k < pre.len(),
        0 <= i < pre[k].rooms.len(),
        pre[k].rooms[i].status == RoomStatus::Matching,
        pre[k].rooms[i].players.contains(user),
        ({
            let r2 = room_without(pre[k].rooms[i], user);
            let rooms2 = pre[k].rooms.update(i, r2);
            if evicted {
                &&& count_idle(rooms2) > pre[k].match_type.spec_min_idle_rooms() as int
                &&& post == pool_update(pre, k, rooms2.remove(i))
                &&& r2.players.len() == 0
            } else {
                post == pool_update(pre, k, rooms2)
            }
        }),
    ensures
        pools_idle_ok(pre) ==> pools_idle_ok(post),
{
    if pools_idle_ok(pre) {
        let r1 = pre[k].rooms[i];
        let r2 = room_without(r1, user);
        let rooms2 = pre[k].rooms.update(i, r2);
        let min = pre[k].match_type.spec_min_idle_rooms() as int;
        assert(r1.players.len() > 0);
        assert(!is_idle_room(r1));
        lemma_count_idle_update(pre[k].rooms, i, r2);
        assert(count_idle(rooms2) >= count_idle(pre[k].rooms));
        if evicted {
            assert(is_idle_room(rooms2[i]));
            lemma_count_idle_remove(rooms2, i);
            assert(count_idle(rooms2.remove(i)) == count_idle(rooms2) - 1);
            assert(count_idle(rooms2.remove(i)) >= min);
        }
        assert forall|k2: int|
            0 <= k2 < post.len() implies count_idle(#[trigger] post[k2].rooms) >= post[
            k2].match_type.spec_min_idle_rooms() as int by {
            if k2 != k {
                assert(post[k2] == pre[k2]);
            }
        }
    }
}

/// A successful join keeps every pool well formed: the seated room stays
/// within capacity and duplicate-free, and the priming rooms are fresh.
proof fn lemma_join_preserves_wf(
    pre: Seq<PoolModel>,
    post: Seq<PoolModel>,
    user: u128,
    mt: MatchType,
    new_id: u128,
    tids: Seq<u128>,
)
    requires
        pools_model_wf(pre),
        post == pool_update(
            pre,
            pool_index_of_type(mt),
            top_up(
                pool_rooms_after_join(
                    pre[pool_index_of_type(mt)].rooms,
                    user,
                    mt.spec_required_players() as int,
                    new_id,
                ),
                mt.spec_required_players() as int,
                mt.spec_min_idle_rooms() as int,
                tids,
            ),
        ),
        pre[pool_index_of_type(mt)].match_type == mt,
    ensures
        pools_model_wf(post),
{
    let k = pool_index_of_type(mt);
    let req = mt.spec_required_players() as int;
    let min = mt.spec_min_idle_rooms() as int;
    let rooms0 = pre[k].rooms;
    let joined = pool_rooms_after_join(rooms0, user, req, new_id);
    let topped = top_up(joined, req, min, tids);
    lemma_first_eligible_props(rooms0, user);
    let f = first_eligible(rooms0, user);
    assert forall|i: int| 0 <= i < joined.len() implies room_model_wf(#[trigger] joined[i])
        && joined[i].required == req by {
        if f >= 0 {
            assert(joined == rooms0.update(f, joined_room_model(rooms0[f], user)));
            if i == f {
                lemma_no_dup_push(rooms0[f].players, user);
            } else {
                assert(joined[i] == rooms0[i]);
            }
        } else {
            if i < rooms0.len() {
                assert(joined[i] == rooms0[i]);
            } else {
                assert(joined[i] == RoomModel {
                    id: new_id,
                    required: req,
                    players: seq![user],
                    status: RoomStatus::Matching,
                });
            }
        }
    }
    lemma_top_up_props(joined, req, min, tids);
    assert forall|i: int| 0 <= i < topped.len() implies room_model_wf(#[trigger] topped[i])
        && topped[i].required == req by {
        if i < joined.len() {
            assert(topped.take(joined.len() as int)[i] == topped[i]);
            assert(topped[i] == joined[i]);
        }
    }
    assert forall|k2: int| 0 <= k2 < post.len() implies pool_model_wf(#[trigger] post[k2]) by {
        if k2 != k {
            assert(post[k2] == pre[k2]);
        }
    }
}

} // verus!
