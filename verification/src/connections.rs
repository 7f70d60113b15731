//! The connection registry: which user owns each live connection and which
//! match, if any, the connection is currently bound to. The transport's
//! outbound send handles stay with the unverified shell, keyed by the same
//! connection identities.

use vstd::prelude::*;

verus! {

/// Per-connection state: the owning user and the optional bound match.
#[derive(Debug, Clone, Copy, PartialEq, Eq, Structural)]
pub struct ClientState {
    pub user_id: u128,
    pub match_id: Option<u128>,
}

/// One registered connection.
#[derive(Debug, Clone, Copy, PartialEq, Eq, Structural)]
pub struct ConnEntry {
    pub conn_id: u128,
    pub state: ClientState,
}

/// The state registered under `conn_id`: the first entry holding it, if any.
pub open spec fn conn_lookup(s: Seq<ConnEntry>, conn_id: u128) -> Option<ClientState>
    decreases s.len(),
{
    if s.len() == 0 {
        None
    } else if s[0].conn_id == conn_id {
        Some(s[0].state)
    } else {
        conn_lookup(s.skip(1), conn_id)
    }
}

/// True when `conn_id` is registered and bound to `match_id`.
pub open spec fn conn_bound_to(s: Seq<ConnEntry>, conn_id: u128, match_id: u128) -> bool {
    match conn_lookup(s, conn_id) {
        Some(st) => st.match_id == Some(match_id),
        None => false,
    }
}

proof fn lemma_lookup_found(s: Seq<ConnEntry>, c: u128, i: int)
    requires
        0 <= i < s.len(),
        s[i].conn_id == c,
        forall|j: int| 0 <= j < i ==> s[j].conn_id != c,
    ensures
        conn_lookup(s, c) == Some(s[i].state),
    decreases i,
{
    if i > 0 {
        assert(s[0].conn_id != c);
        let t = s.skip(1);
        assert(forall|j: int| 0 <= j < i - 1 ==> t[j] == s[j + 1]);
        assert(t[i - 1] == s[i]);
        lemma_lookup_found(t, c, i - 1);
    }
}

proof fn lemma_lookup_absent(s: Seq<ConnEntry>, c: u128)
    requires
        forall|j: int| 0 <= j < s.len() ==> s[j].conn_id != c,
    ensures
        conn_lookup(s, c) == None::<ClientState>,
    decreases s.len(),
{
    if s.len() > 0 {
        let t = s.skip(1);
        assert(forall|j: int| 0 <= j < t.len() ==> t[j] == s[j + 1]);
        lemma_lookup_absent(t, c);
    }
}

/// A present lookup names an entry of the list.
proof fn lemma_lookup_some_index(s: Seq<ConnEntry>, c: u128)
    requires
        conn_lookup(s, c) is Some,
    ensures
        exists|j: int|
            0 <= j < s.len() && s[j].conn_id == c && s[j].state == conn_lookup(
                s,
                c,
            )->Some_0,
    decreases s.len(),
{
    if s.len() > 0 && s[0].conn_id != c {
        let t = s.skip(1);
        lemma_lookup_some_index(t, c);
        let j = choose|j: int|
            0 <= j < t.len() && t[j].conn_id == c && t[j].state == conn_lookup(t, c)->Some_0;
        assert(s[j + 1] == t[j]);
    }
}

/// An absent lookup means no entry holds the identity.
proof fn lemma_lookup_none_absent(s: Seq<ConnEntry>, c: u128)
    requires
        conn_lookup(s, c) is None,
    ensures
        forall|j: int| 0 <= j < s.len() ==> s[j].conn_id != c,
    decreases s.len(),
{
    if s.len() > 0 {
        let t = s.skip(1);
        lemma_lookup_none_absent(t, c);
        assert forall|j: int| 0 <= j < s.len() implies s[j].conn_id != c by {
            if j > 0 {
                assert(t[j - 1] == s[j]);
                assert(t[j - 1].conn_id != c);
            }
        }
    }
}

/// Overwriting an entry of another connection leaves a lookup unchanged.
proof fn lemma_lookup_after_update(a: Seq<ConnEntry>, i: int, e: ConnEntry, c: u128)
    requires
        0 <= i < a.len(),
        a[i].conn_id != c,
        e.conn_id != c,
    ensures
        conn_lookup(a.update(i, e), c) == conn_lookup(a, c),
    decreases a.len(),
{
    let b = a.update(i, e);
    assert(b.len() == a.len());
    if i == 0 {
        assert(b.skip(1) =~= a.skip(1));
        assert(b[0] == e);
    } else {
        assert(b[0] == a[0]);
        if a[0].conn_id != c {
            assert(b.skip(1) =~= a.skip(1).update(i - 1, e));
            assert(a.skip(1)[i - 1] == a[i]);
            lemma_lookup_after_update(a.skip(1), i - 1, e, c);
        }
    }
}

/// Appending an entry of another connection leaves a lookup unchanged.
proof fn lemma_lookup_after_push(a: Seq<ConnEntry>, e: ConnEntry, c: u128)
    requires
        e.conn_id != c,
    ensures
        conn_lookup(a.push(e), c) == conn_lookup(a, c),
    decreases a.len(),
{
    let b = a.push(e);
    if a.len() == 0 {
        assert(b[0] == e);
        assert(b.skip(1) =~= Seq::<ConnEntry>::empty());
        assert(conn_lookup(b.skip(1), c) == None::<ClientState>);
    } else {
        assert(b[0] == a[0]);
        if a[0].conn_id != c {
            assert(b.skip(1) =~= a.skip(1).push(e));
            lemma_lookup_after_push(a.skip(1), e, c);
        }
    }
}

/// Removing an entry of another connection leaves a lookup unchanged.
proof fn lemma_lookup_after_remove(a: Seq<ConnEntry>, i: int, c: u128)
    requires
        0 <= i < a.len(),
        a[i].conn_id != c,
    ensures
        conn_lookup(a.remove(i), c) == conn_lookup(a, c),
    decreases a.len(),
{
    let b = a.remove(i);
    if i == 0 {
        assert(b =~= a.skip(1));
    } else {
        assert(b[0] == a[0]);
        if a[0].conn_id != c {
            assert(b.skip(1) =~= a.skip(1).remove(i - 1));
            assert(a.skip(1)[i - 1] == a[i]);
            lemma_lookup_after_remove(a.skip(1), i - 1, c);
        }
    }
}

/// Tracks the live connections. The registry is the sole writer of
/// bindings; sessions read them and request changes through it.
#[derive(Debug)]
pub struct ConnectionManager {
    entries: Vec<ConnEntry>,
}

impl View for ConnectionManager {
    type V = Seq<ConnEntry>;

    closed spec fn view(&self) -> Seq<ConnEntry> {
        self.entries@
    }
}

impl ConnectionManager {
    /// No connection is registered twice.
    pub open spec fn wf(&self) -> bool {
        forall|i: int, j: int|
            0 <= i < j < self@.len() ==> self@[i].conn_id != self@[j].conn_id
    }

    pub fn new() -> (r: ConnectionManager)
        ensures
            r.wf(),
            r@.len() == 0,
    {
        ConnectionManager { entries: Vec::new() }
    }

    /// Finds the position of `conn_id` in the entry list.
    fn find_index(&self, conn_id: u128) -> (r: Option<usize>)
        ensures
            match r {
                Some(i) => {
                    &&& i < self@.len()
                    &&& self@[i as int].conn_id == conn_id
                    &&& forall|j: int| 0 <= j < i ==> self@[j].conn_id != conn_id
                    &&& conn_lookup(self@, conn_id) == Some(self@[i as int].state)
                },
                None => conn_lookup(self@, conn_id) == None::<ClientState>,
            },
    {
        let n = self.entries.len();
        let mut i: usize = 0;
        while i < n
            invariant
                i <= n,
                n == self@.len(),
                forall|j: int| 0 <= j < i ==> self@[j].conn_id != conn_id,
            decreases n - i,
        {
            if self.entries[i].conn_id == conn_id {
                proof {
                    lemma_lookup_found(self@, conn_id, i as int);
                }
                return Some(i);
            }
            i = i + 1;
        }
        proof {
            lemma_lookup_absent(self@, conn_id);
        }
        None
    }

    /// Registers a connection for `user_id`, with no match bound yet. A
    /// connection identity already present is rebound to the new user.
    pub fn add_connection(&mut self, conn_id: u128, user_id: u128)
        requires
            old(self).wf(),
        ensures
            final(self).wf(),
            conn_lookup(final(self)@, conn_id) == Some(
                ClientState { user_id, match_id: None::<u128> },
            ),
            forall|c: u128|
                c != conn_id ==> conn_lookup(final(self)@, c) == conn_lookup(old(self)@, c),
    {
        let entry = ConnEntry { conn_id, state: ClientState { user_id, match_id: None } };
        match self.find_index(conn_id) {
            Some(i) => {
                let ghost pre = self@;
                self.entries[i] = entry;
                proof {
                    assert(self@ =~= pre.update(i as int, entry));
                    lemma_lookup_found(self@, conn_id, i as int);
                    assert forall|c: u128| c != conn_id implies conn_lookup(self@, c)
                        == conn_lookup(pre, c) by {
                        lemma_lookup_after_update(pre, i as int, entry, c);
                    }
                }
            },
            None => {
                let ghost pre = self@;
                proof {
                    lemma_lookup_none_absent(pre, conn_id);
                }
                self.entries.push(entry);
                proof {
                    assert(self@ =~= pre.push(entry));
                    lemma_lookup_found(self@, conn_id, pre.len() as int);
                    assert forall|c: u128| c != conn_id implies conn_lookup(self@, c)
                        == conn_lookup(pre, c) by {
                        lemma_lookup_after_push(pre, entry, c);
                    }
                }
            },
        }
    }

    /// Removes a connection; absent identities are a no-op.
    pub fn remove_connection(&mut self, conn_id: u128)
        requires
            old(self).wf(),
        ensures
            final(self).wf(),
            conn_lookup(final(self)@, conn_id) == None::<ClientState>,
            forall|c: u128|
                c != conn_id ==> conn_lookup(final(self)@, c) == conn_lookup(old(self)@, c),
    {
        match self.find_index(conn_id) {
            Some(i) => {
                let ghost pre = self@;
                self.entries.remove(i);
                proof {
                    assert(self@ =~= pre.remove(i as int));
                    assert forall|j: int| 0 <= j < self@.len() implies self@[j].conn_id
                        != conn_id by {
                        if j < i {
                            assert(self@[j] == pre[j]);
                        } else {
                            assert(self@[j] == pre[j + 1]);
                        }
                    }
                    lemma_lookup_absent(self@, conn_id);
                    assert forall|c: u128| c != conn_id implies conn_lookup(self@, c)
                        == conn_lookup(pre, c) by {
                        lemma_lookup_after_remove(pre, i as int, c);
                    }
                }
            },
            None => {},
        }
    }

    /// The registered state of a connection, as a copy.
    pub fn get_connection(&self, conn_id: u128) -> (r: Option<ClientState>)
        ensures
            r == conn_lookup(self@, conn_id),
    {
        match self.find_index(conn_id) {
            Some(i) => Some(self.entries[i].state),
            None => None,
        }
    }

    /// Binds or unbinds the connection's match. Unknown connections are left
    /// as they are.
    pub fn update_match_id(&mut self, conn_id: u128, match_id: Option<u128>)
        requires
            old(self).wf(),
        ensures
            final(self).wf(),
            conn_lookup(old(self)@, conn_id) is Some ==> conn_lookup(final(self)@, conn_id)
                == Some(
                ClientState {
                    user_id: conn_lookup(old(self)@, conn_id)->Some_0.user_id,
                    match_id,
                },
            ),
            conn_lookup(old(self)@, conn_id) is None ==> final(self)@ == old(self)@,
            forall|c: u128|
                c != conn_id ==> conn_lookup(final(self)@, c) == conn_lookup(old(self)@, c),
    {
        match self.find_index(conn_id) {
            Some(i) => {
                let ghost pre = self@;
                let user_id = self.entries[i].state.user_id;
                let entry = ConnEntry { conn_id, state: ClientState { user_id, match_id } };
                self.entries[i] = entry;
                proof {
                    assert(self@ =~= pre.update(i as int, entry));
                    lemma_lookup_found(self@, conn_id, i as int);
                    assert forall|c: u128| c != conn_id implies conn_lookup(self@, c)
                        == conn_lookup(pre, c) by {
                        lemma_lookup_after_update(pre, i as int, entry, c);
                    }
                }
            },
            None => {},
        }
    }

    /// Exactly the set of connections currently bound to `match_id`: no
    /// stale entries, no missed entries, each one once.
    pub fn get_connections_by_match(&self, match_id: u128) -> (r: Vec<u128>)
        requires
            self.wf(),
        ensures
            r@.no_duplicates(),
            forall|c: u128| #[trigger]
                r@.contains(c) <==> conn_bound_to(self@, c, match_id),
    {
        let n = self.entries.len();
        let mut out: Vec<u128> = Vec::new();
        let mut i: usize = 0;
        while i < n
            invariant
                i <= n,
                n == self@.len(),
                self.wf(),
                forall|k: int|
                    0 <= k < out@.len() ==> exists|j: int|
                        0 <= j < i && self@[j].conn_id == #[trigger] out@[k]
                            && self@[j].state.match_id == Some(match_id),
                forall|j: int|
                    0 <= j < i && self@[j].state.match_id == Some(match_id)
                        ==> out@.contains(#[trigger] self@[j].conn_id),
                out@.no_duplicates(),
            decreases n - i,
        {
            let e = self.entries[i];
            let is_bound = match e.state.match_id {
                Some(m) => m == match_id,
                None => false,
            };
            if is_bound {
                let ghost prev = out@;
                proof {
                    assert forall|k: int| 0 <= k < prev.len() implies prev[k] != e.conn_id by {
                        let j = choose|j: int|
                            0 <= j < i && self@[j].conn_id == prev[k]
                                && self@[j].state.match_id == Some(match_id);
                        assert(self@[j].conn_id != self@[i as int].conn_id);
                    }
                }
                out.push(e.conn_id);
                proof {
                    assert(out@ =~= prev.push(e.conn_id));
                    assert(out@[out@.len() - 1] == e.conn_id);
                    assert forall|j: int|
                        0 <= j < i + 1 && self@[j].state.match_id == Some(match_id)
                            implies out@.contains(#[trigger] self@[j].conn_id) by {
                        if j < i {
                            let k = choose|k: int| 0 <= k < prev.len() && prev[k] == self@[j].conn_id;
                            assert(out@[k] == self@[j].conn_id);
                        } else {
                            assert(out@[out@.len() - 1] == self@[j].conn_id);
                        }
                    }
                }
            }
            i = i + 1;
        }
        proof {
            assert forall|c: u128| #[trigger] out@.contains(c) implies conn_bound_to(
                self@,
                c,
                match_id,
            ) by {
                let k = choose|k: int| 0 <= k < out@.len() && out@[k] == c;
                let j = choose|j: int|
                    0 <= j < n && self@[j].conn_id == c && self@[j].state.match_id
                        == Some(match_id);
                assert forall|m: int| 0 <= m < j implies self@[m].conn_id != c by {
                    assert(self@[m].conn_id != self@[j].conn_id);
                }
                lemma_lookup_found(self@, c, j);
            }
            assert forall|c: u128| conn_bound_to(self@, c, match_id) implies #[trigger] out@
                .contains(c) by {
                lemma_lookup_some_index(self@, c);
                let j = choose|j: int|
                    0 <= j < self@.len() && self@[j].conn_id == c && self@[j].state
                        == conn_lookup(self@, c)->Some_0;
                assert(self@[j].state.match_id == Some(match_id));
            }
        }
        out
    }
}

} // verus!
