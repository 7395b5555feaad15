use std::collections::VecDeque;
use vstd::prelude::*;
use vstd::set_lib::{lemma_int_range, lemma_len_subset, lemma_set_disjoint_lens, set_int_range};
use crate::connection::{
    close_next, fresh, interest_of, read_next, send_next, write_next, Client, ClientState,
    ClientView, Interest, ReadOutcome, WriteOutcome,
};

verus! {

broadcast use vstd::seq_lib::group_seq_properties;

/// Identifier of the listening socket; never handed to a connection.
pub const SERVER: usize = 0;

/// Abstract state of the connection table.
pub struct ServerView {
    /// `max_connections`: identifiers run over `1..=capacity`.
    pub capacity: nat,
    /// Active connections by identifier.
    pub conns: Map<int, ClientView>,
    /// Free identifiers; the first is handed out next.
    pub free: Seq<int>,
}

impl ServerView {
    /// The table's invariant: active and free identifiers partition `1..=capacity`,
    /// each active connection carries its own identifier, no identifier is free twice.
    pub open spec fn inv(self) -> bool {
        &&& forall|i: int| #[trigger]
            self.conns.contains_key(i) ==> 1 <= i <= self.capacity && self.conns[i].token == i
                && self.conns[i].wf()
        &&& forall|k: int|
            0 <= k < self.free.len() ==> 1 <= #[trigger] self.free[k] <= self.capacity
                && !self.conns.contains_key(self.free[k])
        &&& self.free.no_duplicates()
        &&& forall|i: int|
            1 <= i <= self.capacity ==> #[trigger] self.conns.contains_key(i) || self.free.contains(i)
    }

    pub open spec fn active_ids(self) -> Set<int> {
        self.conns.dom()
    }

    pub open spec fn free_ids(self) -> Set<int> {
        self.free.to_set()
    }

    /// The identifier that the next accept hands out, if any.
    pub open spec fn next_token(self) -> Option<int> {
        if self.free.len() == 0 {
            None
        } else {
            Some(self.free[0])
        }
    }

    /// The table after `id` is removed: a no-op unless `id` is active; its identifier
    /// goes to the front of the free list.
    pub open spec fn removed(self, id: int) -> ServerView {
        if self.conns.contains_key(id) {
            ServerView { conns: self.conns.remove(id), free: seq![id] + self.free, ..self }
        } else {
            self
        }
    }

    pub open spec fn with_conn(self, id: int, c: ClientView) -> ServerView {
        ServerView { conns: self.conns.insert(id, c), ..self }
    }
}

/// Exclusivity and conservation: no identifier is both active and free, distinct
/// active connections hold distinct identifiers, and the active and free identifiers
/// together number exactly `max_connections`.
pub proof fn lemma_identifiers_partition(v: ServerView)
    requires
        v.inv(),
    ensures
        v.active_ids().disjoint(v.free_ids()),
        forall|i: int, j: int|
            #![trigger v.conns[i], v.conns[j]]
            v.conns.contains_key(i) && v.conns.contains_key(j) && i != j ==> v.conns[i].token
                != v.conns[j].token,
        v.active_ids().finite(),
        v.active_ids().len() + v.free_ids().len() == v.capacity,
        v.free_ids().len() == v.free.len(),
{
    let range = set_int_range(1, v.capacity as int + 1);
    lemma_int_range(1, v.capacity as int + 1);
    assert(v.active_ids().subset_of(range));
    assert(v.free_ids().subset_of(range)) by {
        assert forall|x: int| v.free_ids().contains(x) implies range.contains(x) by {
            let k = choose|k: int| 0 <= k < v.free.len() && v.free[k] == x;
        }
    }
    lemma_len_subset(v.active_ids(), range);
    lemma_len_subset(v.free_ids(), range);
    assert(v.active_ids().disjoint(v.free_ids())) by {
        assert forall|x: int| v.active_ids().contains(x) implies !v.free_ids().contains(x) by {
            if v.free_ids().contains(x) {
                let k = choose|k: int| 0 <= k < v.free.len() && v.free[k] == x;
            }
        }
    }
    assert(v.active_ids() + v.free_ids() =~= range);
    lemma_set_disjoint_lens(v.active_ids(), v.free_ids());
    v.free.unique_seq_to_set();
}

/// The connection table: a slot per identifier and a list of free identifiers.
pub struct Server {
    clients: Vec<Option<Client>>,
    tokens: VecDeque<usize>,
}

impl View for Server {
    type V = ServerView;

    closed spec fn view(&self) -> ServerView {
        ServerView {
            capacity: self.clients@.len(),
            conns: Map::new(
                |i: int| 1 <= i <= self.clients@.len() && self.clients@[i - 1] is Some,
                |i: int| self.clients@[i - 1]->Some_0@,
            ),
            free: self.tokens@.map_values(|t: usize| t as int),
        }
    }
}

/// Where a readiness event goes.
#[derive(Debug, Clone, Copy, PartialEq, Eq, Structural)]
pub enum Route {
    /// The listener is ready: accept one connection.
    Listener,
    /// An active connection is ready: run its read/write step.
    Connection(usize),
    /// The identifier is no longer active: nothing to do.
    Ignore,
}

/// What the event loop does once a connection's read/write step is over.
#[derive(Debug, Clone, Copy, PartialEq, Eq, Structural)]
pub enum Followup {
    /// The identifier is not active.
    Ignore,
    /// Still open: re-register with this interest.
    Rearm(Interest),
    /// Closed and removed now: shut the socket down and notify the disconnect.
    Disconnect,
    /// Already closed before; removed without a second notification.
    Dropped,
}

impl Server {
    pub open spec fn wf(&self) -> bool {
        self@.inv()
    }

    /// A table for `max` connections, all identifiers free, in the order `1..=max`.
    pub fn new(max: usize) -> (s: Server)
        ensures
            s.wf(),
            s@.capacity == max,
            s@.conns == Map::<int, ClientView>::empty(),
            s@.free == Seq::new(max as nat, |k: int| k + 1),
    {
        let mut clients: Vec<Option<Client>> = Vec::new();
        let mut tokens: VecDeque<usize> = VecDeque::new();
        let mut n: usize = 0;
        while n < max
            invariant
                n <= max,
                clients@.len() == n,
                forall|k: int| 0 <= k < n ==> #[trigger] clients@[k] is None,
                tokens@.len() == n,
                forall|k: int| 0 <= k < n ==> #[trigger] tokens@[k] == k + 1,
            decreases max - n,
        {
            clients.push(None);
            tokens.push_back(n + 1);
            n = n + 1;
        }
        let s = Server { clients, tokens };
        assert(s@.conns =~= Map::<int, ClientView>::empty());
        assert(s@.free =~= Seq::new(max as nat, |k: int| k + 1));
        assert forall|i: int| 1 <= i <= s@.capacity implies #[trigger] s@.conns.contains_key(i)
            || s@.free.contains(i) by {
            assert(s@.free[i - 1] == i);
        }
        s
    }

    /// `max_connections`.
    pub fn capacity(&self) -> (r: usize)
        ensures
            r == self@.capacity,
    {
        self.clients.len()
    }

    /// Number of free identifiers.
    pub fn free_count(&self) -> (r: usize)
        ensures
            r == self@.free.len(),
    {
        self.tokens.len()
    }

    fn is_active(&self, id: usize) -> (r: bool)
        ensures
            r == self@.conns.contains_key(id as int),
    {
        id >= 1 && id <= self.clients.len() && self.clients[id - 1].is_some()
    }

    /// Takes the connection out of its slot, leaving the slot empty.
    fn take(&mut self, id: usize) -> (r: Client)
        requires
            1 <= id <= old(self).clients@.len(),
            old(self).clients@[id - 1] is Some,
        ensures
            r == old(self).clients@[id - 1]->Some_0,
            final(self).clients@ == old(self).clients@.update(id - 1, None),
            final(self).tokens@ == old(self).tokens@,
            r@ == old(self)@.conns[id as int],
            final(self)@ == (ServerView { conns: old(self)@.conns.remove(id as int), ..old(self)@ }),
    {
        let mut slot: Option<Client> = None;
        std::mem::swap(&mut self.clients[id - 1], &mut slot);
        assert(self@.conns =~= old(self)@.conns.remove(id as int));
        slot.unwrap()
    }

    /// Puts a connection back into the slot that `take` emptied.
    fn put(&mut self, id: usize, c: Client)
        requires
            1 <= id <= old(self).clients@.len(),
        ensures
            final(self)@ == old(self)@.with_conn(id as int, c@),
    {
        self.clients[id - 1] = Some(c);
        assert(self@.conns =~= old(self)@.conns.insert(id as int, c@));
    }

    /// Hands out the next free identifier with a fresh `Open` connection, or `None`
    /// when every identifier is in use, changing nothing.
    pub fn accept(&mut self) -> (r: Option<usize>)
        requires
            old(self).wf(),
        ensures
            final(self).wf(),
            r is None <==> old(self)@.active_ids().len() == old(self)@.capacity,
            r is None ==> final(self)@ == old(self)@,
            r is Some ==> final(self)@.active_ids().len() == old(self)@.active_ids().len() + 1,
            r matches Some(id) ==> Some(id as int) == old(self)@.next_token() && final(self)@ == (
            ServerView {
                conns: old(self)@.conns.insert(id as int, fresh(id)),
                free: old(self)@.free.drop_first(),
                ..old(self)@
            }),
    {
        proof {
            lemma_identifiers_partition(self@);
        }
        match self.tokens.pop_front() {
            None => {
                assert(old(self)@.free.len() == 0);
                None
            },
            Some(id) => {
                let ghost v0 = old(self)@;
                assert(v0.free[0] == id);
                let c = Client::new(id);
                self.clients[id - 1] = Some(c);
                let ghost v1 = ServerView {
                    conns: v0.conns.insert(id as int, fresh(id)),
                    free: v0.free.drop_first(),
                    ..v0
                };
                assert(self@.conns =~= v1.conns);
                assert(self@.free =~= v1.free);
                assert forall|k: int| 0 <= k < v1.free.len() implies !v1.conns.contains_key(
                    #[trigger] v1.free[k],
                ) by {
                    assert(v1.free[k] == v0.free[k + 1]);
                }
                assert forall|i: int| 1 <= i <= v1.capacity implies #[trigger] v1.conns.contains_key(
                    i,
                ) || v1.free.contains(i) by {
                    if !v1.conns.contains_key(i) {
                        let k = choose|k: int| 0 <= k < v0.free.len() && v0.free[k] == i;
                        assert(v1.free[k - 1] == i);
                    }
                }
                assert(v1.active_ids() =~= v0.active_ids().insert(id as int));
                Some(id)
            },
        }
    }

    /// The connection under `id`, if active.
    pub fn get(&self, id: usize) -> (r: Option<&Client>)
        ensures
            match r {
                Some(c) => self@.conns.contains_key(id as int) && c@ == self@.conns[id as int],
                None => !self@.conns.contains_key(id as int),
            },
    {
        if id == 0 || id > self.clients.len() {
            None
        } else {
            match &self.clients[id - 1] {
                Some(c) => Some(c),
                None => None,
            }
        }
    }

    /// Removes the connection under `id` and returns its identifier to the front of
    /// the free list; a no-op when `id` is not active.
    pub fn remove(&mut self, id: usize)
        requires
            old(self).wf(),
        ensures
            final(self).wf(),
            final(self)@ == old(self)@.removed(id as int),
    {
        if self.is_active(id) {
            let _ = self.take(id);
            self.tokens.push_front(id);
            let ghost v0 = old(self)@;
            let ghost v1 = v0.removed(id as int);
            assert(self@.conns =~= v1.conns);
            assert(self@.free =~= v1.free);
            assert forall|k: int| 0 <= k < v1.free.len() implies 1 <= #[trigger] v1.free[k]
                <= v1.capacity && !v1.conns.contains_key(v1.free[k]) by {
                if k > 0 {
                    assert(v1.free[k] == v0.free[k - 1]);
                }
            }
            assert forall|i: int| 1 <= i <= v1.capacity implies #[trigger] v1.conns.contains_key(
                i,
            ) || v1.free.contains(i) by {
                if i == id {
                    assert(v1.free[0] == i);
                } else if !v0.conns.contains_key(i) {
                    let k = choose|k: int| 0 <= k < v0.free.len() && v0.free[k] == i;
                    assert(v1.free[k + 1] == i);
                }
            }
            assert(v1.free.no_duplicates()) by {
                assert forall|a: int, b: int| 0 <= a < b < v1.free.len() implies v1.free[a]
                    != v1.free[b] by {
                    if a > 0 {
                        assert(v1.free[a] == v0.free[a - 1]);
                    }
                    assert(v1.free[b] == v0.free[b - 1]);
                }
            }
        }
    }
    /// Enqueues `buf` on the connection under `id`. Fails (false) when `id` is not
    /// active or the connection is closed.
    pub fn send(&mut self, id: usize, buf: Vec<u8>) -> (r: bool)
        requires
            old(self).wf(),
        ensures
            final(self).wf(),
            r == (old(self)@.conns.contains_key(id as int) && old(self)@.conns[id as int].state
                != ClientState::Closed),
            old(self)@.conns.contains_key(id as int) ==> final(self)@ == old(self)@.with_conn(
                id as int,
                send_next(old(self)@.conns[id as int], buf@).0,
            ),
            !old(self)@.conns.contains_key(id as int) ==> final(self)@ == old(self)@,
    {
        if !self.is_active(id) {
            return false;
        }
        let mut c = self.take(id);
        let r = c.send(buf);
        self.put(id, c);
        proof {
            assert(self@.conns =~= old(self)@.conns.insert(id as int, c@));
            lemma_with_conn_inv(old(self)@, id as int, c@);
        }
        r
    }

    /// Turns reading on or off for the connection under `id`; fails (false) when
    /// `id` is not active.
    pub fn set_read_interest(&mut self, id: usize, enabled: bool) -> (r: bool)
        requires
            old(self).wf(),
        ensures
            final(self).wf(),
            r == old(self)@.conns.contains_key(id as int),
            r ==> final(self)@ == old(self)@.with_conn(
                id as int,
                ClientView { read_interest: enabled, ..old(self)@.conns[id as int] },
            ),
            !r ==> final(self)@ == old(self)@,
    {
        if !self.is_active(id) {
            return false;
        }
        let mut c = self.take(id);
        c.set_read_interest(enabled);
        self.put(id, c);
        proof {
            assert(self@.conns =~= old(self)@.conns.insert(id as int, c@));
            lemma_with_conn_inv(old(self)@, id as int, c@);
        }
        true
    }

    /// Runs the close sequence on the connection under `id` and removes it.
    /// Returns whether a shutdown and a disconnect notification are due: only when
    /// `id` was active and not closed already. Closing an unknown `id` changes nothing.
    pub fn close(&mut self, id: usize) -> (r: bool)
        requires
            old(self).wf(),
        ensures
            final(self).wf(),
            r == (old(self)@.conns.contains_key(id as int) && close_next(
                old(self)@.conns[id as int],
            ).1),
            final(self)@ == old(self)@.removed(id as int),
    {
        if !self.is_active(id) {
            return false;
        }
        let mut c = self.take(id);
        let r = c.close_socket();
        self.put(id, c);
        proof {
            assert(self@.conns =~= old(self)@.conns.insert(id as int, c@));
            lemma_with_conn_inv(old(self)@, id as int, c@);
        }
        self.remove(id);
        assert(self@.conns =~= old(self)@.removed(id as int).conns);
        r
    }

    /// Feeds one read attempt into the drain of the connection under `id`.
    /// Returns whether to read again; an inactive `id` reads nothing.
    pub fn read_step(&mut self, id: usize, acc: &mut Vec<u8>, outcome: ReadOutcome) -> (more: bool)
        requires
            old(self).wf(),
        ensures
            final(self).wf(),
            old(self)@.conns.contains_key(id as int) ==> ({
                let (c, a, m) = read_next(old(self)@.conns[id as int], old(acc)@, outcome);
                final(self)@ == old(self)@.with_conn(id as int, c) && final(acc)@ == a && more == m
            }),
            !old(self)@.conns.contains_key(id as int) ==> final(self)@ == old(self)@
                && final(acc)@ == old(acc)@ && !more,
    {
        if !self.is_active(id) {
            return false;
        }
        let mut c = self.take(id);
        let more = c.read_step(acc, outcome);
        self.put(id, c);
        proof {
            assert(self@.conns =~= old(self)@.conns.insert(id as int, c@));
            lemma_with_conn_inv(old(self)@, id as int, c@);
        }
        more
    }

    /// The oldest unwritten buffer of the connection under `id`, while it is open.
    pub fn front(&self, id: usize) -> (r: Option<&Vec<u8>>)
        ensures
            r is None <==> !self@.conns.contains_key(id as int) || self@.conns[id as int].state
                != ClientState::Open || self@.conns[id as int].queue.len() == 0,
            r matches Some(b) ==> b@ == self@.conns[id as int].queue[0],
    {
        match self.get(id) {
            Some(c) => c.front(),
            None => None,
        }
    }

    /// Feeds the result of writing the head buffer of the connection under `id`.
    /// Returns whether to write again; an inactive `id` writes nothing.
    pub fn write_step(&mut self, id: usize, outcome: WriteOutcome) -> (more: bool)
        requires
            old(self).wf(),
        ensures
            final(self).wf(),
            old(self)@.conns.contains_key(id as int) ==> ({
                let (c, w, m) = write_next(old(self)@.conns[id as int], outcome);
                final(self)@ == old(self)@.with_conn(id as int, c) && more == m
                    && old(self)@.conns[id as int].pending() == w + c.pending()
            }),
            !old(self)@.conns.contains_key(id as int) ==> final(self)@ == old(self)@ && !more,
    {
        if !self.is_active(id) {
            return false;
        }
        let mut c = self.take(id);
        let more = c.write_step(outcome);
        self.put(id, c);
        proof {
            assert(self@.conns =~= old(self)@.conns.insert(id as int, c@));
            lemma_with_conn_inv(old(self)@, id as int, c@);
        }
        more
    }

    /// Ends the handling of an event for `id`: a connection that is no longer open
    /// is closed and removed, its identifier recycled; an open one is re-armed.
    pub fn finish_event(&mut self, id: usize) -> (r: Followup)
        requires
            old(self).wf(),
        ensures
            final(self).wf(),
            !old(self)@.conns.contains_key(id as int) ==> r == Followup::Ignore && final(self)@
                == old(self)@,
            old(self)@.conns.contains_key(id as int) ==> ({
                let c = old(self)@.conns[id as int];
                &&& c.state == ClientState::Open ==> r == Followup::Rearm(interest_of(c))
                    && final(self)@ == old(self)@
                &&& c.state == ClientState::Closing ==> r == Followup::Disconnect && final(self)@
                    == old(self)@.removed(id as int)
                &&& c.state == ClientState::Closed ==> r == Followup::Dropped && final(self)@
                    == old(self)@.removed(id as int)
            }),
    {
        match self.get(id) {
            None => Followup::Ignore,
            Some(c) => {
                if c.state() == ClientState::Open {
                    Followup::Rearm(c.event_set())
                } else if self.close(id) {
                    Followup::Disconnect
                } else {
                    Followup::Dropped
                }
            },
        }
    }

    /// Routes a readiness event by its identifier: the listener's, an active
    /// connection's, or one that is gone.
    pub fn route(&self, token: usize) -> (r: Route)
        ensures
            token == SERVER ==> r == Route::Listener,
            token != SERVER && self@.conns.contains_key(token as int) ==> r == Route::Connection(
                token,
            ),
            token != SERVER && !self@.conns.contains_key(token as int) ==> r == Route::Ignore,
    {
        if token == SERVER {
            Route::Listener
        } else if self.is_active(token) {
            Route::Connection(token)
        } else {
            Route::Ignore
        }
    }
}

/// Replacing an active connection by another that carries the same identifier
/// and a well-formed queue keeps the table's invariant.
proof fn lemma_with_conn_inv(v: ServerView, id: int, c: ClientView)
    requires
        v.inv(),
        v.conns.contains_key(id),
        c.token == id,
        c.wf(),
    ensures
        v.with_conn(id, c).inv(),
{
    let w = v.with_conn(id, c);
    assert(w.conns.dom() =~= v.conns.dom());
}

/// Capacity enforcement: an accept finds a free identifier exactly while fewer
/// than `max_connections` connections are active.
pub proof fn lemma_capacity(v: ServerView)
    requires
        v.inv(),
    ensures
        v.next_token() is Some <==> v.active_ids().len() < v.capacity,
        v.next_token() matches Some(id) ==> 1 <= id <= v.capacity && !v.conns.contains_key(id),
{
    lemma_identifiers_partition(v);
}

/// Graceful peer close: a read of zero bytes on an open connection moves it to
/// `Closing`; ending the event then owes one disconnect, removes it, and its
/// identifier is the one the next accept hands out. Closing it again owes nothing.
pub proof fn lemma_peer_close_recycles(v: ServerView, id: int, acc: Seq<u8>, o: ReadOutcome)
    requires
        v.inv(),
        v.conns.contains_key(id),
        v.conns[id].state == ClientState::Open,
        v.conns[id].read_interest,
        o matches ReadOutcome::Read(b) && b@.len() == 0,
    ensures
        ({
            let (c, a, more) = read_next(v.conns[id], acc, o);
            let after = v.with_conn(id, c).removed(id);
            &&& c.state == ClientState::Closing && a == acc && !more
            &&& close_next(c).1
            &&& !after.conns.contains_key(id)
            &&& after.next_token() == Some(id)
            &&& after.removed(id) == after
        }),
{
}

} // verus!
