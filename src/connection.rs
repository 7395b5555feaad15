use std::collections::VecDeque;
use vstd::prelude::*;

verus! {

broadcast use vstd::seq_lib::group_seq_properties;

/// Lifecycle of one connection: `Open`, then `Closing`, then `Closed`.
#[derive(Debug, Clone, Copy, PartialEq, Eq, Structural)]
pub enum ClientState {
    Open,
    Closing,
    Closed,
}

/// Position of a state in the lifecycle; no operation ever lowers it.
pub open spec fn rank(s: ClientState) -> int {
    match s {
        ClientState::Open => 0,
        ClientState::Closing => 1,
        ClientState::Closed => 2,
    }
}

/// The readiness a connection asks the poller for.
#[derive(Debug, Clone, Copy, PartialEq, Eq, Structural)]
pub enum Interest {
    ReadWrite,
    WriteOnly,
}

/// What one non-blocking read attempt on the socket gave.
/// `Read` with no bytes means that the peer closed its side.
#[derive(Debug)]
pub enum ReadOutcome {
    Read(Vec<u8>),
    WouldBlock,
    Interrupted,
    Failed,
}

/// What one non-blocking write attempt of the head buffer gave.
#[derive(Debug, Clone, Copy, PartialEq, Eq, Structural)]
pub enum WriteOutcome {
    Written(usize),
    WouldBlock,
    Interrupted,
    Failed,
}

/// Abstract state of a connection.
pub struct ClientView {
    pub token: usize,
    pub state: ClientState,
    /// Outbound buffers, oldest first.
    pub queue: Seq<Seq<u8>>,
    pub read_interest: bool,
}

impl ClientView {
    /// No buffer in the outbound queue is empty.
    pub open spec fn wf(self) -> bool {
        forall|i: int| 0 <= i < self.queue.len() ==> #[trigger] self.queue[i].len() > 0
    }

    /// The bytes still owed to the peer, in the order they were submitted.
    pub open spec fn pending(self) -> Seq<u8> {
        self.queue.flatten()
    }

    pub open spec fn with_state(self, s: ClientState) -> ClientView {
        ClientView { state: s, ..self }
    }

    pub open spec fn with_queue(self, q: Seq<Seq<u8>>) -> ClientView {
        ClientView { queue: q, ..self }
    }
}

/// A freshly accepted connection.
pub open spec fn fresh(token: usize) -> ClientView {
    ClientView { token, state: ClientState::Open, queue: Seq::empty(), read_interest: true }
}

/// The interest set: readable and writable while reading is enabled, else writable only.
pub open spec fn interest_of(c: ClientView) -> Interest {
    if c.read_interest {
        Interest::ReadWrite
    } else {
        Interest::WriteOnly
    }
}

/// Enqueueing `buf`: refused once closed; an empty buffer adds nothing.
pub open spec fn send_next(c: ClientView, buf: Seq<u8>) -> (ClientView, bool) {
    if c.state == ClientState::Closed {
        (c, false)
    } else if buf.len() == 0 {
        (c, true)
    } else {
        (c.with_queue(c.queue.push(buf)), true)
    }
}

/// One step of the read drain: the new connection state, the accumulated bytes,
/// and whether to read again. Only an open connection with read interest reads.
pub open spec fn read_next(c: ClientView, acc: Seq<u8>, o: ReadOutcome) -> (ClientView, Seq<u8>, bool) {
    if c.state != ClientState::Open || !c.read_interest {
        (c, acc, false)
    } else {
        match o {
            ReadOutcome::Read(v) => if v@.len() == 0 {
                (c.with_state(ClientState::Closing), acc, false)
            } else {
                (c, acc + v@, true)
            },
            ReadOutcome::WouldBlock => (c, acc, false),
            ReadOutcome::Interrupted => (c, acc, true),
            ReadOutcome::Failed => (c.with_state(ClientState::Closing), acc, false),
        }
    }
}

/// One step of the write drain: the new connection state, the bytes that reached
/// the socket, and whether to write again. An unwritten remainder stays at the head.
pub open spec fn write_next(c: ClientView, o: WriteOutcome) -> (ClientView, Seq<u8>, bool) {
    if c.state != ClientState::Open || c.queue.len() == 0 {
        (c, Seq::empty(), false)
    } else {
        match o {
            WriteOutcome::Written(n) => if n == 0 {
                (c.with_state(ClientState::Closing), Seq::empty(), false)
            } else if n >= c.queue[0].len() {
                (c.with_queue(c.queue.drop_first()), c.queue[0], true)
            } else {
                (
                    c.with_queue(c.queue.update(0, c.queue[0].subrange(n as int, c.queue[0].len() as int))),
                    c.queue[0].subrange(0, n as int),
                    true,
                )
            },
            WriteOutcome::WouldBlock => (c, Seq::empty(), false),
            WriteOutcome::Interrupted => (c, Seq::empty(), true),
            WriteOutcome::Failed => (c.with_state(ClientState::Closing), Seq::empty(), false),
        }
    }
}

/// The close sequence: the connection ends `Closed`; the flag says whether a
/// shutdown and a disconnect notification are due (not when it was closed already).
pub open spec fn close_next(c: ClientView) -> (ClientView, bool) {
    (c.with_state(ClientState::Closed), c.state != ClientState::Closed)
}

/// One accepted connection: its identifier, lifecycle, outbound queue and read flag.
pub struct Client {
    token: usize,
    state: ClientState,
    sends: VecDeque<Vec<u8>>,
    has_read: bool,
}

impl View for Client {
    type V = ClientView;

    closed spec fn view(&self) -> ClientView {
        ClientView {
            token: self.token,
            state: self.state,
            queue: self.sends@.map_values(|b: Vec<u8>| b@),
            read_interest: self.has_read,
        }
    }
}

impl Client {
    /// A connection in state `Open`, with read interest and an empty queue.
    pub fn new(token: usize) -> (c: Client)
        ensures
            c@ == fresh(token),
            c@.wf(),
    {
        let c = Client { token, state: ClientState::Open, sends: VecDeque::new(), has_read: true };
        assert(c@.queue =~= Seq::<Seq<u8>>::empty());
        c
    }

    pub fn token(&self) -> (r: usize)
        ensures
            r == self@.token,
    {
        self.token
    }

    pub fn state(&self) -> (r: ClientState)
        ensures
            r == self@.state,
    {
        self.state
    }

    pub fn has_read(&self) -> (r: bool)
        ensures
            r == self@.read_interest,
    {
        self.has_read
    }

    /// Number of buffers waiting in the outbound queue.
    pub fn queued(&self) -> (r: usize)
        ensures
            r == self@.queue.len(),
    {
        self.sends.len()
    }

    /// Turns reading on or off; nothing else changes.
    pub fn set_read_interest(&mut self, enabled: bool)
        ensures
            final(self)@ == (ClientView { read_interest: enabled, ..old(self)@ }),
    {
        self.has_read = enabled;
    }

    /// The readiness to ask the poller for.
    pub fn event_set(&self) -> (r: Interest)
        ensures
            r == interest_of(self@),
    {
        if self.has_read {
            Interest::ReadWrite
        } else {
            Interest::WriteOnly
        }
    }

    /// Appends `buf` to the outbound queue; refused (false) once the connection is closed.
    pub fn send(&mut self, buf: Vec<u8>) -> (r: bool)
        requires
            old(self)@.wf(),
        ensures
            (final(self)@, r) == send_next(old(self)@, buf@),
            final(self)@.wf(),
            r ==> final(self)@.pending() == old(self)@.pending() + buf@,
            !r ==> final(self)@.pending() == old(self)@.pending(),
    {
        if self.state == ClientState::Closed {
            return false;
        }
        if buf.len() == 0 {
            assert(old(self)@.pending() + buf@ =~= old(self)@.pending());
            return true;
        }
        let ghost q0 = self@.queue;
        self.sends.push_back(buf);
        assert(self@.queue =~= q0.push(buf@));
        proof {
            q0.lemma_flatten_push(buf@);
        }
        true
    }

    /// Feeds one read attempt into the drain: bytes go onto `acc`; a closed peer
    /// or a failure moves the connection to `Closing`. Returns whether to read again.
    pub fn read_step(&mut self, acc: &mut Vec<u8>, outcome: ReadOutcome) -> (more: bool)
        requires
            old(self)@.wf(),
        ensures
            (final(self)@, final(acc)@, more) == read_next(old(self)@, old(acc)@, outcome),
            final(self)@.wf(),
    {
        if self.state != ClientState::Open || !self.has_read {
            return false;
        }
        match outcome {
            ReadOutcome::Read(mut v) => {
                if v.len() == 0 {
                    self.state = ClientState::Closing;
                    assert(self@.queue =~= old(self)@.queue);
                    false
                } else {
                    let ghost v0 = v@;
                    acc.append(&mut v);
                    assert(acc@ =~= old(acc)@ + v0);
                    true
                }
            },
            ReadOutcome::WouldBlock => false,
            ReadOutcome::Interrupted => true,
            ReadOutcome::Failed => {
                self.state = ClientState::Closing;
                assert(self@.queue =~= old(self)@.queue);
                false
            },
        }
    }

    /// The oldest buffer still to be written, while the connection is open.
    pub fn front(&self) -> (r: Option<&Vec<u8>>)
        ensures
            r is None <==> (self@.state != ClientState::Open || self@.queue.len() == 0),
            r matches Some(b) ==> b@ == self@.queue[0],
    {
        if self.state != ClientState::Open || self.sends.len() == 0 {
            None
        } else {
            Some(&self.sends[0])
        }
    }

    /// Feeds the result of writing the head buffer into the write drain.
    /// What was written leaves the queue; a remainder stays at its head.
    /// Returns whether to write again.
    pub fn write_step(&mut self, outcome: WriteOutcome) -> (more: bool)
        requires
            old(self)@.wf(),
        ensures
            final(self)@ == write_next(old(self)@, outcome).0,
            more == write_next(old(self)@, outcome).2,
            final(self)@.wf(),
            old(self)@.pending() == write_next(old(self)@, outcome).1 + final(self)@.pending(),
    {
        if self.state != ClientState::Open || self.sends.len() == 0 {
            assert(old(self)@.pending() =~= Seq::<u8>::empty() + old(self)@.pending());
            return false;
        }
        let ghost q0 = self@.queue;
        proof {
            assert(q0.flatten() == q0.first() + q0.drop_first().flatten());
        }
        match outcome {
            WriteOutcome::Written(n) => {
                if n == 0 {
                    self.state = ClientState::Closing;
                    assert(self@.queue =~= q0);
                    assert(q0.flatten() =~= Seq::<u8>::empty() + q0.flatten());
                    false
                } else {
                    let head = self.sends.pop_front().unwrap();
                    if n >= head.len() {
                        assert(self@.queue =~= q0.drop_first());
                        true
                    } else {
                        let mut rest: Vec<u8> = Vec::new();
                        let mut i: usize = n;
                        while i < head.len()
                            invariant
                                n <= i <= head@.len(),
                                rest@ =~= head@.subrange(n as int, i as int),
                            decreases head@.len() - i,
                        {
                            rest.push(head[i]);
                            i = i + 1;
                        }
                        let ghost r0 = rest@;
                        self.sends.push_front(rest);
                        let ghost q1 = q0.update(0, r0);
                        assert(self@.queue =~= q1);
                        assert(q1.drop_first() =~= q0.drop_first());
                        assert(q1.flatten() == q1.first() + q1.drop_first().flatten());
                        assert(head@ =~= head@.subrange(0, n as int) + r0);
                        assert(q0.flatten() =~= head@.subrange(0, n as int) + q1.flatten());
                        true
                    }
                }
            },
            WriteOutcome::WouldBlock => {
                assert(q0.flatten() =~= Seq::<u8>::empty() + q0.flatten());
                false
            },
            WriteOutcome::Interrupted => {
                assert(q0.flatten() =~= Seq::<u8>::empty() + q0.flatten());
                true
            },
            WriteOutcome::Failed => {
                self.state = ClientState::Closing;
                assert(self@.queue =~= q0);
                assert(q0.flatten() =~= Seq::<u8>::empty() + q0.flatten());
                false
            },
        }
    }

    /// The close sequence. Idempotent: returns true, meaning that the socket is to be
    /// shut down and the disconnect notified, only when the connection was not closed yet.
    pub fn close_socket(&mut self) -> (r: bool)
        ensures
            (final(self)@, r) == close_next(old(self)@),
    {
        if self.state == ClientState::Closed {
            assert(self@ == old(self)@.with_state(ClientState::Closed));
            false
        } else {
            self.state = ClientState::Closed;
            assert(self@.queue == old(self)@.queue);
            true
        }
    }
}

/// The read drain of one readiness event: read steps are applied in order until
/// one says to stop or the outcomes run out.
pub open spec fn drain(c: ClientView, acc: Seq<u8>, os: Seq<ReadOutcome>) -> (ClientView, Seq<u8>)
    decreases os.len(),
{
    if os.len() == 0 {
        (c, acc)
    } else {
        let (c2, a2, more) = read_next(c, acc, os[0]);
        if more {
            drain(c2, a2, os.drop_first())
        } else {
            (c2, a2)
        }
    }
}

/// Read batching: when the socket yields non-empty chunks and then would block,
/// the drain leaves an open connection as it was and gathers all the chunks, in
/// order, into one buffer: the payload of the single receive notification.
pub proof fn lemma_read_batching(c: ClientView, chunks: Seq<Vec<u8>>, last: ReadOutcome)
    requires
        c.state == ClientState::Open,
        c.read_interest,
        forall|i: int| 0 <= i < chunks.len() ==> (#[trigger] chunks[i])@.len() > 0,
        last is WouldBlock,
    ensures
        drain(
            c,
            Seq::empty(),
            chunks.map_values(|b: Vec<u8>| ReadOutcome::Read(b)).push(last),
        ) == (c, chunks.map_values(|b: Vec<u8>| b@).flatten()),
{
    lemma_drain_chunks(c, Seq::empty(), chunks, last);
    assert(Seq::<u8>::empty() + chunks.map_values(|b: Vec<u8>| b@).flatten() =~= chunks.map_values(
        |b: Vec<u8>| b@,
    ).flatten());
}

proof fn lemma_drain_chunks(c: ClientView, acc: Seq<u8>, chunks: Seq<Vec<u8>>, last: ReadOutcome)
    requires
        c.state == ClientState::Open,
        c.read_interest,
        forall|i: int| 0 <= i < chunks.len() ==> (#[trigger] chunks[i])@.len() > 0,
        last is WouldBlock,
    ensures
        drain(c, acc, chunks.map_values(|b: Vec<u8>| ReadOutcome::Read(b)).push(last)) == (
            c,
            acc + chunks.map_values(|b: Vec<u8>| b@).flatten(),
        ),
    decreases chunks.len(),
{
    let os = chunks.map_values(|b: Vec<u8>| ReadOutcome::Read(b)).push(last);
    let views = chunks.map_values(|b: Vec<u8>| b@);
    if chunks.len() == 0 {
        assert(os.drop_first().len() == 0);
        assert(views =~= Seq::<Seq<u8>>::empty());
        assert(acc + views.flatten() =~= acc);
    } else {
        let rest = chunks.drop_first();
        assert(os[0] == ReadOutcome::Read(chunks[0]));
        assert(os.drop_first() =~= rest.map_values(|b: Vec<u8>| ReadOutcome::Read(b)).push(last));
        lemma_drain_chunks(c, acc + chunks[0]@, rest, last);
        assert(views.drop_first() =~= rest.map_values(|b: Vec<u8>| b@));
        assert(views.flatten() == views.first() + views.drop_first().flatten());
        assert(acc + chunks[0]@ + rest.map_values(|b: Vec<u8>| b@).flatten() =~= acc
            + views.flatten());
    }
}

/// Write ordering: sending `x` then `y` leaves `x` ahead of `y`, both behind
/// what was already pending.
pub proof fn lemma_send_order(c: ClientView, x: Seq<u8>, y: Seq<u8>)
    requires
        c.wf(),
        c.state != ClientState::Closed,
    ensures
        send_next(send_next(c, x).0, y).0.pending() == c.pending() + x + y,
{
    let c1 = send_next(c, x).0;
    if x.len() > 0 {
        c.queue.lemma_flatten_push(x);
    } else {
        assert(c.pending() + x =~= c.pending());
    }
    if y.len() > 0 {
        c1.queue.lemma_flatten_push(y);
    } else {
        assert(c.pending() + x + y =~= c.pending() + x);
    }
}

/// Write drain: each step hands the socket the oldest pending bytes, so what
/// reaches the wire, followed by what is still pending, is what was pending before.
pub proof fn lemma_write_prefix(c: ClientView, o: WriteOutcome)
    requires
        c.wf(),
    ensures
        c.pending() == write_next(c, o).1 + write_next(c, o).0.pending(),
        write_next(c, o).0.wf(),
{
    let (c2, w, more) = write_next(c, o);
    if c.state != ClientState::Open || c.queue.len() == 0 {
        assert(c.pending() =~= w + c2.pending());
    } else {
        assert(c.pending() == c.queue.first() + c.queue.drop_first().flatten());
        match o {
            WriteOutcome::Written(n) => {
                if n == 0 {
                    assert(c.pending() =~= w + c2.pending());
                } else if n >= c.queue[0].len() {
                } else {
                    let q1 = c2.queue;
                    assert(q1.drop_first() =~= c.queue.drop_first());
                    assert(q1.flatten() == q1.first() + q1.drop_first().flatten());
                    assert(c.queue[0] =~= w + q1[0]);
                    assert(c.pending() =~= w + c2.pending());
                }
            },
            _ => {
                assert(c.pending() =~= w + c2.pending());
            },
        }
    }
}

/// Lifecycle monotonicity: no step lowers the state, a closed connection stays
/// closed under every step, and a second close owes no second notification.
pub proof fn lemma_lifecycle_monotone(c: ClientView, acc: Seq<u8>, r: ReadOutcome, w: WriteOutcome, b: Seq<u8>)
    ensures
        rank(read_next(c, acc, r).0.state) >= rank(c.state),
        rank(write_next(c, w).0.state) >= rank(c.state),
        rank(send_next(c, b).0.state) == rank(c.state),
        rank(close_next(c).0.state) >= rank(c.state),
        c.state == ClientState::Closed ==> read_next(c, acc, r).0.state == ClientState::Closed
            && write_next(c, w).0.state == ClientState::Closed,
        !close_next(close_next(c).0).1,
{
}

/// Read pause: with read interest off, a read step changes nothing, adds no
/// bytes and stops the drain, whatever the socket had.
pub proof fn lemma_read_pause(c: ClientView, acc: Seq<u8>, o: ReadOutcome)
    requires
        !c.read_interest,
    ensures
        read_next(c, acc, o) == (c, acc, false),
{
}

} // verus!
