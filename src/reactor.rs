//! The connection registry, the table of operations in flight, and the dispatch of
//! completions.
//!
//! Every live connection has two correlation tokens: its identifier, under which
//! the readiness poll and the receive run one after the other, and its identifier
//! plus [`WRITE_TOKEN_BASE`], under which its sends run. A send to a peer therefore
//! never has to share a token with that peer's poll. Token [`LISTEN_TOKEN`] belongs
//! to the accept on the listening socket, and identifiers start at 1.
//!
//! The buffers that the kernel fills and reads stay with the caller, which hands the
//! received bytes in with the receive's completion and asks [`Reactor::send_bytes`]
//! for the bytes of each send it submits.
use vstd::prelude::*;
use crate::lane::{LaneView, WriteLane};

verus! {

/// Token of the accept operation on the listening socket.
pub const LISTEN_TOKEN: u64 = 0;

/// Offset between a connection's read token and its write token; connection
/// identifiers stay below it.
pub const WRITE_TOKEN_BASE: u64 = 0x4000_0000_0000_0000;

/// Capacity of the buffer that each receive fills.
pub const RECEIVE_CAPACITY: usize = 1024;

/// What an operation in flight is waiting for.
#[derive(PartialEq, Eq, Structural, Clone, Copy, Debug)]
pub enum PendingOperation {
    /// The accept on the listening socket, always resubmitted.
    Listening,
    /// A readiness poll on an idle connection.
    AwaitingReadiness { connection: u64 },
    /// A receive into the connection's buffer.
    Receiving { connection: u64 },
    /// A send to the connection, `bytes_flushed` of `payload_length` already given.
    Sending { connection: u64, payload_length: usize, bytes_flushed: usize },
}

/// An operation to submit to the asynchronous I/O facility.
#[derive(PartialEq, Eq, Structural, Clone, Copy, Debug)]
pub enum Action {
    /// Accept a connection on `listener`.
    Accept { token: u64, listener: i32 },
    /// Wait until `handle` has data to read.
    PollReadable { token: u64, handle: i32 },
    /// Receive up to `capacity` bytes from `handle`.
    Receive { token: u64, handle: i32, capacity: usize },
    /// Send to `handle` the `length` bytes that [`Reactor::send_bytes`] gives for `token`.
    Send { token: u64, handle: i32, length: usize },
    /// Close `handle`.
    Close { handle: i32 },
}

/// Abstract state of one live connection.
pub struct ConnView {
    /// Identifier, which is also the read token.
    pub id: u64,
    /// The connection's socket.
    pub handle: i32,
    /// A receive is in flight (otherwise a readiness poll is).
    pub reading: bool,
    /// What the connection is still owed, and the send in flight.
    pub lane: LaneView,
}

/// Abstract state of the reactor.
#[verifier::ext_equal]
pub struct ReactorView {
    pub listener: i32,
    /// Live connections, in the order they were registered.
    pub conns: Seq<ConnView>,
    /// The identifier that the next registered connection gets.
    pub next_id: nat,
}

/// The write token of connection `id`.
pub open spec fn write_token(id: u64) -> u64 {
    (id + WRITE_TOKEN_BASE) as u64
}

impl ReactorView {
    /// Identifiers are positive, below the next one to hand out, and strictly
    /// increasing in registration order, so never shared; every write lane is sound.
    pub open spec fn wf(self) -> bool {
        &&& 1 <= self.next_id <= WRITE_TOKEN_BASE
        &&& forall|i: int| 0 <= i < self.conns.len() ==> {
            &&& 1 <= #[trigger] self.conns[i].id < self.next_id
            &&& self.conns[i].lane.wf()
        }
        &&& forall|i: int, j: int|
            0 <= i < j < self.conns.len() ==> #[trigger] self.conns[i].id < #[trigger] self.conns[j].id
    }

    /// Connection `id` is live.
    pub open spec fn live(self, id: u64) -> bool {
        exists|i: int| 0 <= i < self.conns.len() && #[trigger] self.conns[i].id == id
    }

    /// Position of live connection `id` in the registry.
    pub open spec fn index_of(self, id: u64) -> int {
        choose|i: int| 0 <= i < self.conns.len() && #[trigger] self.conns[i].id == id
    }

    /// What the operation in flight under `token` is waiting for, if any.
    pub open spec fn pending_op(self, token: u64) -> Option<PendingOperation> {
        if token == LISTEN_TOKEN {
            Some(PendingOperation::Listening)
        } else if token < WRITE_TOKEN_BASE {
            if self.live(token) {
                if self.conns[self.index_of(token)].reading {
                    Some(PendingOperation::Receiving { connection: token })
                } else {
                    Some(PendingOperation::AwaitingReadiness { connection: token })
                }
            } else {
                None
            }
        } else {
            let id = (token - WRITE_TOKEN_BASE) as u64;
            if self.live(id) && self.conns[self.index_of(id)].lane.busy() {
                let lane = self.conns[self.index_of(id)].lane;
                Some(
                    PendingOperation::Sending {
                        connection: id,
                        payload_length: lane.payload.len() as usize,
                        bytes_flushed: lane.flushed as usize,
                    },
                )
            } else {
                None
            }
        }
    }
}

/// Connection `c` after a broadcast of `data` from `sender`: the sender goes back to
/// waiting for readiness, every other connection is owed `data`.
pub open spec fn relayed(c: ConnView, sender: u64, data: Seq<u8>) -> ConnView {
    if c.id == sender {
        ConnView { reading: false, ..c }
    } else {
        ConnView { lane: c.lane.fed(data), ..c }
    }
}

/// The sends that a broadcast of `data` from `sender` starts, in registry order: one
/// to each other connection whose write lane was idle. A lane that is busy takes
/// `data` into its queue instead.
pub open spec fn fanout(conns: Seq<ConnView>, sender: u64, data: Seq<u8>) -> Seq<Action>
    decreases conns.len(),
{
    if conns.len() == 0 {
        Seq::empty()
    } else {
        let rest = fanout(conns.drop_last(), sender, data);
        let c = conns.last();
        if c.id != sender && !c.lane.busy() && data.len() > 0 {
            rest.push(
                Action::Send { token: write_token(c.id), handle: c.handle, length: data.len() as usize },
            )
        } else {
            rest
        }
    }
}

impl ReactorView {
    /// The state with connection `i` replaced by `c`.
    pub open spec fn with_conn(self, i: int, c: ConnView) -> ReactorView {
        ReactorView { conns: self.conns.update(i, c), ..self }
    }

    /// The state with connection `i` gone.
    pub open spec fn without(self, i: int) -> ReactorView {
        ReactorView { conns: self.conns.remove(i), ..self }
    }

    /// The state after `sender` broadcast `data`.
    pub open spec fn broadcast(self, sender: u64, data: Seq<u8>) -> ReactorView {
        ReactorView { conns: self.conns.map_values(|c: ConnView| relayed(c, sender, data)), ..self }
    }

    /// The connection identifier that `token` belongs to.
    pub open spec fn token_owner(token: u64) -> u64 {
        if token < WRITE_TOKEN_BASE {
            token
        } else {
            (token - WRITE_TOKEN_BASE) as u64
        }
    }

    /// The state and the operations to submit after the operation under `token`
    /// completed with `result`; `received` is what a receive transferred.
    pub open spec fn step(self, token: u64, result: i32, received: Seq<u8>) -> (ReactorView, Seq<Action>) {
        let accept = Action::Accept { token: LISTEN_TOKEN, listener: self.listener };
        if token == LISTEN_TOKEN {
            if result < 0 {
                (self, seq![accept])
            } else if self.next_id < WRITE_TOKEN_BASE {
                let id = self.next_id as u64;
                let c = ConnView { id, handle: result, reading: false, lane: LaneView::idle() };
                (
                    ReactorView { conns: self.conns.push(c), next_id: self.next_id + 1, ..self },
                    seq![Action::PollReadable { token: id, handle: result }, accept],
                )
            } else {
                (self, seq![Action::Close { handle: result }, accept])
            }
        } else {
            let id = ReactorView::token_owner(token);
            let i = self.index_of(id);
            let c = self.conns[i];
            match self.pending_op(token) {
                Some(PendingOperation::AwaitingReadiness { .. }) => {
                    if result < 0 {
                        (self.without(i), seq![Action::Close { handle: c.handle }])
                    } else {
                        (
                            self.with_conn(i, ConnView { reading: true, ..c }),
                            seq![Action::Receive { token, handle: c.handle, capacity: RECEIVE_CAPACITY }],
                        )
                    }
                },
                Some(PendingOperation::Receiving { .. }) => {
                    if result <= 0 {
                        (self.without(i), seq![Action::Close { handle: c.handle }])
                    } else {
                        (
                            self.broadcast(id, received),
                            fanout(self.conns, id, received).push(
                                Action::PollReadable { token, handle: c.handle },
                            ),
                        )
                    }
                },
                Some(PendingOperation::Sending { .. }) => {
                    if result < 0 {
                        (self.without(i), seq![Action::Close { handle: c.handle }])
                    } else {
                        let lane = c.lane.after_write(result as nat);
                        (
                            self.with_conn(i, ConnView { lane, ..c }),
                            if lane.busy() {
                                seq![
                                    Action::Send {
                                        token,
                                        handle: c.handle,
                                        length: lane.submitted().len() as usize,
                                    },
                                ]
                            } else {
                                Seq::empty()
                            },
                        )
                    }
                },
                _ => (self, Seq::empty()),
            }
        }
    }
}

/// Identifiers are unique, so the connection at `i` is the one `index_of` picks.
pub proof fn lemma_index_of(v: ReactorView, i: int)
    requires
        v.wf(),
        0 <= i < v.conns.len(),
    ensures
        v.live(v.conns[i].id),
        v.index_of(v.conns[i].id) == i,
{
    let id = v.conns[i].id;
    assert(v.conns[i].id == id);
    let j = v.index_of(id);
    if j < i {
        assert(v.conns[j].id < v.conns[i].id);
    } else if i < j {
        assert(v.conns[i].id < v.conns[j].id);
    }
}

impl Action {
    /// The correlation token the operation is submitted under, if it has one.
    pub open spec fn token_of(self) -> Option<u64> {
        match self {
            Action::Accept { token, .. } => Some(token),
            Action::PollReadable { token, .. } => Some(token),
            Action::Receive { token, .. } => Some(token),
            Action::Send { token, .. } => Some(token),
            Action::Close { .. } => None,
        }
    }
}

/// Every send of a fan-out goes to the write token of a registered connection other
/// than the sender, and carries the whole payload.
pub proof fn lemma_fanout_targets(conns: Seq<ConnView>, sender: u64, data: Seq<u8>)
    ensures
        forall|k: int| 0 <= k < fanout(conns, sender, data).len() ==> exists|j: int|
            0 <= j < conns.len() && conns[j].id != sender && #[trigger] fanout(conns, sender, data)[k]
                == (Action::Send {
                token: write_token(conns[j].id),
                handle: conns[j].handle,
                length: data.len() as usize,
            }),
    decreases conns.len(),
{
    if conns.len() > 0 {
        let rest = conns.drop_last();
        lemma_fanout_targets(rest, sender, data);
        let f = fanout(conns, sender, data);
        assert forall|k: int| 0 <= k < f.len() implies exists|j: int|
            0 <= j < conns.len() && conns[j].id != sender && #[trigger] f[k] == (Action::Send {
                token: write_token(conns[j].id),
                handle: conns[j].handle,
                length: data.len() as usize,
            }) by {
            if k < fanout(rest, sender, data).len() {
                let j = choose|j: int|
                    0 <= j < rest.len() && rest[j].id != sender && #[trigger] fanout(rest, sender, data)[k]
                        == (Action::Send {
                        token: write_token(rest[j].id),
                        handle: rest[j].handle,
                        length: data.len() as usize,
                    });
                assert(conns[j] == rest[j]);
            } else {
                assert(conns[conns.len() - 1] == conns.last());
            }
        }
    }
}

/// A line received from one peer is owed exactly once more to every other live
/// peer, after whatever that peer was owed already, and is not owed to the sender.
/// No send of it goes to the sender, and the sender goes back to waiting for
/// readiness.
pub proof fn lemma_broadcast_reaches_every_other_peer(
    pre: ReactorView,
    token: u64,
    result: i32,
    received: Seq<u8>,
)
    requires
        pre.wf(),
        pre.pending_op(token) == Some(PendingOperation::Receiving { connection: token }),
        result > 0,
    ensures
        ({
            let (post, acts) = pre.step(token, result, received);
            &&& post.conns.len() == pre.conns.len()
            &&& forall|k: int| 0 <= k < pre.conns.len() ==> {
                &&& (#[trigger] post.conns[k]).id == pre.conns[k].id
                &&& pre.conns[k].id == token ==> post.conns[k].lane == pre.conns[k].lane
                    && !post.conns[k].reading
                &&& pre.conns[k].id != token ==> post.conns[k].lane.unsent()
                    == pre.conns[k].lane.unsent() + received
            }
            &&& forall|k: int| 0 <= k < acts.len() ==> (#[trigger] acts[k]).token_of() != Some(
                write_token(token),
            )
        }),
{
    let (post, acts) = pre.step(token, result, received);
    assert(token < WRITE_TOKEN_BASE);
    assert(ReactorView::token_owner(token) == token);
    assert(post == pre.broadcast(token, received));
    assert forall|k: int| 0 <= k < pre.conns.len() implies {
        &&& (#[trigger] post.conns[k]).id == pre.conns[k].id
        &&& pre.conns[k].id == token ==> post.conns[k].lane == pre.conns[k].lane
            && !post.conns[k].reading
        &&& pre.conns[k].id != token ==> post.conns[k].lane.unsent() == pre.conns[k].lane.unsent()
            + received
    } by {
        assert(pre.conns[k].id < pre.next_id);
        let l = pre.conns[k].lane;
        if l.busy() {
            assert(l.fed(received).unsent() =~= l.unsent() + received);
        } else {
            assert(l.unsent() =~= Seq::<u8>::empty());
            assert(l.fed(received).unsent() =~= l.unsent() + received);
        }
    }
    lemma_fanout_targets(pre.conns, token, received);
    let f = fanout(pre.conns, token, received);
    assert forall|k: int| 0 <= k < acts.len() implies (#[trigger] acts[k]).token_of() != Some(
        write_token(token),
    ) by {
        if k < f.len() {
            let j = choose|j: int|
                0 <= j < pre.conns.len() && pre.conns[j].id != token && #[trigger] f[k] == (Action::Send {
                    token: write_token(pre.conns[j].id),
                    handle: pre.conns[j].handle,
                    length: received.len() as usize,
                });
            assert(acts[k] == f[k]);
            assert(pre.conns[j].id < pre.next_id);
        }
    }
}

/// A zero-byte receive, or an error on any operation of a connection, removes the
/// connection: it is no longer live, and the only operation asked for is closing its
/// socket.
pub proof fn lemma_disconnect_removes(pre: ReactorView, token: u64, result: i32, received: Seq<u8>)
    requires
        pre.wf(),
        token != LISTEN_TOKEN,
        pre.pending_op(token) is Some,
        result < 0 || (result == 0 && pre.pending_op(token) == Some(
            PendingOperation::Receiving { connection: token },
        )),
    ensures
        ({
            let id = ReactorView::token_owner(token);
            let (post, acts) = pre.step(token, result, received);
            &&& !post.live(id)
            &&& post.next_id == pre.next_id
            &&& acts == seq![Action::Close { handle: pre.conns[pre.index_of(id)].handle }]
        }),
{
    let id = ReactorView::token_owner(token);
    let i = pre.index_of(id);
    let (post, acts) = pre.step(token, result, received);
    assert(pre.live(id));
    assert(post == pre.without(i));
    if post.live(id) {
        let k = post.index_of(id);
        if k < i {
            assert(pre.conns[k].id < pre.conns[i].id);
        } else {
            assert(pre.conns[i].id < pre.conns[k + 1].id);
        }
    }
}

/// Once a connection is gone its identifier stays out of use: whatever completes
/// next, it is not live afterwards, it is not handed to a new connection, and no
/// operation asked for carries either of its tokens.
pub proof fn lemma_removed_stays_removed(
    pre: ReactorView,
    gone: u64,
    token: u64,
    result: i32,
    received: Seq<u8>,
)
    requires
        pre.wf(),
        1 <= gone < pre.next_id,
        !pre.live(gone),
    ensures
        ({
            let (post, acts) = pre.step(token, result, received);
            &&& !post.live(gone)
            &&& gone < post.next_id
            &&& forall|k: int| 0 <= k < acts.len() ==> {
                &&& (#[trigger] acts[k]).token_of() != Some(gone)
                &&& acts[k].token_of() != Some(write_token(gone))
            }
        }),
{
    let (post, acts) = pre.step(token, result, received);
    if token == LISTEN_TOKEN {
        if post.live(gone) {
            let k = post.index_of(gone);
            if k < pre.conns.len() {
                assert(pre.conns[k] == post.conns[k]);
            }
        }
    } else if pre.pending_op(token) is Some {
        let id = ReactorView::token_owner(token);
        let i = pre.index_of(id);
        assert(pre.live(id));
        assert(id != gone);
        if post.live(gone) {
            let k = post.index_of(gone);
            if post.conns.len() == pre.conns.len() {
                assert(post.conns[k].id == pre.conns[k].id);
            } else {
                if k < i {
                    assert(post.conns[k] == pre.conns[k]);
                } else {
                    assert(post.conns[k] == pre.conns[k + 1]);
                }
            }
        }
        if pre.pending_op(token) == Some(PendingOperation::Receiving { connection: token })
            && result > 0 {
            lemma_fanout_targets(pre.conns, id, received);
            let f = fanout(pre.conns, id, received);
            assert forall|k: int| 0 <= k < acts.len() implies {
                &&& (#[trigger] acts[k]).token_of() != Some(gone)
                &&& acts[k].token_of() != Some(write_token(gone))
            } by {
                if k < f.len() {
                    let j = choose|j: int|
                        0 <= j < pre.conns.len() && pre.conns[j].id != id && #[trigger] f[k]
                            == (Action::Send {
                            token: write_token(pre.conns[j].id),
                            handle: pre.conns[j].handle,
                            length: received.len() as usize,
                        });
                    assert(acts[k] == f[k]);
                    assert(pre.conns[j].id < pre.next_id);
                    assert(pre.conns[j].id != gone);
                }
            }
        }
    }
}

/// A completion under a token with no operation in flight, such as one for a
/// connection that was just removed, leaves the state as it was and asks for nothing.
pub proof fn lemma_stale_completion_is_ignored(
    pre: ReactorView,
    token: u64,
    result: i32,
    received: Seq<u8>,
)
    requires
        pre.pending_op(token) is None,
    ensures
        pre.step(token, result, received) == (pre, Seq::<Action>::empty()),
{
}

/// Replacing a connection by one with the same identifier and a sound lane keeps
/// the state well formed.
proof fn lemma_with_conn_wf(v: ReactorView, i: int, c: ConnView)
    requires
        v.wf(),
        0 <= i < v.conns.len(),
        c.id == v.conns[i].id,
        c.lane.wf(),
    ensures
        v.with_conn(i, c).wf(),
{
    let w = v.with_conn(i, c);
    assert forall|a: int, b: int| 0 <= a < b < w.conns.len() implies
        #[trigger] w.conns[a].id < #[trigger] w.conns[b].id by {
        assert(v.conns[a].id < v.conns[b].id);
    }
    assert forall|a: int| 0 <= a < w.conns.len() implies {
        &&& 1 <= #[trigger] w.conns[a].id < w.next_id
        &&& w.conns[a].lane.wf()
    } by {
        assert(v.conns[a].id == w.conns[a].id);
    }
}

/// Feeding bytes to a sound lane keeps it sound.
proof fn lemma_fed_wf(l: LaneView, data: Seq<u8>)
    requires
        l.wf(),
    ensures
        l.fed(data).wf(),
{
}

/// A broadcast keeps the state well formed.
proof fn lemma_broadcast_wf(v: ReactorView, sender: u64, data: Seq<u8>)
    requires
        v.wf(),
    ensures
        v.broadcast(sender, data).wf(),
{
    let w = v.broadcast(sender, data);
    assert forall|a: int, b: int| 0 <= a < b < w.conns.len() implies
        #[trigger] w.conns[a].id < #[trigger] w.conns[b].id by {
        assert(v.conns[a].id < v.conns[b].id);
    }
    assert forall|a: int| 0 <= a < w.conns.len() implies {
        &&& 1 <= #[trigger] w.conns[a].id < w.next_id
        &&& w.conns[a].lane.wf()
    } by {
        assert(v.conns[a].id == w.conns[a].id);
        lemma_fed_wf(v.conns[a].lane, data);
    }
}

struct Connection {
    id: u64,
    handle: i32,
    reading: bool,
    lane: WriteLane,
}

impl View for Connection {
    type V = ConnView;

    closed spec fn view(&self) -> ConnView {
        ConnView { id: self.id, handle: self.handle, reading: self.reading, lane: self.lane@ }
    }
}

spec fn conns_view(v: Seq<Connection>) -> Seq<ConnView> {
    v.map_values(|c: Connection| c@)
}

/// The relay's state: the listening socket and the live connections with the
/// operations each has in flight.
pub struct Reactor {
    listener: i32,
    conns: Vec<Connection>,
    next_id: u64,
}

impl View for Reactor {
    type V = ReactorView;

    closed spec fn view(&self) -> ReactorView {
        ReactorView {
            listener: self.listener,
            conns: conns_view(self.conns@),
            next_id: self.next_id as nat,
        }
    }
}

impl Reactor {
    /// A reactor on listening socket `listener` with no connection yet. The accept
    /// to submit first is [`Reactor::accept_action`].
    pub fn new(listener: i32) -> (r: Reactor)
        ensures
            r@.wf(),
            r@.listener == listener,
            r@.conns.len() == 0,
            r@.next_id == 1,
    {
        let r = Reactor { listener, conns: Vec::new(), next_id: 1 };
        assert(r@.conns.len() == 0);
        r
    }

    /// The accept operation on the listening socket.
    pub fn accept_action(&self) -> (a: Action)
        ensures
            a == (Action::Accept { token: LISTEN_TOKEN, listener: self@.listener }),
    {
        Action::Accept { token: LISTEN_TOKEN, listener: self.listener }
    }

    /// Number of live connections.
    pub fn len(&self) -> (r: usize)
        ensures
            r == self@.conns.len(),
    {
        self.conns.len()
    }

    fn position(&self, id: u64) -> (r: Option<usize>)
        requires
            self@.wf(),
        ensures
            r is None <==> !self@.live(id),
            r matches Some(i) ==> i < self@.conns.len() && i == self@.index_of(id)
                && self@.conns[i as int].id == id,
    {
        let mut i: usize = 0;
        while i < self.conns.len()
            invariant
                self@.wf(),
                i <= self@.conns.len(),
                forall|k: int| 0 <= k < i ==> self@.conns[k].id != id,
            decreases self@.conns.len() - i,
        {
            assert(self@.conns[i as int] == self.conns@[i as int]@);
            if self.conns[i].id == id {
                proof {
                    lemma_index_of(self@, i as int);
                }
                return Some(i);
            }
            i = i + 1;
        }
        None
    }

    /// Registers the socket `handle` of a freshly accepted connection under the
    /// next identifier, with a readiness poll as its operation in flight. Returns
    /// `None`, and changes nothing, when the identifiers are used up.
    pub fn register(&mut self, handle: i32) -> (r: Option<u64>)
        requires
            old(self)@.wf(),
        ensures
            final(self)@.wf(),
            old(self)@.next_id < WRITE_TOKEN_BASE ==> {
                &&& r == Some(old(self)@.next_id as u64)
                &&& final(self)@ == (ReactorView {
                    conns: old(self)@.conns.push(
                        ConnView {
                            id: old(self)@.next_id as u64,
                            handle,
                            reading: false,
                            lane: LaneView::idle(),
                        },
                    ),
                    next_id: old(self)@.next_id + 1,
                    ..old(self)@
                })
            },
            old(self)@.next_id >= WRITE_TOKEN_BASE ==> r is None && final(self)@ == old(self)@,
    {
        if self.next_id >= WRITE_TOKEN_BASE {
            return None;
        }
        let id = self.next_id;
        let c = Connection { id, handle, reading: false, lane: WriteLane::new() };
        self.conns.push(c);
        self.next_id = id + 1;
        assert(self@.conns =~= old(self)@.conns.push(c@));
        assert(self@ =~= (ReactorView {
            conns: old(self)@.conns.push(c@),
            next_id: old(self)@.next_id + 1,
            ..old(self)@
        }));
        Some(id)
    }

    /// The socket handle of connection `id`, if it is live.
    pub fn lookup(&self, id: u64) -> (r: Option<i32>)
        requires
            self@.wf(),
        ensures
            r is Some <==> self@.live(id),
            r matches Some(h) ==> h == self@.conns[self@.index_of(id)].handle,
    {
        match self.position(id) {
            Some(i) => {
                assert(self@.conns[i as int] == self.conns@[i as int]@);
                Some(self.conns[i].handle)
            },
            None => None,
        }
    }

    /// Forgets connection `id` and hands back its socket handle for closing.
    /// Removing a connection that is not live changes nothing.
    pub fn remove(&mut self, id: u64) -> (r: Option<i32>)
        requires
            old(self)@.wf(),
        ensures
            final(self)@.wf(),
            !final(self)@.live(id),
            old(self)@.live(id) ==> {
                &&& r == Some(old(self)@.conns[old(self)@.index_of(id)].handle)
                &&& final(self)@ == (ReactorView {
                    conns: old(self)@.conns.remove(old(self)@.index_of(id)),
                    ..old(self)@
                })
            },
            !old(self)@.live(id) ==> r is None && final(self)@ == old(self)@,
    {
        match self.position(id) {
            Some(i) => {
                let c = self.conns.remove(i);
                assert(self@.conns =~= old(self)@.conns.remove(i as int));
                assert(self@ =~= (ReactorView { conns: old(self)@.conns.remove(i as int), ..old(self)@ }));
                assert(c@ == old(self)@.conns[i as int]);
                proof {
                    let v = self@;
                    assert forall|a: int, b: int| 0 <= a < b < v.conns.len() implies
                        #[trigger] v.conns[a].id < #[trigger] v.conns[b].id by {
                        if b < i {
                        } else if a < i {
                            assert(old(self)@.conns[a].id < old(self)@.conns[b + 1].id);
                        } else {
                            assert(old(self)@.conns[a + 1].id < old(self)@.conns[b + 1].id);
                        }
                    }
                    if v.live(id) {
                        let k = v.index_of(id);
                        if k < i {
                            assert(old(self)@.conns[k].id < old(self)@.conns[i as int].id);
                        } else {
                            assert(old(self)@.conns[i as int].id < old(self)@.conns[k + 1].id);
                        }
                    }
                }
                Some(c.handle)
            },
            None => None,
        }
    }

    /// What the operation in flight under `token` is waiting for, if any.
    pub fn pending(&self, token: u64) -> (r: Option<PendingOperation>)
        requires
            self@.wf(),
        ensures
            r == self@.pending_op(token),
    {
        if token == LISTEN_TOKEN {
            return Some(PendingOperation::Listening);
        }
        if token < WRITE_TOKEN_BASE {
            match self.position(token) {
                None => None,
                Some(i) => {
                    assert(self@.conns[i as int] == self.conns@[i as int]@);
                    if self.conns[i].reading {
                        Some(PendingOperation::Receiving { connection: token })
                    } else {
                        Some(PendingOperation::AwaitingReadiness { connection: token })
                    }
                },
            }
        } else {
            let id = token - WRITE_TOKEN_BASE;
            match self.position(id) {
                None => None,
                Some(i) => {
                    assert(self@.conns[i as int] == self.conns@[i as int]@);
                    let lane = &self.conns[i].lane;
                    if lane.is_busy() {
                        Some(
                            PendingOperation::Sending {
                                connection: id,
                                payload_length: lane.payload_length(),
                                bytes_flushed: lane.bytes_flushed(),
                            },
                        )
                    } else {
                        None
                    }
                },
            }
        }
    }

    /// The bytes that the send in flight under write token `token` is to transfer.
    pub fn send_bytes(&self, token: u64) -> (r: Option<Vec<u8>>)
        requires
            self@.wf(),
        ensures
            r is Some <==> self@.pending_op(token) matches Some(PendingOperation::Sending { .. }),
            r matches Some(b) ==> b@ == self@.conns[self@.index_of(
                ReactorView::token_owner(token),
            )].lane.submitted(),
    {
        if token < WRITE_TOKEN_BASE {
            return None;
        }
        let id = token - WRITE_TOKEN_BASE;
        match self.position(id) {
            None => None,
            Some(i) => {
                assert(self@.conns[i as int] == self.conns@[i as int]@);
                if self.conns[i].lane.is_busy() {
                    Some(self.conns[i].lane.remainder())
                } else {
                    None
                }
            },
        }
    }

    /// Connection `i` has its readiness poll completed: its receive goes in flight.
    fn start_receive(&mut self, i: usize) -> (r: Action)
        requires
            old(self)@.wf(),
            i < old(self)@.conns.len(),
        ensures
            final(self)@.wf(),
            final(self)@ == old(self)@.with_conn(i as int, ConnView { reading: true, ..old(self)@.conns[i as int] }),
            r == (Action::Receive {
                token: old(self)@.conns[i as int].id,
                handle: old(self)@.conns[i as int].handle,
                capacity: RECEIVE_CAPACITY,
            }),
    {
        let mut c = self.conns.remove(i);
        assert(c@ == old(self)@.conns[i as int]);
        c.reading = true;
        let r = Action::Receive { token: c.id, handle: c.handle, capacity: RECEIVE_CAPACITY };
        self.conns.insert(i, c);
        let ghost nc = ConnView { reading: true, ..old(self)@.conns[i as int] };
        assert(self@.conns =~= old(self)@.conns.update(i as int, nc));
        assert(self@ =~= old(self)@.with_conn(i as int, nc));
        proof {
            lemma_with_conn_wf(old(self)@, i as int, nc);
        }
        r
    }

    /// The send in flight to connection `i` transferred `written` bytes.
    fn continue_send(&mut self, i: usize, written: usize) -> (r: Vec<Action>)
        requires
            old(self)@.wf(),
            i < old(self)@.conns.len(),
            old(self)@.conns[i as int].lane.busy(),
        ensures
            final(self)@.wf(),
            ({
                let c = old(self)@.conns[i as int];
                let lane = c.lane.after_write(written as nat);
                &&& final(self)@ == old(self)@.with_conn(i as int, ConnView { lane, ..c })
                &&& r@ == if lane.busy() {
                    seq![
                        Action::Send {
                            token: write_token(c.id),
                            handle: c.handle,
                            length: lane.submitted().len() as usize,
                        },
                    ]
                } else {
                    Seq::<Action>::empty()
                }
            }),
    {
        let mut c = self.conns.remove(i);
        assert(c@ == old(self)@.conns[i as int]);
        assert(old(self)@.conns[i as int].id < old(self)@.next_id);
        let more = c.lane.complete(written);
        let mut r: Vec<Action> = Vec::new();
        if more {
            r.push(
                Action::Send {
                    token: c.id + WRITE_TOKEN_BASE,
                    handle: c.handle,
                    length: c.lane.payload_length() - c.lane.bytes_flushed(),
                },
            );
        }
        self.conns.insert(i, c);
        let ghost oc = old(self)@.conns[i as int];
        let ghost nc = ConnView { lane: oc.lane.after_write(written as nat), ..oc };
        assert(self@.conns =~= old(self)@.conns.update(i as int, nc));
        assert(self@ =~= old(self)@.with_conn(i as int, nc));
        proof {
            lemma_with_conn_wf(old(self)@, i as int, nc);
        }
        r
    }

    /// Connection `i` received `data`: every other connection is owed it, and the
    /// sender goes back to waiting for readiness.
    fn relay(&mut self, i: usize, data: &Vec<u8>) -> (r: Vec<Action>)
        requires
            old(self)@.wf(),
            i < old(self)@.conns.len(),
        ensures
            final(self)@.wf(),
            final(self)@ == old(self)@.broadcast(old(self)@.conns[i as int].id, data@),
            r@ == fanout(old(self)@.conns, old(self)@.conns[i as int].id, data@).push(
                Action::PollReadable {
                    token: old(self)@.conns[i as int].id,
                    handle: old(self)@.conns[i as int].handle,
                },
            ),
    {
        let ghost pre = old(self)@;
        assert(self@.conns[i as int] == self.conns@[i as int]@);
        let sender = self.conns[i].id;
        let sender_handle = self.conns[i].handle;
        let n = self.conns.len();
        let mut acts: Vec<Action> = Vec::new();
        let mut j: usize = 0;
        while j < n
            invariant
                pre.wf(),
                n == pre.conns.len(),
                self.conns@.len() == n,
                j <= n,
                self@.listener == pre.listener,
                self@.next_id == pre.next_id,
                forall|k: int| 0 <= k < j ==> self@.conns[k] == relayed(pre.conns[k], sender, data@),
                forall|k: int| j <= k < n ==> self@.conns[k] == pre.conns[k],
                acts@ == fanout(pre.conns.take(j as int), sender, data@),
            decreases n - j,
        {
            let ghost before = self@;
            let mut c = self.conns.remove(j);
            assert(c@ == pre.conns[j as int]);
            assert(pre.conns[j as int].id < pre.next_id);
            if c.id == sender {
                c.reading = false;
            } else {
                let start = c.lane.enqueue(data);
                if start {
                    acts.push(
                        Action::Send {
                            token: c.id + WRITE_TOKEN_BASE,
                            handle: c.handle,
                            length: data.len(),
                        },
                    );
                }
            }
            self.conns.insert(j, c);
            assert(self@.conns =~= before.conns.update(j as int, relayed(pre.conns[j as int], sender, data@)));
            assert(pre.conns.take(j + 1).drop_last() =~= pre.conns.take(j as int));
            assert(pre.conns.take(j + 1).last() == pre.conns[j as int]);
            j = j + 1;
        }
        assert(pre.conns.take(n as int) =~= pre.conns);
        assert(self@ =~= pre.broadcast(sender, data@));
        proof {
            lemma_broadcast_wf(pre, sender, data@);
        }
        acts.push(Action::PollReadable { token: sender, handle: sender_handle });
        acts
    }

    /// Handles the completion of the operation in flight under `token` with result
    /// code `result` (negative: an OS error; otherwise the accepted socket or the
    /// number of bytes transferred). `received` holds the bytes that a receive
    /// transferred, the first `result` bytes of its buffer. Returns the operations to
    /// submit next, in order.
    ///
    /// - Accept: the new socket is registered and polled, and the accept is
    ///   resubmitted; a failed accept is only resubmitted, and a socket that cannot
    ///   be registered is closed.
    /// - Readiness: a receive is submitted.
    /// - Receive: a zero-byte result is an orderly disconnect; otherwise the bytes
    ///   are owed to every other connection and the sender is polled again.
    /// - Send: the rest of the payload, or the bytes queued behind it, is submitted.
    /// - An error on any operation of a connection removes it and closes its socket.
    /// - A completion whose token has no operation in flight, such as one for a
    ///   connection removed meanwhile, changes nothing and asks for nothing.
    pub fn handle_completion(&mut self, token: u64, result: i32, received: &Vec<u8>) -> (r: Vec<Action>)
        requires
            old(self)@.wf(),
        ensures
            final(self)@.wf(),
            (final(self)@, r@) == old(self)@.step(token, result, received@),
    {
        let ghost pre = self@;
        let accept = self.accept_action();
        if token == LISTEN_TOKEN {
            if result < 0 {
                return vec![accept];
            }
            match self.register(result) {
                Some(id) => {
                    return vec![Action::PollReadable { token: id, handle: result }, accept];
                },
                None => {
                    return vec![Action::Close { handle: result }, accept];
                },
            }
        }
        let id = if token < WRITE_TOKEN_BASE {
            token
        } else {
            token - WRITE_TOKEN_BASE
        };
        let i = match self.position(id) {
            None => {
                return Vec::new();
            },
            Some(i) => i,
        };
        assert(self@.conns[i as int] == self.conns@[i as int]@);
        let handle = self.conns[i].handle;
        if token < WRITE_TOKEN_BASE {
            if !self.conns[i].reading {
                if result < 0 {
                    self.remove(id);
                    vec![Action::Close { handle }]
                } else {
                    let a = self.start_receive(i);
                    vec![a]
                }
            } else if result <= 0 {
                self.remove(id);
                vec![Action::Close { handle }]
            } else {
                self.relay(i, received)
            }
        } else {
            if !self.conns[i].lane.is_busy() {
                return Vec::new();
            }
            if result < 0 {
                self.remove(id);
                vec![Action::Close { handle }]
            } else {
                self.continue_send(i, result as usize)
            }
        }
    }

    /// The identifiers of every live connection but `id`, in registration order.
    pub fn all_except(&self, id: u64) -> (r: Vec<u64>)
        requires
            self@.wf(),
        ensures
            forall|x: u64| r@.contains(x) <==> (self@.live(x) && x != id),
            forall|a: int, b: int| 0 <= a < b < r@.len() ==> r@[a] < r@[b],
    {
        let mut r: Vec<u64> = Vec::new();
        let mut i: usize = 0;
        while i < self.conns.len()
            invariant
                self@.wf(),
                i <= self@.conns.len(),
                forall|x: u64| r@.contains(x) <==> (exists|k: int| 0 <= k < i && #[trigger] self@.conns[k].id == x && x != id),
                forall|a: int, b: int| 0 <= a < b < r@.len() ==> r@[a] < r@[b],
                forall|a: int| #![trigger r@[a]] 0 <= a < r@.len() ==> exists|k: int| 0 <= k < i && #[trigger] self@.conns[k].id == r@[a],
            decreases self@.conns.len() - i,
        {
            assert(self@.conns[i as int] == self.conns@[i as int]@);
            let c_id = self.conns[i].id;
            let ghost r0 = r@;
            if c_id != id {
                proof {
                    assert forall|a: int| 0 <= a < r@.len() implies r@[a] < c_id by {
                        let k = choose|k: int| 0 <= k < i && #[trigger] self@.conns[k].id == r@[a];
                        assert(self@.conns[k].id < self@.conns[i as int].id);
                    }
                }
                r.push(c_id);
            }
            proof {
                assert forall|x: u64| r@.contains(x) <==> (exists|k: int| 0 <= k < i + 1 && #[trigger] self@.conns[k].id == x && x != id) by {
                    if r@.contains(x) {
                        let a = choose|a: int| 0 <= a < r@.len() && r@[a] == x;
                        if a < r0.len() {
                            assert(r0[a] == x);
                            assert(r0.contains(x));
                        } else {
                            assert(self@.conns[i as int].id == x);
                        }
                    }
                    if exists|k: int| 0 <= k < i + 1 && #[trigger] self@.conns[k].id == x && x != id {
                        let k = choose|k: int| 0 <= k < i + 1 && #[trigger] self@.conns[k].id == x && x != id;
                        if k < i {
                            assert(r0.contains(x));
                            let a = choose|a: int| 0 <= a < r0.len() && r0[a] == x;
                            assert(r@[a] == x);
                        } else {
                            assert(r@[r@.len() - 1] == x);
                        }
                    }
                }
                assert forall|a: int| #![trigger r@[a]] 0 <= a < r@.len() implies exists|k: int| 0 <= k < i + 1 && #[trigger] self@.conns[k].id == r@[a] by {
                    if a < r0.len() {
                        assert(r0[a] == r@[a]);
                    } else {
                        assert(self@.conns[i as int].id == r@[a]);
                    }
                }
            }
            i = i + 1;
        }
        r
    }
}

} // verus!
