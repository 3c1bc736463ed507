//! The in-process transport: its pool of open connections, what it counts of
//! their traffic, and what it decides on each event.

use crate::ids::bytes_copy;
use crate::instances;
use crate::instances::{Listener, Route, TransportInstances};
use crate::tables;
use crate::tables::ByteTable;
use crate::url::Url;
use vstd::prelude::*;

verus! {

/// What is counted of one connection.
#[derive(Clone, Copy, Debug, PartialEq, Eq)]
pub struct ConnectionStats {
    /// The message count sent on this connection.
    pub send_message_count: u64,
    /// The bytes sent on this connection.
    pub send_bytes: u64,
    /// The message count received on this connection.
    pub recv_message_count: u64,
    /// The bytes received on this connection.
    pub recv_bytes: u64,
    /// When the first message was counted, in seconds.
    pub opened_at_s: u64,
    /// Whether the connection is a direct one, which none of this transport is.
    pub is_direct: bool,
}

/// Something that happens to the transport.
#[derive(Debug)]
pub enum Event {
    /// A connection with a peer was made, and the handler has or has not
    /// accepted the peer.
    Register { url: Url, conn: u64, accepted: bool },
    /// A message of a peer came in.
    Receive { url: Url, size: u64, at_s: u64 },
    /// The handler is done with a message of a peer, and has or has not failed
    /// on it.
    Handled { url: Url, failure: Option<Vec<u8>> },
    /// The peer is to be disconnected, with or without a message and the reason
    /// for it.
    Disconnect { url: Url, reason: Option<Vec<u8>> },
    /// A message is to be sent to a peer.
    Send { url: Url, size: u64, at_s: u64 },
    /// A message is to be sent over a connection that was made for it.
    Dialled { url: Url, conn: u64, size: u64, at_s: u64 },
}

/// The peer that an event is about.
pub open spec fn subject(event: Event) -> Seq<u8> {
    match event {
        Event::Register { url, .. } => url@,
        Event::Receive { url, .. } => url@,
        Event::Handled { url, .. } => url@,
        Event::Disconnect { url, .. } => url@,
        Event::Send { url, .. } => url@,
        Event::Dialled { url, .. } => url@,
    }
}

/// Something that the transport does.
#[derive(Debug)]
pub enum Action {
    /// Send the preflight over a connection and start reading from it.
    Greet(u64),
    /// Hand the message to the handler.
    Handle,
    /// Send the disconnect message over a connection.
    Dismiss(u64),
    /// Drop a connection and tell the handler that the peer is disconnected,
    /// with the reason.
    Close(u64, Option<Vec<u8>>),
    /// Send the message over a connection, once that is ready.
    Deliver(u64),
    /// Make a connection to a listener for the message.
    Dial(u64),
}

/// An [`Action`] with its reason as a sequence of bytes.
pub enum ActionView {
    Greet(u64),
    Handle,
    Dismiss(u64),
    Close(u64, Option<Seq<u8>>),
    Deliver(u64),
    Dial(u64),
}

/// A reason as a sequence of bytes.
pub open spec fn reason_view(reason: Option<Vec<u8>>) -> Option<Seq<u8>> {
    match reason {
        Some(text) => Some(text@),
        None => None,
    }
}

impl View for Action {
    type V = ActionView;

    open spec fn view(&self) -> ActionView {
        match self {
            Action::Greet(conn) => ActionView::Greet(*conn),
            Action::Handle => ActionView::Handle,
            Action::Dismiss(conn) => ActionView::Dismiss(*conn),
            Action::Close(conn, reason) => ActionView::Close(*conn, reason_view(*reason)),
            Action::Deliver(conn) => ActionView::Deliver(*conn),
            Action::Dial(id) => ActionView::Dial(*id),
        }
    }
}

/// A list of actions.
pub open spec fn action_views(actions: Seq<Action>) -> Seq<ActionView> {
    Seq::new(actions.len(), |i: int| actions[i]@)
}

/// The counts of a connection before its first message.
pub open spec fn no_traffic(at_s: u64) -> ConnectionStats {
    ConnectionStats {
        send_message_count: 0,
        send_bytes: 0,
        recv_message_count: 0,
        recv_bytes: 0,
        opened_at_s: at_s,
        is_direct: false,
    }
}

/// The counts of a peer, from zero if nothing was counted yet.
pub open spec fn counts_of(
    stats: Map<Seq<u8>, ConnectionStats>,
    url: Seq<u8>,
    at_s: u64,
) -> ConnectionStats {
    if stats.contains_key(url) {
        stats[url]
    } else {
        no_traffic(at_s)
    }
}

/// One received message more.
pub open spec fn with_received(
    stats: Map<Seq<u8>, ConnectionStats>,
    url: Seq<u8>,
    size: u64,
    at_s: u64,
) -> Map<Seq<u8>, ConnectionStats> {
    let counts = counts_of(stats, url, at_s);
    stats.insert(
        url,
        ConnectionStats {
            recv_message_count: (counts.recv_message_count + 1) as u64,
            recv_bytes: (counts.recv_bytes + size) as u64,
            ..counts
        },
    )
}

/// One sent message more.
pub open spec fn with_sent(
    stats: Map<Seq<u8>, ConnectionStats>,
    url: Seq<u8>,
    size: u64,
    at_s: u64,
) -> Map<Seq<u8>, ConnectionStats> {
    let counts = counts_of(stats, url, at_s);
    stats.insert(
        url,
        ConnectionStats {
            send_message_count: (counts.send_message_count + 1) as u64,
            send_bytes: (counts.send_bytes + size) as u64,
            ..counts
        },
    )
}

/// The transport's state and what it does next.
#[verifier::ext_equal]
pub struct Moved {
    pub pool: Map<Seq<u8>, u64>,
    pub stats: Map<Seq<u8>, ConnectionStats>,
    pub actions: Seq<ActionView>,
}

/// What an event makes of the transport.
pub open spec fn moved(
    pool: Map<Seq<u8>, u64>,
    stats: Map<Seq<u8>, ConnectionStats>,
    live: Set<u64>,
    event: Event,
) -> Moved {
    let rest = Moved { pool, stats, actions: Seq::empty() };
    match event {
        Event::Register { url, conn, accepted } => {
            if !accepted {
                rest
            } else if pool.contains_key(url@) {
                // The connection that is replaced is dropped, and what was
                // counted of it with it.
                Moved {
                    pool: pool.insert(url@, conn),
                    stats: stats.remove(url@),
                    actions: seq![
                        ActionView::Greet(conn),
                        ActionView::Close(pool[url@], None),
                    ],
                }
            } else {
                Moved {
                    pool: pool.insert(url@, conn),
                    actions: seq![ActionView::Greet(conn)],
                    ..rest
                }
            }
        },
        Event::Receive { url, size, at_s } => Moved {
            stats: with_received(stats, url@, size, at_s),
            actions: seq![ActionView::Handle],
            ..rest
        },
        Event::Handled { url, failure } => {
            if failure is Some && pool.contains_key(url@) {
                Moved {
                    pool: pool.remove(url@),
                    stats: stats.remove(url@),
                    actions: seq![ActionView::Close(pool[url@], reason_view(failure))],
                }
            } else {
                rest
            }
        },
        Event::Disconnect { url, reason } => {
            if !pool.contains_key(url@) {
                rest
            } else {
                Moved {
                    pool: pool.remove(url@),
                    stats: stats.remove(url@),
                    actions: if reason is Some {
                        seq![
                            ActionView::Dismiss(pool[url@]),
                            ActionView::Close(pool[url@], reason_view(reason)),
                        ]
                    } else {
                        seq![ActionView::Close(pool[url@], None)]
                    },
                }
            }
        },
        Event::Send { url, size, at_s } => match instances::route(pool, live, url@) {
            Route::Open(conn) => Moved {
                stats: with_sent(stats, url@, size, at_s),
                actions: seq![ActionView::Deliver(conn)],
                ..rest
            },
            Route::Dial(id) => Moved { actions: seq![ActionView::Dial(id)], ..rest },
            Route::Nowhere => rest,
        },
        Event::Dialled { url, conn, size, at_s } => Moved {
            stats: with_sent(stats, url@, size, at_s),
            actions: seq![ActionView::Deliver(conn)],
            ..rest
        },
    }
}

/// The counts that an event changes are machine integers afterwards.
pub open spec fn counts_fit(stats: Map<Seq<u8>, ConnectionStats>, event: Event) -> bool {
    match event {
        Event::Receive { url, size, at_s } => {
            let counts = counts_of(stats, url@, at_s);
            counts.recv_message_count < u64::MAX && counts.recv_bytes + size <= u64::MAX
        },
        Event::Send { url, size, at_s } => {
            let counts = counts_of(stats, url@, at_s);
            counts.send_message_count < u64::MAX && counts.send_bytes + size <= u64::MAX
        },
        Event::Dialled { url, conn, size, at_s } => {
            let counts = counts_of(stats, url@, at_s);
            counts.send_message_count < u64::MAX && counts.send_bytes + size <= u64::MAX
        },
        _ => true,
    }
}

/// The in-process transport.
#[derive(Debug)]
pub struct MemTransport {
    /// The URL under which this transport is reached.
    pub this_url: Url,
    /// The open connection with each peer.
    pub pool: ByteTable<u64>,
    /// What is counted for each peer.
    pub stats: ByteTable<ConnectionStats>,
}

impl MemTransport {
    /// Each peer has at most one connection and one entry of counts.
    pub open spec fn wf(&self) -> bool {
        self.pool.wf() && self.stats.wf()
    }

    /// A transport behind a listener, without connections.
    pub fn create(listener: &Listener) -> (transport: MemTransport)
        ensures
            transport.wf(),
            transport.this_url@ == listener.text(),
            transport.pool@ == Map::<Seq<u8>, u64>::empty(),
            transport.stats@ == Map::<Seq<u8>, ConnectionStats>::empty(),
            transport.stats.listing() == Seq::<(Seq<u8>, ConnectionStats)>::empty(),
    {
        MemTransport {
            this_url: listener.url(),
            pool: ByteTable::new(),
            stats: ByteTable::new(),
        }
    }

    /// The counts of a peer, from zero if nothing was counted yet.
    fn counts(&self, url: &Url, at_s: u64) -> (counts: ConnectionStats)
        requires
            self.wf(),
        ensures
            counts == counts_of(self.stats@, url@, at_s),
    {
        match self.stats.get(url.as_bytes()) {
            Some(counts) => counts,
            None => ConnectionStats {
                send_message_count: 0,
                send_bytes: 0,
                recv_message_count: 0,
                recv_bytes: 0,
                opened_at_s: at_s,
                is_direct: false,
            },
        }
    }

    /// Counts a sent message.
    fn count_sent(&mut self, url: &Url, size: u64, at_s: u64)
        requires
            old(self).wf(),
            counts_of(old(self).stats@, url@, at_s).send_message_count < u64::MAX,
            counts_of(old(self).stats@, url@, at_s).send_bytes + size <= u64::MAX,
        ensures
            final(self).wf(),
            final(self).stats@ == with_sent(old(self).stats@, url@, size, at_s),
            final(self).stats.listing() == tables::relisted(
                old(self).stats.listing(),
                url@,
                final(self).stats@,
            ),
            final(self).pool == old(self).pool,
            final(self).this_url == old(self).this_url,
    {
        let mut counts = self.counts(url, at_s);
        counts.send_message_count = counts.send_message_count + 1;
        counts.send_bytes = counts.send_bytes + size;
        self.stats.insert(bytes_copy(url.as_bytes()), counts);
    }

    /// Counts a received message.
    fn count_received(&mut self, url: &Url, size: u64, at_s: u64)
        requires
            old(self).wf(),
            counts_of(old(self).stats@, url@, at_s).recv_message_count < u64::MAX,
            counts_of(old(self).stats@, url@, at_s).recv_bytes + size <= u64::MAX,
        ensures
            final(self).wf(),
            final(self).stats@ == with_received(old(self).stats@, url@, size, at_s),
            final(self).stats.listing() == tables::relisted(
                old(self).stats.listing(),
                url@,
                final(self).stats@,
            ),
            final(self).pool == old(self).pool,
            final(self).this_url == old(self).this_url,
    {
        let mut counts = self.counts(url, at_s);
        counts.recv_message_count = counts.recv_message_count + 1;
        counts.recv_bytes = counts.recv_bytes + size;
        self.stats.insert(bytes_copy(url.as_bytes()), counts);
    }

    /// Takes a peer's connection out of the pool, and its counts with it.
    fn drop_connection(&mut self, url: &Url) -> (conn: Option<u64>)
        requires
            old(self).wf(),
        ensures
            final(self).wf(),
            conn == (if old(self).pool@.contains_key(url@) {
                Some(old(self).pool@[url@])
            } else {
                None
            }),
            final(self).pool@ == old(self).pool@.remove(url@),
            final(self).stats@ == if conn is Some {
                old(self).stats@.remove(url@)
            } else {
                old(self).stats@
            },
            final(self).stats.listing() == tables::relisted(
                old(self).stats.listing(),
                url@,
                final(self).stats@,
            ),
            final(self).this_url == old(self).this_url,
    {
        let conn = self.pool.get(url.as_bytes());
        self.pool.remove(url.as_bytes());
        if conn.is_some() {
            self.stats.remove(url.as_bytes());
        } else {
            proof {
                tables::lemma_relisted_same(self.stats.listing(), url@);
            }
        }
        conn
    }

    /// Whether the counts have room for an event.
    pub fn has_room(&self, event: &Event) -> (fits: bool)
        requires
            self.wf(),
        ensures
            fits == counts_fit(self.stats@, *event),
    {
        match event {
            Event::Receive { url, size, at_s } => {
                let counts = self.counts(url, *at_s);
                counts.recv_message_count < u64::MAX && counts.recv_bytes <= u64::MAX - *size
            },
            Event::Send { url, size, at_s } => {
                let counts = self.counts(url, *at_s);
                counts.send_message_count < u64::MAX && counts.send_bytes <= u64::MAX - *size
            },
            Event::Dialled { url, conn: _, size, at_s } => {
                let counts = self.counts(url, *at_s);
                counts.send_message_count < u64::MAX && counts.send_bytes <= u64::MAX - *size
            },
            _ => true,
        }
    }

    /// Takes one event into account. The result is what is to be done, in
    /// order. The counts are listed in the order in which they were started.
    pub fn step(&mut self, event: Event, directory: &TransportInstances) -> (actions: Vec<Action>)
        requires
            old(self).wf(),
            counts_fit(old(self).stats@, event),
        ensures
            final(self).wf(),
            final(self).this_url == old(self).this_url,
            ({
                let next = moved(old(self).pool@, old(self).stats@, directory@, event);
                &&& final(self).pool@ == next.pool
                &&& final(self).stats@ == next.stats
                &&& final(self).stats.listing() == tables::relisted(
                    old(self).stats.listing(),
                    subject(event),
                    next.stats,
                )
                &&& action_views(actions@) == next.actions
            }),
    {
        let ghost goal = moved(self.pool@, self.stats@, directory@, event);
        proof {
            tables::lemma_relisted_same(self.stats.listing(), subject(event));
        }
        let mut actions: Vec<Action> = Vec::new();
        assert(action_views(actions@) =~= Seq::<ActionView>::empty());
        match event {
            Event::Register { url, conn, accepted } => {
                if accepted {
                    actions.push(Action::Greet(conn));
                    if let Some(replaced) = self.drop_connection(&url) {
                        actions.push(Action::Close(replaced, None));
                    }
                    self.pool.insert(bytes_copy(url.as_bytes()), conn);
                    assert(action_views(actions@) =~= goal.actions);
                    assert(self.pool@ =~= goal.pool);
                }
            },
            Event::Receive { url, size, at_s } => {
                self.count_received(&url, size, at_s);
                actions.push(Action::Handle);
                assert(action_views(actions@) =~= goal.actions);
            },
            Event::Handled { url, failure } => {
                if failure.is_some() {
                    if let Some(conn) = self.drop_connection(&url) {
                        actions.push(Action::Close(conn, failure));
                        assert(action_views(actions@) =~= goal.actions);
                    } else {
                        assert(self.pool@ =~= goal.pool);
                    }
                }
            },
            Event::Disconnect { url, reason } => {
                if let Some(conn) = self.drop_connection(&url) {
                    if reason.is_some() {
                        actions.push(Action::Dismiss(conn));
                    }
                    actions.push(Action::Close(conn, reason));
                    assert(action_views(actions@) =~= goal.actions);
                } else {
                    assert(self.pool@ =~= goal.pool);
                }
            },
            Event::Send { url, size, at_s } => {
                match directory.connect(&self.pool, &url) {
                    Route::Open(conn) => {
                        self.count_sent(&url, size, at_s);
                        actions.push(Action::Deliver(conn));
                        assert(action_views(actions@) =~= goal.actions);
                    },
                    Route::Dial(id) => {
                        actions.push(Action::Dial(id));
                        assert(action_views(actions@) =~= goal.actions);
                    },
                    Route::Nowhere => {},
                }
            },
            Event::Dialled { url, conn, size, at_s } => {
                self.count_sent(&url, size, at_s);
                actions.push(Action::Deliver(conn));
                assert(action_views(actions@) =~= goal.actions);
            },
        }
        actions
    }
}

// ---------------------------------------------------------------------------
// The first message of a connection.

/// The number of the message type for preflights.
pub const PREFLIGHT: i32 = 1;

/// The number of the type of the message that `kitsune2_api::K2Proto::decode`
/// reads from the bytes, if it reads one.
pub uninterp spec fn message_type(data: Seq<u8>) -> Option<i32>;

/// Calls `kitsune2_api::K2Proto::decode` and asks the message for its type,
/// which is that for unspecified messages where the number is not known. The
/// contract only names the outcome.
#[verifier::external_body]
fn api_message_type(data: &[u8]) -> (kind: Option<i32>)
    ensures
        kind == message_type(data@),
{
    let message = kitsune2_api::K2Proto::decode(data).ok()?;
    Some(message.ty() as i32)
}

/// What becomes of a connection on its first message.
#[derive(Clone, Copy, Debug, PartialEq, Eq)]
pub enum Verdict {
    /// The message is a preflight: it is passed on, and the connection is ready.
    Ready,
    /// The message is of another type: the connection is not read any further.
    NotPreflight(i32),
    /// The message cannot be decoded: the connection is not read any further.
    Undecodable,
}

/// What becomes of a connection whose first message is of the given type, if it
/// is a message.
pub open spec fn verdict(kind: Option<i32>) -> Verdict {
    match kind {
        Some(ty) => if ty == PREFLIGHT {
            Verdict::Ready
        } else {
            Verdict::NotPreflight(ty)
        },
        None => Verdict::Undecodable,
    }
}

/// Judges the first message of a connection by its type.
pub fn judge_type(kind: Option<i32>) -> (out: Verdict)
    ensures
        out == verdict(kind),
{
    match kind {
        Some(ty) => {
            if ty == PREFLIGHT {
                Verdict::Ready
            } else {
                Verdict::NotPreflight(ty)
            }
        },
        None => Verdict::Undecodable,
    }
}

/// Judges the first message of a connection.
pub fn judge_first_message(data: &[u8]) -> (out: Verdict)
    ensures
        out == verdict(message_type(data@)),
{
    judge_type(api_message_type(data))
}

// ---------------------------------------------------------------------------
// The end of a send.

/// How a send came back.
#[derive(Clone, Copy, Debug, PartialEq, Eq)]
pub enum SendReply {
    /// The transport does not take messages any more.
    NotQueued,
    /// Nobody answered.
    Lost,
    /// The peer could not handle the message.
    Failed,
    /// The peer has handled the message.
    Done,
}

/// What the sender is told.
#[derive(Clone, Copy, Debug, PartialEq, Eq)]
pub enum SendResult {
    /// All went well.
    Sent,
    /// The connection is closed.
    ConnectionClosed,
    /// What the peer answered.
    PeerError,
}

/// What the sender is told, and whether the peer is marked as unresponsive:
/// it is, whenever a send fails.
pub fn settle_send(reply: SendReply) -> (out: (SendResult, bool))
    ensures
        out.0 == match reply {
            SendReply::NotQueued => SendResult::ConnectionClosed,
            SendReply::Lost => SendResult::ConnectionClosed,
            SendReply::Failed => SendResult::PeerError,
            SendReply::Done => SendResult::Sent,
        },
        out.1 == (reply != SendReply::Done),
{
    match reply {
        SendReply::NotQueued => (SendResult::ConnectionClosed, true),
        SendReply::Lost => (SendResult::ConnectionClosed, true),
        SendReply::Failed => (SendResult::PeerError, true),
        SendReply::Done => (SendResult::Sent, false),
    }
}

// ---------------------------------------------------------------------------
// Laws.

/// An event leaves the connections and counts of all other peers alone.
pub proof fn law_events_concern_one_peer(
    pool: Map<Seq<u8>, u64>,
    stats: Map<Seq<u8>, ConnectionStats>,
    live: Set<u64>,
    event: Event,
    other: Seq<u8>,
)
    requires
        other != subject(event),
    ensures
        ({
            let next = moved(pool, stats, live, event);
            &&& next.pool.contains_key(other) == pool.contains_key(other)
            &&& next.pool[other] == pool[other]
            &&& next.stats.contains_key(other) == stats.contains_key(other)
            &&& next.stats[other] == stats[other]
        }),
{
}

/// An event leaves the counts of all other peers in their order, and those of a
/// peer of which nothing was counted before come last. The list is one of the
/// counts that the event gives.
pub proof fn law_counts_keep_their_order(
    pool: Map<Seq<u8>, u64>,
    list: Seq<(Seq<u8>, ConnectionStats)>,
    live: Set<u64>,
    event: Event,
)
    requires
        tables::distinct_keys(list),
    ensures
        ({
            let stats = moved(pool, tables::as_table(list), live, event).stats;
            let url = subject(event);
            let next = tables::relisted(list, url, stats);
            &&& tables::distinct_keys(next)
            &&& tables::as_table(next) == stats
            &&& tables::without_key(next, url) == tables::without_key(list, url)
            &&& !tables::has_key(list, url) && stats.contains_key(url) ==> next == list.push(
                (url, stats[url]),
            )
        }),
{
    let before = tables::as_table(list);
    let stats = moved(pool, before, live, event).stats;
    let url = subject(event);
    if stats.contains_key(url) {
        assert(stats =~= before.insert(url, stats[url]));
    } else {
        assert(stats =~= before.remove(url));
    }
    tables::lemma_relisted(list, url, stats);
}

/// Whenever a connection is closed it was the one in the pool, it is not in the
/// pool afterwards unless it was registered anew, and nothing is counted of it
/// any more.
pub proof fn law_closed_connections_are_forgotten(
    pool: Map<Seq<u8>, u64>,
    stats: Map<Seq<u8>, ConnectionStats>,
    live: Set<u64>,
    event: Event,
    i: int,
)
    requires
        0 <= i < moved(pool, stats, live, event).actions.len(),
        moved(pool, stats, live, event).actions[i] is Close,
    ensures
        ({
            let next = moved(pool, stats, live, event);
            let url = subject(event);
            &&& pool.contains_key(url)
            &&& next.actions[i]->Close_0 == pool[url]
            &&& !next.stats.contains_key(url)
            &&& event is Register || !next.pool.contains_key(url)
        }),
{
}

/// A connection leaves the pool only by being closed.
pub proof fn law_connections_end_by_being_closed(
    pool: Map<Seq<u8>, u64>,
    stats: Map<Seq<u8>, ConnectionStats>,
    live: Set<u64>,
    event: Event,
)
    requires
        pool.contains_key(subject(event)),
        !(event is Register),
        !moved(pool, stats, live, event).pool.contains_key(subject(event)),
    ensures
        moved(pool, stats, live, event).actions.last() is Close,
{
}

/// Disconnecting twice is the same as once.
pub proof fn law_disconnecting_is_idempotent(
    pool: Map<Seq<u8>, u64>,
    stats: Map<Seq<u8>, ConnectionStats>,
    live: Set<u64>,
    event: Event,
)
    requires
        event is Disconnect,
    ensures
        ({
            let once = moved(pool, stats, live, event);
            let twice = moved(once.pool, once.stats, live, event);
            &&& twice.pool == once.pool
            &&& twice.stats == once.stats
            &&& twice.actions.len() == 0
        }),
{
}

/// A message for a peer with an open connection goes over that connection and
/// is counted once.
pub proof fn law_open_connections_are_reused(
    pool: Map<Seq<u8>, u64>,
    stats: Map<Seq<u8>, ConnectionStats>,
    live: Set<u64>,
    event: Event,
)
    requires
        event is Send,
        pool.contains_key(subject(event)),
        counts_fit(stats, event),
    ensures
        ({
            let next = moved(pool, stats, live, event);
            let before = counts_of(stats, subject(event), event->Send_at_s);
            &&& next.pool == pool
            &&& next.actions == seq![ActionView::Deliver(pool[subject(event)])]
            &&& next.stats[subject(event)].send_message_count == before.send_message_count + 1
            &&& next.stats[subject(event)].send_bytes == before.send_bytes + event->Send_size
            &&& next.stats[subject(event)].recv_message_count == before.recv_message_count
        }),
{
}

/// A message that is dialled for and then goes out is counted once, and the
/// connection that is registered for it carries the next one.
pub proof fn law_dialled_connections_carry_on(
    pool: Map<Seq<u8>, u64>,
    stats: Map<Seq<u8>, ConnectionStats>,
    live: Set<u64>,
    register: Event,
)
    requires
        register is Register,
        register->accepted,
        !pool.contains_key(subject(register)),
    ensures
        ({
            let next = moved(pool, stats, live, register);
            &&& instances::route(next.pool, live, subject(register)) == Route::Open(
                register->Register_conn,
            )
            &&& next.stats == stats
        }),
{
}

/// What was counted of a peer before: nothing, from the given time on, where it
/// is not listed.
pub open spec fn counted_before(
    stats: Map<Seq<u8>, ConnectionStats>,
    url: Seq<u8>,
    at_s: u64,
) -> ConnectionStats {
    if stats.contains_key(url) {
        stats[url]
    } else {
        ConnectionStats {
            send_message_count: 0,
            send_bytes: 0,
            recv_message_count: 0,
            recv_bytes: 0,
            opened_at_s: at_s,
            is_direct: false,
        }
    }
}

/// A received message is handed to the handler and counted: one message more,
/// and its size in bytes more. What was sent, when counting began and who is
/// connected stay as they were.
pub proof fn law_received_messages_add_up(
    pool: Map<Seq<u8>, u64>,
    stats: Map<Seq<u8>, ConnectionStats>,
    live: Set<u64>,
    url: Url,
    size: u64,
    at_s: u64,
)
    requires
        counted_before(stats, url@, at_s).recv_message_count < u64::MAX,
        counted_before(stats, url@, at_s).recv_bytes + size <= u64::MAX,
    ensures
        ({
            let before = counted_before(stats, url@, at_s);
            let next = moved(pool, stats, live, Event::Receive { url, size, at_s });
            let after = next.stats[url@];
            &&& next.stats.dom() == stats.dom().insert(url@)
            &&& after.recv_message_count == before.recv_message_count + 1
            &&& after.recv_bytes == before.recv_bytes + size
            &&& after.send_message_count == before.send_message_count
            &&& after.send_bytes == before.send_bytes
            &&& after.opened_at_s == before.opened_at_s
            &&& after.is_direct == before.is_direct
            &&& next.pool == pool
            &&& next.actions == seq![ActionView::Handle]
        }),
{
    let next = moved(pool, stats, live, Event::Receive { url, size, at_s });
    assert(next.stats.dom() =~= stats.dom().insert(url@));
}

/// A message that goes out, over an open connection or over one that was made
/// for it, is delivered over that connection and counted: one message more, and
/// its size in bytes more. What was received, when counting began and who is
/// connected stay as they were.
pub proof fn law_sent_messages_add_up(
    pool: Map<Seq<u8>, u64>,
    stats: Map<Seq<u8>, ConnectionStats>,
    live: Set<u64>,
    url: Url,
    conn: u64,
    size: u64,
    at_s: u64,
    event: Event,
)
    requires
        counted_before(stats, url@, at_s).send_message_count < u64::MAX,
        counted_before(stats, url@, at_s).send_bytes + size <= u64::MAX,
        event == (Event::Dialled { url, conn, size, at_s }) || (event == (Event::Send {
            url,
            size,
            at_s,
        }) && pool.contains_key(url@) && pool[url@] == conn),
    ensures
        ({
            let before = counted_before(stats, url@, at_s);
            let next = moved(pool, stats, live, event);
            let after = next.stats[url@];
            &&& next.stats.dom() == stats.dom().insert(url@)
            &&& after.send_message_count == before.send_message_count + 1
            &&& after.send_bytes == before.send_bytes + size
            &&& after.recv_message_count == before.recv_message_count
            &&& after.recv_bytes == before.recv_bytes
            &&& after.opened_at_s == before.opened_at_s
            &&& after.is_direct == before.is_direct
            &&& next.pool == pool
            &&& next.actions == seq![ActionView::Deliver(conn)]
        }),
{
    let next = moved(pool, stats, live, event);
    assert(next.stats.dom() =~= stats.dom().insert(url@));
}

/// The counts have room for an event unless a sum would leave the machine
/// integers.
pub proof fn law_counts_have_room(stats: Map<Seq<u8>, ConnectionStats>, event: Event)
    ensures
        counts_fit(stats, event) <==> match event {
            Event::Receive { url, size, at_s } => {
                let before = counted_before(stats, url@, at_s);
                before.recv_message_count + 1 <= u64::MAX && before.recv_bytes + size <= u64::MAX
            },
            Event::Send { url, size, at_s } => {
                let before = counted_before(stats, url@, at_s);
                before.send_message_count + 1 <= u64::MAX && before.send_bytes + size <= u64::MAX
            },
            Event::Dialled { url, conn: _, size, at_s } => {
                let before = counted_before(stats, url@, at_s);
                before.send_message_count + 1 <= u64::MAX && before.send_bytes + size <= u64::MAX
            },
            Event::Register { .. } => true,
            Event::Handled { .. } => true,
            Event::Disconnect { .. } => true,
        },
{
}

/// A peer that is accepted is connected and greeted over the new connection; one
/// that it replaces is closed without a reason, and what was counted of it is
/// forgotten. A peer that is not accepted changes nothing.
pub proof fn law_accepted_peers_are_connected(
    pool: Map<Seq<u8>, u64>,
    stats: Map<Seq<u8>, ConnectionStats>,
    live: Set<u64>,
    url: Url,
    conn: u64,
    accepted: bool,
)
    ensures
        ({
            let next = moved(pool, stats, live, Event::Register { url, conn, accepted });
            let known = pool.contains_key(url@);
            &&& accepted ==> next.pool == pool.insert(url@, conn)
            &&& accepted && !known ==> next.actions == seq![ActionView::Greet(conn)] && next.stats
                == stats
            &&& accepted && known ==> next.actions == seq![
                ActionView::Greet(conn),
                ActionView::Close(pool[url@], None),
            ] && next.stats == stats.remove(url@)
            &&& !accepted ==> next.pool == pool && next.stats == stats && next.actions.len() == 0
        }),
{
}

/// A connection on which a message failed is closed with the failure as the
/// reason, and forgotten. A message that was handled, or that came from a peer
/// without a connection, changes nothing.
pub proof fn law_failures_end_the_connection(
    pool: Map<Seq<u8>, u64>,
    stats: Map<Seq<u8>, ConnectionStats>,
    live: Set<u64>,
    url: Url,
    failure: Option<Vec<u8>>,
)
    ensures
        ({
            let next = moved(pool, stats, live, Event::Handled { url, failure });
            let ends = failure is Some && pool.contains_key(url@);
            &&& ends ==> {
                &&& next.pool == pool.remove(url@)
                &&& next.stats == stats.remove(url@)
                &&& next.actions == seq![ActionView::Close(pool[url@], Some((failure->0)@))]
            }
            &&& !ends ==> next.pool == pool && next.stats == stats && next.actions.len() == 0
        }),
{
}

/// A peer that is disconnected is sent the message for it, if there is one, and
/// only then is the connection closed with its reason, and forgotten. A peer
/// without a connection changes nothing.
pub proof fn law_disconnected_peers_are_told_first(
    pool: Map<Seq<u8>, u64>,
    stats: Map<Seq<u8>, ConnectionStats>,
    live: Set<u64>,
    url: Url,
    reason: Option<Vec<u8>>,
)
    ensures
        ({
            let next = moved(pool, stats, live, Event::Disconnect { url, reason });
            let conn = pool[url@];
            let known = pool.contains_key(url@);
            &&& known ==> next.pool == pool.remove(url@) && next.stats == stats.remove(url@)
            &&& known && reason is Some ==> next.actions == seq![
                ActionView::Dismiss(conn),
                ActionView::Close(conn, Some((reason->0)@)),
            ]
            &&& known && reason is None ==> next.actions == seq![ActionView::Close(conn, None)]
            &&& !known ==> next.pool == pool && next.stats == stats && next.actions.len() == 0
        }),
{
}

/// A message for a peer without a connection makes one if the listener that the
/// URL names exists, and goes nowhere otherwise. Nothing is counted before it
/// goes out.
pub proof fn law_unconnected_peers_are_dialled(
    pool: Map<Seq<u8>, u64>,
    stats: Map<Seq<u8>, ConnectionStats>,
    live: Set<u64>,
    url: Url,
    size: u64,
    at_s: u64,
)
    requires
        !pool.contains_key(url@),
    ensures
        ({
            let next = moved(pool, stats, live, Event::Send { url, size, at_s });
            &&& next.pool == pool
            &&& next.stats == stats
            &&& match instances::listener_named(url@) {
                Some(id) => if live.contains(id) {
                    next.actions == seq![ActionView::Dial(id)]
                } else {
                    next.actions.len() == 0
                },
                None => next.actions.len() == 0,
            }
        }),
{
}

/// A connection is ready exactly where its first message is of the type of
/// preflights, which is the first of the types; and a message of another type is
/// reported with that type.
pub proof fn law_only_preflights_make_ready(kind: Option<i32>)
    ensures
        verdict(kind) is Ready <==> kind == Some(1i32),
        verdict(kind) is Undecodable <==> kind is None,
        verdict(kind) matches Verdict::NotPreflight(ty) ==> kind == Some(ty) && ty != 1,
{
}

} // verus!
