//! The server: one connection per authenticated peer, packet routing by
//! peer id, and replication fan-out to peer sets.
//!
//! The authenticator (an outside component) pushes connect and
//! disconnect events into queues; `update` drains them, building a
//! connection for every new peer and tearing one down — with a despawn
//! of its entities fanned out to everyone left — for every departed
//! peer. Sending and receiving of raw datagrams stays outside: the
//! caller hands arriving `(peer, bytes)` pairs in and carries outgoing
//! pairs to the transport.

use vstd::prelude::*;
use crate::message::MessageContainer;
use crate::message_manager::{ChannelError, MessageManager};
use crate::packet::MTU;
use crate::registry::{ChannelKind, ChannelRegistry};
use crate::replication::{targeted, Replicate, ReplicationManager, ReplicationTarget};
use crate::sync::PingManager;

verus! {

/// The crossbeam sending half, as an opaque outside type.
#[verifier::external_type_specification]
#[verifier::external_body]
#[verifier::reject_recursive_types(T)]
pub struct ExSender<T>(crossbeam_channel::Sender<T>);

/// The crossbeam receiving half, as an opaque outside type.
#[verifier::external_type_specification]
#[verifier::external_body]
#[verifier::reject_recursive_types(T)]
pub struct ExReceiver<T>(crossbeam_channel::Receiver<T>);

/// Relies on crossbeam_channel::unbounded: a fresh queue pair for peer
/// events. Nothing is assumed of the pair beyond its existence.
#[verifier::external_body]
fn unbounded_events() -> (crossbeam_channel::Sender<u64>, crossbeam_channel::Receiver<u64>) {
    crossbeam_channel::unbounded()
}

/// Relies on crossbeam_channel::Receiver::try_iter: takes every event
/// currently queued, without blocking. What arrives depends on other
/// threads, so nothing is promised of the list.
#[verifier::external_body]
fn drain_peer_events(rx: &crossbeam_channel::Receiver<u64>) -> Vec<u64> {
    rx.try_iter().collect()
}

/// The authenticator's event queues, server side.
pub struct ServerContext {
    pub connections: crossbeam_channel::Receiver<u64>,
    pub disconnections: crossbeam_channel::Receiver<u64>,
}

/// Everything the server keeps per peer.
pub struct Connection {
    pub message_manager: MessageManager,
    pub ping_manager: PingManager,
    pub replication_manager: ReplicationManager,
}

impl Connection {
    /// All three parts well-formed.
    pub open spec fn wf(self) -> bool {
        &&& self.message_manager.wf()
        &&& self.ping_manager.wf()
        &&& self.replication_manager.wf()
    }

    /// A fresh connection with every registered channel built.
    pub fn new(registry: &ChannelRegistry, initial_rtt_millis: u64) -> (r: Connection)
        requires
            registry.wf(),
        ensures
            r.wf(),
            r.replication_manager.pending@.len() == 0,
    {
        Connection {
            message_manager: MessageManager::new(registry),
            ping_manager: PingManager::new(initial_rtt_millis),
            replication_manager: ReplicationManager::new(),
        }
    }

    /// Advance the connection's clock and hand the current round-trip
    /// estimate to every reliable sender; nothing else moves.
    pub fn update(&mut self, now_millis: u64)
        requires
            old(self).wf(),
        ensures
            final(self).wf(),
            final(self).ping_manager == old(self).ping_manager,
            final(self).replication_manager == old(self).replication_manager,
            final(self).message_manager.packet_manager == old(self).message_manager.packet_manager,
            final(self).message_manager.channels@.len() == old(self).message_manager.channels@.len(),
            forall|i: int|
                0 <= i < final(self).message_manager.channels@.len()
                    ==> crate::message_manager::clocked(
                    old(self).message_manager.channels@[i].sender,
                    (#[trigger] final(self).message_manager.channels@[i]).sender,
                    now_millis,
                    old(self).ping_manager.rtt_millis,
                ) && final(self).message_manager.channels@[i].receiver == old(self).message_manager.channels@[i].receiver,
    {
        let rtt = self.ping_manager.rtt_millis;
        self.message_manager.update(now_millis, rtt);
    }

    /// Queue an application message on a channel: accepted exactly when
    /// the channel exists and can carry it, and then that channel's
    /// sender takes it by its policy's relation; a refusal changes
    /// nothing.
    pub fn buffer_send(&mut self, kind: ChannelKind, message: MessageContainer) -> (r: Result<
        (),
        ChannelError,
    >)
        requires
            old(self).wf(),
            message.id is None,
            message.fragment is None,
        ensures
            final(self).wf(),
            final(self).ping_manager == old(self).ping_manager,
            final(self).replication_manager == old(self).replication_manager,
            r is Err ==> final(self).message_manager == old(self).message_manager,
            ({
                let known = exists|j: int|
                    0 <= j < old(self).message_manager.channels@.len() && (#[trigger] old(self).message_manager.channels@[j]).kind.0 == kind.0;
                match r {
                    Ok(_) => known,
                    Err(ChannelError::UnknownChannel) => !known,
                    Err(ChannelError::MessageTooLarge) => known,
                    Err(ChannelError::MalformedPacket) => false,
                }
            }),
            r is Ok ==> exists|c: int|
                {
                    &&& 0 <= c < old(self).message_manager.channels@.len()
                    &&& (#[trigger] old(self).message_manager.channels@[c]).kind.0 == kind.0
                    &&& <crate::senders::ChannelSender as crate::senders::ChannelSend>::buffer_rel(
                        old(self).message_manager.channels@[c].sender,
                        final(self).message_manager.channels@[c].sender,
                        message,
                    )
                    &&& (forall|t: int|
                        0 <= t < old(self).message_manager.channels@.len() && t != c
                            ==> #[trigger] final(self).message_manager.channels@[t] == old(self).message_manager.channels@[t])
                },
    {
        self.message_manager.buffer_send(kind, message)
    }

    /// Take in one datagram from the peer: its packet id is recorded,
    /// its ack header shrinks the sent records by exactly the
    /// acknowledged ids, its messages reach their channels, and the
    /// header's tick comes back; a malformed datagram changes nothing.
    pub fn recv_packet(&mut self, datagram: &Vec<u8>) -> (r: Result<u16, ChannelError>)
        requires
            old(self).wf(),
        ensures
            final(self).wf(),
            final(self).ping_manager == old(self).ping_manager,
            final(self).replication_manager == old(self).replication_manager,
            r is Ok <==> crate::packet::parse_packet(datagram@) is Some,
            r is Err ==> *final(self) == *old(self),
            r is Ok ==> ({
                let p = crate::packet::parse_packet(datagram@)->0;
                let pm0 = old(self).message_manager.packet_manager;
                let pm1 = final(self).message_manager.packet_manager;
                &&& r == Ok::<u16, ChannelError>(p.tick)
                &&& (pm0.received_history@.contains(p.packet_id) ==> pm1.received_history
                    == pm0.received_history)
                &&& (!pm0.received_history@.contains(p.packet_id)
                    ==> pm1.received_history@ == pm0.received_history@.push(p.packet_id))
                &&& pm1.sent_views() == crate::packet_manager::sent_after_acks(
                    pm0.sent_views(),
                    crate::acks::acked_ids_of(
                        p.last_ack_packet_id,
                        crate::acks::bits_of_val(p.ack_bitfield),
                    ),
                )
            }),
    {
        self.message_manager.recv_packet(datagram)
    }

    /// Flush every queued message into datagrams for the transport:
    /// each stays within the MTU and parses back as a packet, and no
    /// sender is left holding collected messages.
    pub fn send_packets(&mut self, tick: u16) -> (r: Vec<Vec<u8>>)
        requires
            old(self).wf(),
        ensures
            final(self).wf(),
            final(self).ping_manager == old(self).ping_manager,
            final(self).replication_manager == old(self).replication_manager,
            forall|t: int| 0 <= t < r@.len() ==> (#[trigger] r@[t])@.len() <= MTU,
            forall|t: int|
                0 <= t < r@.len() ==> crate::packet::parse_packet((#[trigger] r@[t])@) is Some,
            forall|j: int|
                0 <= j < final(self).message_manager.channels@.len()
                    ==> crate::message_manager::sender_queue_len(
                    (#[trigger] final(self).message_manager.channels@[j]).sender,
                ) == 0,
    {
        self.message_manager.send_packets(tick)
    }

    /// Deliver the application's ready messages: one entry per channel,
    /// carrying the channel's identity and exactly what its receiver had
    /// released, which is then drained.
    pub fn read_messages(&mut self) -> (r: Vec<(u64, Vec<MessageContainer>)>)
        requires
            old(self).wf(),
        ensures
            final(self).wf(),
            final(self).ping_manager == old(self).ping_manager,
            final(self).replication_manager == old(self).replication_manager,
            final(self).message_manager.packet_manager == old(self).message_manager.packet_manager,
            r@.len() == old(self).message_manager.channels@.len(),
            forall|i: int|
                0 <= i < r@.len() ==> (#[trigger] r@[i]).0 == old(self).message_manager.channels@[i].kind.0 && crate::message::mcs_view(r@[i].1@) == old(self).message_manager.channels@[i].receiver.pending_msgs(),
            forall|i: int|
                0 <= i < final(self).message_manager.channels@.len() ==> (#[trigger] final(self).message_manager.channels@[i]).receiver.pending_msgs()
                    == Seq::<crate::packet::WireMessageView>::empty(),
    {
        self.message_manager.read_messages()
    }

    /// Take the replication events queued for this peer, in order; the
    /// caller frames them for its replication channel.
    pub fn take_replication_messages(&mut self) -> (r: Vec<
        crate::replication::ReplicationMessage,
    >)
        requires
            old(self).wf(),
        ensures
            final(self).wf(),
            r@ == old(self).replication_manager.pending@,
            final(self).replication_manager.pending@.len() == 0,
    {
        self.replication_manager.drain_pending()
    }

    /// Frame every queued replication event onto the given channel: each
    /// is encoded to its byte image and handed to the channel's sender;
    /// the queue is drained. Returns how many the channel refused (an
    /// unknown channel refuses them all).
    pub fn buffer_replication_messages(&mut self, kind: ChannelKind) -> (refused: usize)
        requires
            old(self).wf(),
        ensures
            final(self).wf(),
            final(self).replication_manager.pending@.len() == 0,
            final(self).ping_manager == old(self).ping_manager,
            final(self).message_manager.channels@.len() == old(self).message_manager.channels@.len(),
            refused <= old(self).replication_manager.pending@.len(),
    {
        let mut events = self.replication_manager.drain_pending();
        let ghost total = events@.len();
        let event_count = events.len();
        proof {
            assert(total == event_count);
            assert(total <= usize::MAX);
        }
        let mut refused: usize = 0;
        let mut done: usize = 0;
        while events.len() > 0
            invariant
                self.wf(),
                refused <= done,
                done + events@.len() == total,
                total <= usize::MAX,
                self.replication_manager.pending@.len() == 0,
                self.ping_manager == old(self).ping_manager,
                self.message_manager.channels@.len() == old(self).message_manager.channels@.len(),
            decreases events@.len(),
        {
            let event = events.remove(0);
            let bytes = crate::replication::encode_replication(&event);
            let message = MessageContainer::new(bytes);
            if self.message_manager.buffer_send(kind, message).is_err() {
                refused += 1;
            }
            done += 1;
        }
        refused
    }
}

/// Why the server refused a request.
#[derive(Clone, Copy, Debug, PartialEq, Eq, Structural)]
pub enum ServerError {
    /// No connection under the given client id.
    UnknownClient,
    /// The connection's channel layer refused the message.
    Channel(ChannelError),
}

/// Whether every connected peer other than `id` has a despawn of
/// `entity` queued for replication.
pub open spec fn despawn_queued(conns: Seq<(u64, Connection)>, id: u64, entity: u64) -> bool {
    forall|j: int|
        0 <= j < conns.len() && (#[trigger] conns[j]).0 != id
            ==> conns[j].1.replication_manager.pending@.contains(
            crate::replication::ReplicationMessage::DespawnEntity { entity },
        )
}

/// The ownership records left once a peer departs: everyone else's.
pub open spec fn kept_owners(o: Seq<(u64, u64)>, id: u64) -> Seq<(u64, u64)>
    decreases o.len(),
{
    if o.len() == 0 {
        Seq::empty()
    } else {
        let rest = kept_owners(o.drop_first(), id);
        if o[0].1 == id {
            rest
        } else {
            seq![o[0]] + rest
        }
    }
}

/// `kept_owners` grows on the right one record at a time.
pub proof fn lemma_kept_owners_push(o: Seq<(u64, u64)>, x: (u64, u64), id: u64)
    ensures
        kept_owners(o.push(x), id) == kept_owners(o, id) + (if x.1 == id {
            Seq::<(u64, u64)>::empty()
        } else {
            seq![x]
        }),
    decreases o.len(),
{
    assert(kept_owners(Seq::<(u64, u64)>::empty(), id) == Seq::<(u64, u64)>::empty());
    if o.len() == 0 {
        assert(o.push(x).drop_first() =~= Seq::<(u64, u64)>::empty());
        assert(o.push(x)[0] == x);
        assert(kept_owners(o.push(x), id) =~= kept_owners(o, id) + (if x.1 == id {
            Seq::<(u64, u64)>::empty()
        } else {
            seq![x]
        }));
    } else {
        assert(o.push(x).drop_first() =~= o.drop_first().push(x));
        lemma_kept_owners_push(o.drop_first(), x, id);
        assert(o.push(x)[0] == o[0]);
        assert(kept_owners(o.push(x), id) =~= kept_owners(o, id) + (if x.1 == id {
            Seq::<(u64, u64)>::empty()
        } else {
            seq![x]
        }));
    }
}

/// One server: the authenticator context, the per-peer connections, and
/// which peer owns which replicated entity.
pub struct Server {
    pub context: ServerContext,
    pub registry: ChannelRegistry,
    pub user_connections: Vec<(u64, Connection)>,
    pub entity_owners: Vec<(u64, u64)>,
}

impl Server {
    /// Registry sound, peer ids unique, every connection well-formed.
    pub open spec fn wf(self) -> bool {
        &&& self.registry.wf()
        &&& forall|i: int, j: int|
            0 <= i < j < self.user_connections@.len() ==> self.user_connections@[i].0
                != self.user_connections@[j].0
        &&& forall|i: int|
            0 <= i < self.user_connections@.len() ==> (#[trigger] self.user_connections@[i]).1.wf()
    }

    /// Whether a peer id is connected.
    pub open spec fn has_peer(self, id: u64) -> bool {
        exists|i: int|
            0 <= i < self.user_connections@.len() && (#[trigger] self.user_connections@[i]).0 == id
    }

    /// A new server around a registry: builds the authenticator event
    /// queues and hands back the sending halves for the authenticator's
    /// connect and disconnect callbacks.
    pub fn new(registry: ChannelRegistry) -> (r: (
        Server,
        crossbeam_channel::Sender<u64>,
        crossbeam_channel::Sender<u64>,
    ))
        requires
            registry.wf(),
        ensures
            r.0.wf(),
            r.0.user_connections@.len() == 0,
    {
        let (connections_tx, connections_rx) = unbounded_events();
        let (disconnections_tx, disconnections_rx) = unbounded_events();
        let server = Server {
            context: ServerContext {
                connections: connections_rx,
                disconnections: disconnections_rx,
            },
            registry,
            user_connections: Vec::new(),
            entity_owners: Vec::new(),
        };
        (server, connections_tx, disconnections_tx)
    }

    /// Find a peer's index.
    fn find_peer(&self, id: u64) -> (r: Option<usize>)
        ensures
            match r {
                Some(i) => i < self.user_connections@.len() && self.user_connections@[i as int].0
                    == id,
                None => !self.has_peer(id),
            },
    {
        let n = self.user_connections.len();
        let mut i: usize = 0;
        while i < n
            invariant
                n == self.user_connections@.len(),
                i <= n,
                forall|j: int| 0 <= j < i ==> (#[trigger] self.user_connections@[j]).0 != id,
            decreases n - i,
        {
            if self.user_connections[i].0 == id {
                return Some(i);
            }
            i += 1;
        }
        None
    }

    /// The connected client ids, in connection order.
    pub fn client_ids(&self) -> (r: Vec<u64>)
        ensures
            r@ == self.user_connections@.map_values(|e: (u64, Connection)| e.0),
    {
        let n = self.user_connections.len();
        let mut r: Vec<u64> = Vec::new();
        let mut i: usize = 0;
        while i < n
            invariant
                n == self.user_connections@.len(),
                i <= n,
                r@ == self.user_connections@.map_values(|e: (u64, Connection)| e.0).take(i as int),
            decreases n - i,
        {
            r.push(self.user_connections[i].0);
            proof {
                assert(r@ =~= self.user_connections@.map_values(|e: (u64, Connection)| e.0).take(
                    i + 1,
                ));
            }
            i += 1;
        }
        proof {
            assert(self.user_connections@.map_values(|e: (u64, Connection)| e.0).take(n as int)
                =~= self.user_connections@.map_values(|e: (u64, Connection)| e.0));
        }
        r
    }

    /// Handle a batch of connect events: every listed peer has a
    /// connection afterwards (a fresh one if it was new), and nobody
    /// already connected is touched.
    #[verifier::loop_isolation(false)]
    pub fn process_connections(&mut self, ids: Vec<u64>, initial_rtt_millis: u64)
        requires
            old(self).wf(),
        ensures
            final(self).wf(),
            forall|t: int| 0 <= t < ids@.len() ==> final(self).has_peer(#[trigger] ids@[t]),
            forall|id: u64| old(self).has_peer(id) ==> final(self).has_peer(id),
            forall|id: u64|
                final(self).has_peer(id) ==> old(self).has_peer(id) || ids@.contains(id),
            final(self).registry == old(self).registry,
            final(self).entity_owners == old(self).entity_owners,
    {
        let n = ids.len();
        let mut t: usize = 0;
        while t < n
            invariant
                self.wf(),
                n == ids@.len(),
                t <= n,
                forall|q: int| 0 <= q < t ==> self.has_peer(#[trigger] ids@[q]),
                forall|id: u64| old(self).has_peer(id) ==> self.has_peer(id),
                forall|id: u64| self.has_peer(id) ==> old(self).has_peer(id) || ids@.contains(id),
                self.registry == old(self).registry,
                self.entity_owners == old(self).entity_owners,
            decreases n - t,
        {
            let id = ids[t];
            let ghost mid = *self;
            match self.find_peer(id) {
                Some(idx) => {
                    proof {
                        assert(self.user_connections@[idx as int].0 == id);
                        assert(self.has_peer(id));
                    }
                },
                None => {
                    let ghost pre = self.user_connections@;
                    let conn = Connection::new(&self.registry, initial_rtt_millis);
                    self.user_connections.push((id, conn));
                    proof {
                        assert(ids@.contains(ids@[t as int]));
                        assert(self.user_connections@.last().0 == id);
                        assert(self.has_peer(id));
                        assert forall|q: u64| mid.has_peer(q) implies self.has_peer(q) by {
                            let i = choose|i: int|
                                0 <= i < pre.len() && (#[trigger] pre[i]).0 == q;
                            assert(self.user_connections@[i].0 == q);
                        }
                        assert forall|q: int| 0 <= q < t implies self.has_peer(
                            #[trigger] ids@[q],
                        ) by {
                            assert(mid.has_peer(ids@[q]));
                        }
                        assert forall|id2: u64| self.has_peer(id2) implies mid.has_peer(id2)
                            || ids@.contains(id2) by {
                            let w = choose|w: int|
                                0 <= w < self.user_connections@.len() && (
                                #[trigger] self.user_connections@[w]).0 == id2;
                            if w < pre.len() {
                                assert(pre[w].0 == id2);
                            } else {
                                assert(id2 == id);
                            }
                        }
                    }
                },
            }
            t += 1;
        }
    }

    /// Handle a batch of disconnect events: every listed peer's
    /// connection is gone afterwards, its entities' despawns are queued
    /// to every remaining peer, and its ownership records are dropped.
    #[verifier::loop_isolation(false)]
    pub fn process_disconnections(&mut self, ids: Vec<u64>)
        requires
            old(self).wf(),
        ensures
            final(self).wf(),
            forall|t: int| 0 <= t < ids@.len() ==> !final(self).has_peer(#[trigger] ids@[t]),
            forall|id: u64|
                final(self).has_peer(id) ==> old(self).has_peer(id) && !ids@.contains(id),
            final(self).registry == old(self).registry,
    {
        let n = ids.len();
        let mut t: usize = 0;
        while t < n
            invariant
                self.wf(),
                n == ids@.len(),
                t <= n,
                forall|q: int| 0 <= q < t ==> !self.has_peer(#[trigger] ids@[q]),
                forall|id: u64| self.has_peer(id) ==> old(self).has_peer(id) && !ids@.take(
                    t as int,
                ).contains(id),
                self.registry == old(self).registry,
            decreases n - t,
        {
            let id = ids[t];
            self.disconnect_peer(id);
            proof {
                assert forall|q: int| 0 <= q < t + 1 implies !self.has_peer(#[trigger] ids@[q]) by {
                    if q < t {
                        assert(!ids@.take(t + 1).contains(ids@[q]) || true);
                    }
                }
                assert forall|id2: u64| self.has_peer(id2) implies old(self).has_peer(id2)
                    && !ids@.take(t + 1).contains(id2) by {
                    if ids@.take(t + 1).contains(id2) {
                        let w = choose|w: int| 0 <= w < t + 1 && #[trigger] ids@.take(t + 1)[w] == id2;
                        if w < t {
                            assert(ids@.take(t as int).contains(id2));
                        }
                    }
                }
            }
            t += 1;
        }
        proof {
            assert forall|id2: u64| self.has_peer(id2) implies !ids@.contains(id2) by {
                if ids@.contains(id2) {
                    let w = choose|w: int| 0 <= w < ids@.len() && #[trigger] ids@[w] == id2;
                    assert(ids@.take(n as int)[w] == id2);
                    assert(ids@.take(n as int).contains(id2));
                }
            }
        }
    }

    /// Tear down one peer (one disconnect event): queue despawns of its
    /// entities to everyone
    /// else, drop its connection, and forget its ownership records.
    #[verifier::loop_isolation(false)]
    pub fn disconnect_peer(&mut self, id: u64)
        requires
            old(self).wf(),
        ensures
            final(self).wf(),
            !final(self).has_peer(id),
            forall|q: u64| final(self).has_peer(q) ==> old(self).has_peer(q),
            forall|q: u64| old(self).has_peer(q) && q != id ==> final(self).has_peer(q),
            final(self).registry == old(self).registry,
            final(self).entity_owners@ == kept_owners(old(self).entity_owners@, id),
            forall|k: int|
                0 <= k < old(self).entity_owners@.len() && (#[trigger] old(self).entity_owners@[
                    k
                ]).1 == id ==> despawn_queued(
                    final(self).user_connections@,
                    id,
                    old(self).entity_owners@[k].0,
                ),
    {
        // queue a despawn of every entity the peer owns to every other peer
        let mut owned: Vec<u64> = Vec::new();
        let no = self.entity_owners.len();
        let mut i: usize = 0;
        while i < no
            invariant
                no == self.entity_owners@.len(),
                i <= no,
                *self == *old(self),
                forall|k: int|
                    0 <= k < i && (#[trigger] self.entity_owners@[k]).1 == id
                        ==> owned@.contains(self.entity_owners@[k].0),
            decreases no - i,
        {
            if self.entity_owners[i].1 == id {
                let ghost ow0 = owned@;
                owned.push(self.entity_owners[i].0);
                proof {
                    assert(owned@[ow0.len() as int] == self.entity_owners@[i as int].0);
                    assert forall|k: int|
                        0 <= k < i + 1 && (#[trigger] self.entity_owners@[k]).1 == id
                            implies owned@.contains(self.entity_owners@[k].0) by {
                        if k < i {
                            let w = choose|w: int|
                                0 <= w < ow0.len() && ow0[w] == self.entity_owners@[k].0;
                            assert(owned@[w] == self.entity_owners@[k].0);
                        }
                    }
                }
            }
            i += 1;
        }
        let ne = owned.len();
        let mut e: usize = 0;
        while e < ne
            invariant
                self.wf(),
                ne == owned@.len(),
                e <= ne,
                self.user_connections@.len() == old(self).user_connections@.len(),
                forall|j: int|
                    0 <= j < self.user_connections@.len() ==> (
                    #[trigger] self.user_connections@[j]).0 == old(self).user_connections@[j].0,
                forall|k: int|
                    0 <= k < e ==> despawn_queued(self.user_connections@, id, #[trigger] owned@[k]),
                self.registry == old(self).registry,
                self.entity_owners == old(self).entity_owners,
            decreases ne - e,
        {
            let entity = owned[e];
            let np = self.user_connections.len();
            let mut p: usize = 0;
            while p < np
                invariant
                    self.wf(),
                    np == self.user_connections@.len(),
                    p <= np,
                    e < ne,
                    entity == owned@[e as int],
                    self.user_connections@.len() == old(self).user_connections@.len(),
                    forall|j: int|
                        0 <= j < self.user_connections@.len() ==> (
                        #[trigger] self.user_connections@[j]).0 == old(self).user_connections@[j].0,
                    forall|k: int|
                        0 <= k < e ==> despawn_queued(
                            self.user_connections@,
                            id,
                            #[trigger] owned@[k],
                        ),
                    forall|j: int|
                        0 <= j < p && (#[trigger] self.user_connections@[j]).0 != id
                            ==> self.user_connections@[j].1.replication_manager.pending@.contains(
                            crate::replication::ReplicationMessage::DespawnEntity { entity },
                        ),
                    self.registry == old(self).registry,
                    self.entity_owners == old(self).entity_owners,
                decreases np - p,
            {
                if self.user_connections[p].0 != id {
                    let ghost pre = self.user_connections@;
                    let entry = &mut self.user_connections[p];
                    entry.1.replication_manager.buffer_despawn_entity(entity);
                    proof {
                        assert forall|j: int|
                            0 <= j < self.user_connections@.len() implies (
                        #[trigger] self.user_connections@[j]).1.wf() && self.user_connections@[
                            j
                        ].0 == pre[j].0 by {
                            if j != p {
                                assert(self.user_connections@[j] == pre[j]);
                            }
                        }
                        let q0 = pre[p as int].1.replication_manager.pending@;
                        let q1 = self.user_connections@[p as int].1.replication_manager.pending@;
                        assert(q1.take(q0.len() as int) == q0);
                        assert forall|m: crate::replication::ReplicationMessage| q0.contains(
                            m,
                        ) implies q1.contains(m) by {
                            let w = choose|w: int| 0 <= w < q0.len() && q0[w] == m;
                            assert(q1.take(q0.len() as int)[w] == m);
                            assert(q1[w] == m);
                        }
                        assert(q1[q0.len() as int] == (
                        crate::replication::ReplicationMessage::DespawnEntity { entity }));
                        assert(q1.contains(
                            crate::replication::ReplicationMessage::DespawnEntity { entity },
                        ));
                    }
                }
                p += 1;
            }
            e += 1;
        }
        // forget the peer's ownership records
        let ghost owners0 = self.entity_owners@;
        let mut keep: Vec<(u64, u64)> = Vec::new();
        let mut owners: Vec<(u64, u64)> = Vec::new();
        core::mem::swap(&mut owners, &mut self.entity_owners);
        let nk = owners.len();
        let mut k: usize = 0;
        proof {
            assert(owners0.take(0) =~= Seq::<(u64, u64)>::empty());
            assert(kept_owners(Seq::<(u64, u64)>::empty(), id) == Seq::<(u64, u64)>::empty());
        }
        while k < nk
            invariant
                nk == owners@.len(),
                owners@ == owners0,
                k <= nk,
                keep@ == kept_owners(owners0.take(k as int), id),
            decreases nk - k,
        {
            proof {
                assert(owners0.take(k + 1) =~= owners0.take(k as int).push(owners0[k as int]));
                lemma_kept_owners_push(owners0.take(k as int), owners0[k as int], id);
            }
            if owners[k].1 != id {
                keep.push((owners[k].0, owners[k].1));
                proof {
                    assert(keep@ =~= kept_owners(owners0.take(k + 1), id));
                }
            } else {
                proof {
                    assert(keep@ =~= kept_owners(owners0.take(k + 1), id));
                }
            }
            k += 1;
        }
        proof {
            assert(owners0.take(nk as int) =~= owners0);
        }
        self.entity_owners = keep;
        // drop the connection itself
        match self.find_peer(id) {
            Some(idx) => {
                let ghost pre = self.user_connections@;
                self.user_connections.remove(idx);
                proof {
                    assert(forall|j: int|
                        0 <= j < idx ==> #[trigger] self.user_connections@[j] == pre[j]);
                    assert(forall|j: int|
                        idx <= j < self.user_connections@.len()
                            ==> #[trigger] self.user_connections@[j] == pre[j + 1]);
                    assert forall|a: int, b: int|
                        0 <= a < b < self.user_connections@.len() implies self.user_connections@[
                        a
                    ].0 != self.user_connections@[b].0 by {
                        if b < idx {
                        } else if a < idx {
                            assert(self.user_connections@[a] == pre[a]);
                            assert(self.user_connections@[b] == pre[b + 1]);
                        } else {
                            assert(self.user_connections@[a] == pre[a + 1]);
                            assert(self.user_connections@[b] == pre[b + 1]);
                        }
                    }
                    assert forall|j: int|
                        0 <= j < self.user_connections@.len() implies (
                    #[trigger] self.user_connections@[j]).1.wf() by {
                        if j < idx {
                            assert(self.user_connections@[j] == pre[j]);
                        } else {
                            assert(self.user_connections@[j] == pre[j + 1]);
                        }
                    }
                    assert(pre.len() == old(self).user_connections@.len());
                    assert(forall|j: int|
                        0 <= j < pre.len() ==> (#[trigger] pre[j]).0 == old(self).user_connections@[j].0);
                    assert forall|q: u64| self.has_peer(q) implies old(self).has_peer(q) by {
                        let w = choose|w: int|
                            0 <= w < self.user_connections@.len() && (
                            #[trigger] self.user_connections@[w]).0 == q;
                        if w < idx {
                            assert(pre[w].0 == q);
                            assert(old(self).user_connections@[w].0 == q);
                        } else {
                            assert(pre[w + 1].0 == q);
                            assert(old(self).user_connections@[w + 1].0 == q);
                        }
                    }
                    assert forall|q: u64| old(self).has_peer(q) && q != id implies self.has_peer(
                        q,
                    ) by {
                        let w = choose|w: int|
                            0 <= w < old(self).user_connections@.len() && (#[trigger] old(self).user_connections@[w]).0 == q;
                        assert(pre[w].0 == q);
                        if w < idx {
                            assert(self.user_connections@[w].0 == q);
                        } else if w > idx {
                            assert(self.user_connections@[w - 1].0 == q);
                        } else {
                            assert(pre[idx as int].0 == id);
                        }
                    }
                    if self.has_peer(id) {
                        let w = choose|w: int|
                            0 <= w < self.user_connections@.len() && (
                            #[trigger] self.user_connections@[w]).0 == id;
                        if w < idx {
                            assert(pre[w].0 == id);
                            assert(pre[idx as int].0 == id);
                        } else {
                            assert(pre[w + 1].0 == id);
                            assert(pre[idx as int].0 == id);
                        }
                        assert(false);
                    }
                }
            },
            None => {
                proof {
                    assert(self.user_connections@.len() == old(self).user_connections@.len());
                    assert forall|q: u64| old(self).has_peer(q) implies self.has_peer(q) by {
                        let w = choose|w: int|
                            0 <= w < old(self).user_connections@.len() && (#[trigger] old(self).user_connections@[w]).0 == q;
                        assert(self.user_connections@[w].0 == q);
                    }
                    assert forall|q: u64| self.has_peer(q) implies old(self).has_peer(q) by {
                        let w = choose|w: int|
                            0 <= w < self.user_connections@.len() && (
                            #[trigger] self.user_connections@[w]).0 == q;
                        assert(old(self).user_connections@[w].0 == q);
                    }
                }
            },
        }
    }

    /// Record which peer an entity belongs to, so its despawn fans out
    /// when that peer leaves.
    pub fn register_entity_owner(&mut self, entity: u64, client_id: u64)
        requires
            old(self).wf(),
        ensures
            final(self).wf(),
            final(self).entity_owners@ == old(self).entity_owners@.push((entity, client_id)),
            final(self).user_connections == old(self).user_connections,
    {
        self.entity_owners.push((entity, client_id));
    }

    /// Drain the authenticator's queues and apply them, connects first,
    /// then disconnects; the peer table and every connection stay sound
    /// whatever the queues held.
    pub fn update(&mut self, initial_rtt_millis: u64)
        requires
            old(self).wf(),
        ensures
            final(self).wf(),
            final(self).registry == old(self).registry,
    {
        let connects = drain_peer_events(&self.context.connections);
        self.process_connections(connects, initial_rtt_millis);
        let disconnects = drain_peer_events(&self.context.disconnections);
        self.process_disconnections(disconnects);
    }

    /// Queue a spawn of `entity` for exactly the peers the target
    /// names: all of them, all but one, or a single one.
    #[verifier::loop_isolation(false)]
    pub fn entity_spawn(&mut self, entity: u64, replicate: &Replicate)
        requires
            old(self).wf(),
        ensures
            final(self).wf(),
            final(self).user_connections@.len() == old(self).user_connections@.len(),
            forall|i: int|
                0 <= i < final(self).user_connections@.len() ==> (
                #[trigger] final(self).user_connections@[i]).0 == old(self).user_connections@[i].0,
            forall|i: int|
                0 <= i < final(self).user_connections@.len() ==> (if targeted(
                    replicate.target,
                    old(self).user_connections@[i].0,
                ) {
                    &&& (#[trigger] final(self).user_connections@[i]).1.replication_manager.pending@.len() == old(self).user_connections@[i].1.replication_manager.pending@.len() + 1
                    &&& final(self).user_connections@[i].1.replication_manager.pending@.last()
                        matches crate::replication::ReplicationMessage::SpawnEntity {
                        entity: e,
                    } && e == entity
                    &&& final(self).user_connections@[i].1.replication_manager.pending@.take(
                        old(self).user_connections@[i].1.replication_manager.pending@.len() as int,
                    ) == old(self).user_connections@[i].1.replication_manager.pending@
                } else {
                    (#[trigger] final(self).user_connections@[i]).1.replication_manager.pending
                        == old(self).user_connections@[i].1.replication_manager.pending
                }),
            final(self).registry == old(self).registry,
            final(self).entity_owners == old(self).entity_owners,
    {
        let n = self.user_connections.len();
        let mut i: usize = 0;
        while i < n
            invariant
                self.wf(),
                n == self.user_connections@.len(),
                i <= n,
                self.user_connections@.len() == old(self).user_connections@.len(),
                forall|j: int|
                    0 <= j < n ==> (#[trigger] self.user_connections@[j]).0 == old(self).user_connections@[j].0,
                forall|j: int| i <= j < n ==> #[trigger] self.user_connections@[j] == old(self).user_connections@[j],
                forall|j: int|
                    0 <= j < i ==> (if targeted(
                        replicate.target,
                        old(self).user_connections@[j].0,
                    ) {
                        &&& (#[trigger] self.user_connections@[
                            j
                        ]).1.replication_manager.pending@.len() == old(self).user_connections@[j].1.replication_manager.pending@.len() + 1
                        &&& self.user_connections@[j].1.replication_manager.pending@.last()
                            matches crate::replication::ReplicationMessage::SpawnEntity {
                            entity: e,
                        } && e == entity
                        &&& self.user_connections@[j].1.replication_manager.pending@.take(
                            old(self).user_connections@[j].1.replication_manager.pending@.len() as int,
                        ) == old(self).user_connections@[j].1.replication_manager.pending@
                    } else {
                        (#[trigger] self.user_connections@[j]).1.replication_manager.pending
                            == old(self).user_connections@[j].1.replication_manager.pending
                    }),
                self.registry == old(self).registry,
                self.entity_owners == old(self).entity_owners,
            decreases n - i,
        {
            let peer = self.user_connections[i].0;
            let is_target: bool = match &replicate.target {
                ReplicationTarget::All => true,
                ReplicationTarget::AllExcept(c) => peer != *c,
                ReplicationTarget::Only(c) => peer == *c,
            };
            if is_target {
                let ghost pre = self.user_connections@;
                let entry = &mut self.user_connections[i];
                entry.1.replication_manager.buffer_spawn_entity(entity);
                proof {
                    assert forall|j: int|
                        0 <= j < self.user_connections@.len() implies (
                    #[trigger] self.user_connections@[j]).1.wf() by {
                        if j != i {
                            assert(self.user_connections@[j] == pre[j]);
                        }
                    }
                    assert(forall|j: int|
                        0 <= j < self.user_connections@.len() && j != i
                            ==> #[trigger] self.user_connections@[j] == pre[j]);
                }
            }
            i += 1;
        }
    }

    /// Queue a message to one client on one channel: refused for an
    /// unknown client or a channel that cannot take it, and then nothing
    /// changes; accepted exactly otherwise, and then only that client's
    /// connection gains the message, by its channel sender's relation.
    pub fn buffer_send(&mut self, client_id: u64, kind: ChannelKind, message: MessageContainer)
        -> (r: Result<(), ServerError>)
        requires
            old(self).wf(),
            message.id is None,
            message.fragment is None,
        ensures
            final(self).wf(),
            r matches Err(ServerError::UnknownClient) <==> !old(self).has_peer(client_id),
            r is Err ==> final(self).user_connections@ == old(self).user_connections@,
            final(self).registry == old(self).registry,
            final(self).entity_owners == old(self).entity_owners,
            r is Ok ==> exists|p: int|
                {
                    &&& 0 <= p < old(self).user_connections@.len()
                    &&& (#[trigger] old(self).user_connections@[p]).0 == client_id
                    &&& (exists|c: int|
                        {
                            &&& 0 <= c < old(self).user_connections@[p].1.message_manager.channels@.len()
                            &&& (#[trigger] old(self).user_connections@[p].1.message_manager.channels@[c]).kind.0 == kind.0
                            &&& <crate::senders::ChannelSender as crate::senders::ChannelSend>::buffer_rel(
                                old(self).user_connections@[p].1.message_manager.channels@[c].sender,
                                final(self).user_connections@[p].1.message_manager.channels@[c].sender,
                                message,
                            )
                        })
                    &&& (forall|t: int|
                        0 <= t < old(self).user_connections@.len() && t != p
                            ==> #[trigger] final(self).user_connections@[t] == old(self).user_connections@[t])
                },
    {
        let idx = match self.find_peer(client_id) {
            Some(i) => i,
            None => {
                return Err(ServerError::UnknownClient);
            },
        };
        proof {
            assert(old(self).has_peer(client_id));
        }
        let ghost pre = self.user_connections@;
        let entry = &mut self.user_connections[idx];
        let res = entry.1.message_manager.buffer_send(kind, message);
        proof {
            assert forall|j: int|
                0 <= j < self.user_connections@.len() implies (
            #[trigger] self.user_connections@[j]).1.wf() && self.user_connections@[j].0 == pre[
                j
            ].0 by {
                if j != idx {
                    assert(self.user_connections@[j] == pre[j]);
                }
            }
        }
        proof {
            assert(pre[idx as int].0 == client_id);
            assert(forall|t: int|
                0 <= t < pre.len() && t != idx ==> #[trigger] self.user_connections@[t] == pre[t]);
            if res is Err {
                assert(self.user_connections@[idx as int].1.message_manager == pre[
                    idx as int
                ].1.message_manager);
                assert(self.user_connections@ =~= pre);
            }
        }
        match res {
            Ok(_) => Ok(()),
            Err(e) => Err(ServerError::Channel(e)),
        }
    }

    /// The messages ready for the application from one client: exactly
    /// what that client's channel receivers had released, one entry per
    /// channel under its identity, drained by the call; other clients
    /// are untouched. An unknown client yields nothing and changes
    /// nothing.
    pub fn read_messages(&mut self, client_id: u64) -> (r: Vec<(u64, Vec<MessageContainer>)>)
        requires
            old(self).wf(),
        ensures
            final(self).wf(),
            !old(self).has_peer(client_id) ==> r@.len() == 0 && *final(self) == *old(self),
            final(self).registry == old(self).registry,
            final(self).entity_owners == old(self).entity_owners,
            old(self).has_peer(client_id) ==> exists|p: int|
                {
                    &&& 0 <= p < old(self).user_connections@.len()
                    &&& (#[trigger] old(self).user_connections@[p]).0 == client_id
                    &&& r@.len() == old(self).user_connections@[p].1.message_manager.channels@.len()
                    &&& (forall|i: int|
                        0 <= i < r@.len() ==> (#[trigger] r@[i]).0 == old(self).user_connections@[p].1.message_manager.channels@[i].kind.0
                            && crate::message::mcs_view(r@[i].1@) == old(self).user_connections@[p].1.message_manager.channels@[i].receiver.pending_msgs())
                    &&& (forall|i: int|
                        0 <= i < final(self).user_connections@[p].1.message_manager.channels@.len()
                            ==> (#[trigger] final(self).user_connections@[p].1.message_manager.channels@[i]).receiver.pending_msgs()
                            == Seq::<crate::packet::WireMessageView>::empty())
                    &&& (forall|t: int|
                        0 <= t < old(self).user_connections@.len() && t != p
                            ==> #[trigger] final(self).user_connections@[t] == old(self).user_connections@[t])
                },
    {
        let idx = match self.find_peer(client_id) {
            Some(i) => i,
            None => {
                return Vec::new();
            },
        };
        let ghost pre = self.user_connections@;
        let entry = &mut self.user_connections[idx];
        let out = entry.1.message_manager.read_messages();
        proof {
            assert forall|j: int|
                0 <= j < self.user_connections@.len() implies (
            #[trigger] self.user_connections@[j]).1.wf() && self.user_connections@[j].0 == pre[
                j
            ].0 by {
                if j != idx {
                    assert(self.user_connections@[j] == pre[j]);
                }
            }
            assert(pre[idx as int].0 == client_id);
            assert(forall|t: int|
                0 <= t < pre.len() && t != idx ==> #[trigger] self.user_connections@[t] == pre[t]);
        }
        out
    }

    /// Frame every connection's queued messages: the datagrams to hand
    /// to the transport, each within the MTU, each parsing back as a
    /// packet, each tagged with a connected peer's id; afterwards no
    /// sender of any connection holds collected messages.
    #[verifier::loop_isolation(false)]
    pub fn send_packets(&mut self, tick: u16) -> (r: Vec<(u64, Vec<u8>)>)
        requires
            old(self).wf(),
        ensures
            final(self).wf(),
            forall|t: int| 0 <= t < r@.len() ==> (#[trigger] r@[t]).1@.len() <= MTU,
            forall|t: int|
                0 <= t < r@.len() ==> crate::packet::parse_packet((#[trigger] r@[t]).1@) is Some,
            forall|t: int| 0 <= t < r@.len() ==> old(self).has_peer((#[trigger] r@[t]).0),
            forall|p: int|
                0 <= p < final(self).user_connections@.len() ==> (forall|j: int|
                    0 <= j < (#[trigger] final(self).user_connections@[p]).1.message_manager.channels@.len()
                        ==> crate::message_manager::sender_queue_len(
                        (#[trigger] final(self).user_connections@[p].1.message_manager.channels@[j]).sender,
                    ) == 0),
            final(self).registry == old(self).registry,
            final(self).entity_owners == old(self).entity_owners,
    {
        let mut out: Vec<(u64, Vec<u8>)> = Vec::new();
        let n = self.user_connections.len();
        let mut i: usize = 0;
        while i < n
            invariant
                self.wf(),
                n == self.user_connections@.len(),
                i <= n,
                self.user_connections@.len() == old(self).user_connections@.len(),
                forall|j: int|
                    0 <= j < n ==> (#[trigger] self.user_connections@[j]).0 == old(self).user_connections@[j].0,
                forall|t: int| 0 <= t < out@.len() ==> (#[trigger] out@[t]).1@.len() <= MTU,
                forall|t: int|
                    0 <= t < out@.len() ==> crate::packet::parse_packet(
                        (#[trigger] out@[t]).1@,
                    ) is Some,
                forall|t: int| 0 <= t < out@.len() ==> old(self).has_peer((#[trigger] out@[t]).0),
                forall|p: int|
                    0 <= p < i ==> (forall|j: int|
                        0 <= j < (#[trigger] self.user_connections@[p]).1.message_manager.channels@.len()
                            ==> crate::message_manager::sender_queue_len(
                            (#[trigger] self.user_connections@[p].1.message_manager.channels@[
                                j
                            ]).sender,
                        ) == 0),
                self.registry == old(self).registry,
                self.entity_owners == old(self).entity_owners,
            decreases n - i,
        {
            let peer = self.user_connections[i].0;
            proof {
                assert(old(self).user_connections@[i as int].0 == peer);
                assert(old(self).has_peer(peer));
            }
            let ghost pre = self.user_connections@;
            let entry = &mut self.user_connections[i];
            let mut datagrams = entry.1.message_manager.send_packets(tick);
            proof {
                assert forall|j: int|
                    0 <= j < self.user_connections@.len() implies (
                #[trigger] self.user_connections@[j]).1.wf() && self.user_connections@[j].0
                    == pre[j].0 by {
                    if j != i {
                        assert(self.user_connections@[j] == pre[j]);
                    }
                }
                assert(forall|p: int|
                    0 <= p < i ==> #[trigger] self.user_connections@[p] == pre[p]);
            }
            while datagrams.len() > 0
                invariant
                    forall|t: int| 0 <= t < out@.len() ==> (#[trigger] out@[t]).1@.len() <= MTU,
                    forall|t: int|
                        0 <= t < out@.len() ==> crate::packet::parse_packet(
                            (#[trigger] out@[t]).1@,
                        ) is Some,
                    forall|t: int|
                        0 <= t < out@.len() ==> old(self).has_peer((#[trigger] out@[t]).0),
                    old(self).has_peer(peer),
                    forall|t: int|
                        0 <= t < datagrams@.len() ==> (#[trigger] datagrams@[t])@.len() <= MTU,
                    forall|t: int|
                        0 <= t < datagrams@.len() ==> crate::packet::parse_packet(
                            (#[trigger] datagrams@[t])@,
                        ) is Some,
                decreases datagrams@.len(),
            {
                let ghost dpre = datagrams@;
                let d = datagrams.remove(0);
                proof {
                    assert(d == dpre[0]);
                    assert(forall|t: int|
                        0 <= t < datagrams@.len() ==> #[trigger] datagrams@[t] == dpre[t + 1]);
                }
                out.push((peer, d));
            }
            i += 1;
        }
        out
    }

    /// Route a batch of received datagrams to their connections by peer
    /// id, in order: each datagram from a connected peer is taken in by
    /// that peer's connection (a parseable one has its packet id on the
    /// connection's received record afterwards); datagrams from unknown
    /// peers, and malformed ones, are dropped. The peer set itself never
    /// changes here.
    #[verifier::loop_isolation(false)]
    pub fn recv_packets(&mut self, packets: Vec<(u64, Vec<u8>)>)
        requires
            old(self).wf(),
        ensures
            final(self).wf(),
            final(self).user_connections@.len() == old(self).user_connections@.len(),
            forall|j: int|
                0 <= j < final(self).user_connections@.len() ==> (#[trigger] final(self).user_connections@[j]).0 == old(self).user_connections@[j].0,
            forall|t: int|
                0 <= t < packets@.len() && old(self).has_peer((#[trigger] packets@[t]).0)
                    && crate::packet::parse_packet(packets@[t].1@) is Some ==> (exists|p: int|
                    0 <= p < final(self).user_connections@.len() && (#[trigger] final(self).user_connections@[p]).0 == packets@[t].0 && final(self).user_connections@[p].1.message_manager.packet_manager.received_history@.contains(
                        (crate::packet::parse_packet(packets@[t].1@)->0).packet_id,
                    )),
            final(self).registry == old(self).registry,
            final(self).entity_owners == old(self).entity_owners,
    {
        let ghost all = packets@;
        proof {
            assert(all.len() == packets@.len());
        }
        let plen = packets.len();
        proof {
            assert(all.len() <= usize::MAX);
        }
        let mut packets = packets;
        let mut done: usize = 0;
        while packets.len() > 0
            invariant
                self.wf(),
                all.len() <= usize::MAX,
                done + packets@.len() == all.len(),
                packets@ == all.skip(done as int),
                self.user_connections@.len() == old(self).user_connections@.len(),
                forall|j: int|
                    0 <= j < self.user_connections@.len() ==> (
                    #[trigger] self.user_connections@[j]).0 == old(self).user_connections@[j].0,
                forall|t: int|
                    0 <= t < done && old(self).has_peer((#[trigger] all[t]).0)
                        && crate::packet::parse_packet(all[t].1@) is Some ==> (exists|p: int|
                        0 <= p < self.user_connections@.len() && (
                        #[trigger] self.user_connections@[p]).0 == all[t].0
                            && self.user_connections@[p].1.message_manager.packet_manager.received_history@.contains(
                            (crate::packet::parse_packet(all[t].1@)->0).packet_id,
                        )),
                self.registry == old(self).registry,
                self.entity_owners == old(self).entity_owners,
            decreases packets@.len(),
        {
            let ghost here = all[done as int];
            let ghost conns0 = self.user_connections@;
            let (peer, bytes) = packets.remove(0);
            proof {
                assert(packets@ =~= all.skip(done + 1));
                assert(peer == here.0 && bytes@ == here.1@);
            }
            match self.find_peer(peer) {
                Some(idx) => {
                    let entry = &mut self.user_connections[idx];
                    let r = entry.1.message_manager.recv_packet(&bytes);
                    proof {
                        assert forall|j: int|
                            0 <= j < self.user_connections@.len() implies (
                        #[trigger] self.user_connections@[j]).1.wf() && self.user_connections@[
                            j
                        ].0 == conns0[j].0 by {
                            if j != idx {
                                assert(self.user_connections@[j] == conns0[j]);
                            }
                        }
                        assert forall|t: int|
                            0 <= t < done + 1 && old(self).has_peer((#[trigger] all[t]).0)
                                && crate::packet::parse_packet(all[t].1@) is Some implies (exists|p: int|
                            0 <= p < self.user_connections@.len() && (
                            #[trigger] self.user_connections@[p]).0 == all[t].0
                                && self.user_connections@[
                                p
                            ].1.message_manager.packet_manager.received_history@.contains(
                                (crate::packet::parse_packet(all[t].1@)->0).packet_id,
                            )) by {
                            let pid = (crate::packet::parse_packet(all[t].1@)->0).packet_id;
                            if t < done {
                                let p = choose|p: int|
                                    0 <= p < conns0.len() && (#[trigger] conns0[p]).0 == all[t].0
                                        && conns0[
                                        p
                                    ].1.message_manager.packet_manager.received_history@.contains(
                                        pid,
                                    );
                                if p == idx {
                                    let h0 = conns0[
                                        idx as int
                                    ].1.message_manager.packet_manager.received_history@;
                                    let h1 = self.user_connections@[
                                        idx as int
                                    ].1.message_manager.packet_manager.received_history@;
                                    let hpid = (crate::packet::parse_packet(
                                        here.1@,
                                    )->0).packet_id;
                                    if crate::packet::parse_packet(here.1@) is Some {
                                        if h0.contains(hpid) {
                                            assert(h1 == h0);
                                        } else {
                                            assert(h1 == h0.push(hpid));
                                            let w = choose|w: int|
                                                0 <= w < h0.len() && h0[w] == pid;
                                            assert(h1[w] == pid);
                                        }
                                    } else {
                                        assert(h1 == h0);
                                    }
                                    assert(h1.contains(pid));
                                    assert(self.user_connections@[p].0 == all[t].0);
                                } else {
                                    assert(self.user_connections@[p] == conns0[p]);
                                }
                            } else {
                                assert(all[t] == here);
                                assert(conns0[idx as int].0 == here.0);
                                let h0 = conns0[
                                    idx as int
                                ].1.message_manager.packet_manager.received_history@;
                                let h1 = self.user_connections@[
                                    idx as int
                                ].1.message_manager.packet_manager.received_history@;
                                if h0.contains(pid) {
                                    assert(h1 == h0);
                                } else {
                                    assert(h1 == h0.push(pid));
                                    assert(h1[h0.len() as int] == pid);
                                }
                                assert(h1.contains(pid));
                            }
                        }
                    }
                },
                None => {
                    proof {
                        if old(self).has_peer(here.0) {
                            let w = choose|w: int|
                                0 <= w < old(self).user_connections@.len() && (#[trigger] old(self).user_connections@[w]).0 == here.0;
                            assert(self.user_connections@[w].0 == here.0);
                            assert(false);
                        }
                        assert forall|t: int|
                            0 <= t < done + 1 && old(self).has_peer((#[trigger] all[t]).0)
                                && crate::packet::parse_packet(all[t].1@) is Some implies (exists|p: int|
                            0 <= p < self.user_connections@.len() && (
                            #[trigger] self.user_connections@[p]).0 == all[t].0
                                && self.user_connections@[
                                p
                            ].1.message_manager.packet_manager.received_history@.contains(
                                (crate::packet::parse_packet(all[t].1@)->0).packet_id,
                            )) by {
                            assert(t < done);
                        }
                    }
                },
            }
            done += 1;
        }
    }
}

} // verus!
