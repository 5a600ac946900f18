//! The per-peer message manager: one sender and one receiver per
//! registered channel, a packet manager to frame them, and the routing
//! between them.
//!
//! Outgoing: `buffer_send` dispatches a message to its channel's sender
//! (rejecting unknown channels and oversize messages on channels that
//! cannot fragment); `send_packets` collects every sender, then rounds
//! of framing until no sender has anything left, emitting one datagram
//! per round. Incoming: `recv_packet` parses a datagram, reassembles
//! fragments (a fragmented message reaches its receiver only as its
//! completed whole), hands messages to their channels' receivers,
//! resolves the ack header, and tells each reliable sender which of its
//! messages arrived; `read_messages` drains the receivers.

use vstd::prelude::*;
use crate::message::{mcs_view, MessageContainer, MessageId};
use crate::packet::{Packet, MAX_FRAG, MTU};
use crate::packet_manager::PacketManager;
use crate::receivers::{
    FragmentReassembler, ReliableOrderedReceiver, ReliableUnorderedReceiver,
    SequencedUnreliableReceiver, UnorderedUnreliableReceiver,
};
use crate::registry::{ChannelKind, ChannelMode, ChannelRegistry, ChannelSettings};
use crate::senders::{
    ChannelSend, ChannelSender, ReliableSender, SequencedUnreliableSender,
    UnorderedUnreliableSender,
};

verus! {

/// Why a message was not accepted, or a datagram not taken in.
#[derive(Clone, Copy, Debug, PartialEq, Eq, Structural)]
pub enum ChannelError {
    /// No channel is registered under the given identity.
    UnknownChannel,
    /// The message exceeds what the channel can carry: any payload over
    /// one fragment on an unreliable channel, or over the whole
    /// fragment budget on a reliable one.
    MessageTooLarge,
    /// An incoming datagram did not parse; it was dropped whole.
    MalformedPacket,
}

/// The receiving half of a channel, dispatched by variant.
pub enum ChannelReceiver {
    UnorderedUnreliable(UnorderedUnreliableReceiver),
    SequencedUnreliable(SequencedUnreliableReceiver),
    ReliableUnordered(ReliableUnorderedReceiver),
    ReliableOrdered(ReliableOrderedReceiver),
}

impl ChannelReceiver {
    /// The variant's own invariant.
    pub open spec fn wf(self) -> bool {
        match self {
            ChannelReceiver::UnorderedUnreliable(_) => true,
            ChannelReceiver::SequencedUnreliable(r) => r.wf(),
            ChannelReceiver::ReliableUnordered(r) => r.wf(),
            ChannelReceiver::ReliableOrdered(r) => r.wf(),
        }
    }

    /// Accept one arriving message under the variant's policy. A
    /// message without an id on a policy that needs one is dropped.
    pub fn buffer_recv(&mut self, message: MessageContainer)
        requires
            old(self).wf(),
        ensures
            final(self).wf(),
    {
        match self {
            ChannelReceiver::UnorderedUnreliable(r) => r.buffer_recv(message),
            ChannelReceiver::SequencedUnreliable(r) => {
                if message.id.is_some() {
                    r.buffer_recv(message);
                }
            },
            ChannelReceiver::ReliableUnordered(r) => {
                if message.id.is_some() {
                    r.buffer_recv(message);
                }
            },
            ChannelReceiver::ReliableOrdered(r) => {
                if message.id.is_some() {
                    r.buffer_recv(message);
                }
            },
        }
    }

    /// The messages a receiver holds ready for the application.
    pub open spec fn pending_msgs(self) -> Seq<crate::packet::WireMessageView> {
        match self {
            ChannelReceiver::UnorderedUnreliable(r) => mcs_view(r.pending@),
            ChannelReceiver::SequencedUnreliable(r) => mcs_view(r.pending@),
            ChannelReceiver::ReliableUnordered(r) => mcs_view(r.pending@),
            ChannelReceiver::ReliableOrdered(r) => mcs_view(r.pending@),
        }
    }

    /// Draining the ready messages touches nothing else of a receiver:
    /// its policy state (newest id seen, release record, expected id and
    /// early arrivals) stays as it was.
    pub open spec fn drained_from(self, pre: ChannelReceiver) -> bool {
        match (pre, self) {
            (ChannelReceiver::UnorderedUnreliable(_), ChannelReceiver::UnorderedUnreliable(_)) => {
                true
            },
            (
                ChannelReceiver::SequencedUnreliable(a),
                ChannelReceiver::SequencedUnreliable(b),
            ) => b.latest_seen == a.latest_seen && b.history == a.history,
            (
                ChannelReceiver::ReliableUnordered(a),
                ChannelReceiver::ReliableUnordered(b),
            ) => b.delivered_ids == a.delivered_ids,
            (ChannelReceiver::ReliableOrdered(a), ChannelReceiver::ReliableOrdered(b)) => {
                &&& b.next_expected == a.next_expected
                &&& b.buffer == a.buffer
                &&& b.history == a.history
                &&& b.start == a.start
            },
            _ => false,
        }
    }

    /// Hand every ready message out, in the variant's release order:
    /// exactly what was pending, which is then empty.
    pub fn read_messages(&mut self) -> (r: Vec<MessageContainer>)
        requires
            old(self).wf(),
        ensures
            final(self).wf(),
            mcs_view(r@) == old(self).pending_msgs(),
            final(self).pending_msgs() == Seq::<crate::packet::WireMessageView>::empty(),
            final(self).drained_from(*old(self)),
    {
        let r = match self {
            ChannelReceiver::UnorderedUnreliable(r) => r.read_messages(),
            ChannelReceiver::SequencedUnreliable(r) => r.read_messages(),
            ChannelReceiver::ReliableUnordered(r) => r.read_messages(),
            ChannelReceiver::ReliableOrdered(r) => r.read_messages(),
        };
        proof {
            assert(self.pending_msgs() =~= Seq::<crate::packet::WireMessageView>::empty());
        }
        r
    }
}

/// One registered channel of a connection: its identity and settings,
/// its sender and receiver halves, and the reassembly buffer for its
/// fragmented messages.
pub struct ChannelEntry {
    pub kind: ChannelKind,
    pub settings: ChannelSettings,
    pub sender: ChannelSender,
    pub receiver: ChannelReceiver,
    pub reassembler: FragmentReassembler,
}

/// Holds the channels of one peer connection and multiplexes them over
/// one datagram stream.
pub struct MessageManager {
    pub channels: Vec<ChannelEntry>,
    pub packet_manager: PacketManager,
}

/// How many collected messages the senders still hold, in total.
pub open spec fn total_queued(channels: Seq<ChannelEntry>) -> int
    decreases channels.len(),
{
    if channels.len() == 0 {
        0
    } else {
        sender_queue_len(channels[0].sender) + total_queued(channels.drop_first())
    }
}

/// What one `update` call does to a sender: a reliable sender's clock
/// moves to the given reading (never backwards) and its round-trip
/// estimate is replaced; the unreliable policies hold no clock.
pub open spec fn clocked(pre: ChannelSender, post: ChannelSender, now: u64, rtt: u64) -> bool {
    match (pre, post) {
        (ChannelSender::Reliable(a), ChannelSender::Reliable(b)) => b == (ReliableSender {
            current_time: if now >= a.current_time {
                now
            } else {
                a.current_time
            },
            current_rtt_millis: rtt,
            ..a
        }),
        _ => post == pre,
    }
}

/// How many collected messages one sender holds.
pub open spec fn sender_queue_len(s: ChannelSender) -> int {
    match s {
        ChannelSender::UnorderedUnreliable(x) => x.messages_to_send@.len() as int,
        ChannelSender::SequencedUnreliable(x) => x.messages_to_send@.len() as int,
        ChannelSender::Reliable(x) => x.messages_to_send@.len() as int,
    }
}

impl MessageManager {
    /// Every channel half well-formed, each sender numbered with its
    /// channel's index, at most 255 channels, and the packet manager
    /// consistent with an empty datagram under construction.
    pub open spec fn wf(self) -> bool {
        &&& self.packet_manager.wf()
        &&& self.packet_manager.building_views().len() == 0
        &&& self.packet_manager.building_size == crate::packet::HEADER_BYTES as int
        &&& self.channels_wf()
    }

    /// The channel-table part of the invariant, without any claim on
    /// the datagram under construction.
    pub open spec fn channels_wf(self) -> bool {
        &&& self.channels@.len() <= 255
        &&& forall|i: int| 0 <= i < self.channels@.len() ==> (#[trigger] self.channels@[i]).sender.wf()
        &&& forall|i: int|
            0 <= i < self.channels@.len() ==> (#[trigger] self.channels@[i]).receiver.wf()
        &&& forall|i: int|
            0 <= i < self.channels@.len() ==> (#[trigger] self.channels@[i]).reassembler.wf()
        &&& forall|i: int|
            0 <= i < self.channels@.len() ==> (#[trigger] self.channels@[i]).sender.cid() == i
    }

    /// Build every channel of the registry eagerly, senders and
    /// receivers matching each channel's declared mode.
    pub fn new(registry: &ChannelRegistry) -> (r: MessageManager)
        requires
            registry.wf(),
        ensures
            r.wf(),
            r.channels@.len() == registry.channels@.len(),
    {
        let mut channels: Vec<ChannelEntry> = Vec::new();
        let n = registry.channels.len();
        let mut i: usize = 0;
        while i < n
            invariant
                n == registry.channels@.len(),
                n <= 255,
                i <= n,
                channels@.len() == i,
                forall|j: int| 0 <= j < i ==> (#[trigger] channels@[j]).sender.wf(),
                forall|j: int| 0 <= j < i ==> (#[trigger] channels@[j]).receiver.wf(),
                forall|j: int| 0 <= j < i ==> (#[trigger] channels@[j]).reassembler.wf(),
                forall|j: int| 0 <= j < i ==> (#[trigger] channels@[j]).sender.cid() == j,
            decreases n - i,
        {
            let kind = registry.channels[i].0;
            let settings = registry.channels[i].1;
            let id = i as u16;
            let sender = match settings.mode {
                ChannelMode::UnorderedUnreliable => ChannelSender::UnorderedUnreliable(
                    UnorderedUnreliableSender::new(id),
                ),
                ChannelMode::SequencedUnreliable => ChannelSender::SequencedUnreliable(
                    SequencedUnreliableSender::new(id),
                ),
                ChannelMode::ReliableUnordered => ChannelSender::Reliable(
                    ReliableSender::new(id, settings.reliable),
                ),
                ChannelMode::ReliableOrdered => ChannelSender::Reliable(
                    ReliableSender::new(id, settings.reliable),
                ),
            };
            let receiver = match settings.mode {
                ChannelMode::UnorderedUnreliable => ChannelReceiver::UnorderedUnreliable(
                    UnorderedUnreliableReceiver::new(),
                ),
                ChannelMode::SequencedUnreliable => ChannelReceiver::SequencedUnreliable(
                    SequencedUnreliableReceiver::new(),
                ),
                ChannelMode::ReliableUnordered => ChannelReceiver::ReliableUnordered(
                    ReliableUnorderedReceiver::new(),
                ),
                ChannelMode::ReliableOrdered => ChannelReceiver::ReliableOrdered(
                    ReliableOrderedReceiver::new(),
                ),
            };
            channels.push(
                ChannelEntry {
                    kind,
                    settings,
                    sender,
                    receiver,
                    reassembler: FragmentReassembler::new(),
                },
            );
            i += 1;
        }
        MessageManager { channels, packet_manager: PacketManager::new() }
    }

    /// Find a channel by its identity.
    fn find_channel(&self, kind: ChannelKind) -> (r: Option<usize>)
        ensures
            match r {
                Some(i) => i < self.channels@.len() && self.channels@[i as int].kind.0 == kind.0,
                None => forall|j: int|
                    0 <= j < self.channels@.len() ==> (#[trigger] self.channels@[j]).kind.0
                        != kind.0,
            },
    {
        let n = self.channels.len();
        let mut i: usize = 0;
        while i < n
            invariant
                n == self.channels@.len(),
                i <= n,
                forall|j: int| 0 <= j < i ==> (#[trigger] self.channels@[j]).kind.0 != kind.0,
            decreases n - i,
        {
            if self.channels[i].kind.0 == kind.0 {
                return Some(i);
            }
            i += 1;
        }
        None
    }

    /// Queue a message on the channel registered under `kind`. An
    /// unknown identity is rejected; so is a payload that exceeds one
    /// fragment on an unreliable channel, or the whole fragment budget
    /// on a reliable one. An accepted message reaches the channel's
    /// sender.
    pub fn buffer_send(&mut self, kind: ChannelKind, message: MessageContainer) -> (r: Result<
        (),
        ChannelError,
    >)
        requires
            old(self).wf(),
            message.id is None,
            message.fragment is None,
        ensures
            final(self).wf(),
            ({
                let known = exists|j: int|
                    0 <= j < old(self).channels@.len() && (#[trigger] old(self).channels@[j]).kind.0
                        == kind.0;
                match r {
                    Ok(_) => known,
                    Err(ChannelError::UnknownChannel) => !known,
                    Err(ChannelError::MessageTooLarge) => known,
                    Err(ChannelError::MalformedPacket) => false,
                }
            }),
            r is Err ==> *final(self) == *old(self),
            r is Ok ==> final(self).packet_manager == old(self).packet_manager && final(self).channels@.len() == old(self).channels@.len(),
            r is Ok ==> exists|c: int|
                {
                    &&& 0 <= c < old(self).channels@.len()
                    &&& (#[trigger] old(self).channels@[c]).kind.0 == kind.0
                    &&& <ChannelSender as ChannelSend>::buffer_rel(
                        old(self).channels@[c].sender,
                        final(self).channels@[c].sender,
                        message,
                    )
                    &&& (forall|t: int|
                        0 <= t < old(self).channels@.len() && t != c
                            ==> #[trigger] final(self).channels@[t] == old(self).channels@[t])
                },
    {
        let idx = match self.find_channel(kind) {
            Some(i) => i,
            None => {
                return Err(ChannelError::UnknownChannel);
            },
        };
        proof {
            assert((self.channels@[idx as int]).kind.0 == kind.0);
        }
        let reliable = match self.channels[idx].settings.mode {
            ChannelMode::ReliableUnordered => true,
            ChannelMode::ReliableOrdered => true,
            _ => false,
        };
        if reliable {
            if message.payload.len() > 0xffff * MAX_FRAG {
                return Err(ChannelError::MessageTooLarge);
            }
        } else {
            if message.payload.len() > MAX_FRAG {
                return Err(ChannelError::MessageTooLarge);
            }
        }
        let ghost pre = self.channels@;
        let entry = &mut self.channels[idx];
        entry.sender.buffer_send(message);
        proof {
            assert forall|i: int| 0 <= i < self.channels@.len() implies (#[trigger] self.channels@[
                i
            ]).sender.wf() && self.channels@[i].receiver.wf() && self.channels@[i].reassembler.wf()
                && self.channels@[i].sender.cid() == i by {
                if i != idx {
                    assert(self.channels@[i] == pre[i]);
                }
            }
            assert(pre[idx as int].kind.0 == kind.0);
            assert(<ChannelSender as ChannelSend>::buffer_rel(
                pre[idx as int].sender,
                self.channels@[idx as int].sender,
                message,
            ));
            assert(forall|t: int|
                0 <= t < pre.len() && t != idx ==> #[trigger] self.channels@[t] == pre[t]);
        }
        Ok(())
    }

    /// Advance every reliable sender's clock and round-trip estimate;
    /// resend decisions read only these. Nothing else of any channel,
    /// nor the packet manager, moves.
    #[verifier::loop_isolation(false)]
    pub fn update(&mut self, now_millis: u64, rtt_millis: u64)
        requires
            old(self).wf(),
        ensures
            final(self).wf(),
            final(self).packet_manager == old(self).packet_manager,
            final(self).channels@.len() == old(self).channels@.len(),
            forall|i: int|
                0 <= i < final(self).channels@.len() ==> clocked(
                    old(self).channels@[i].sender,
                    (#[trigger] final(self).channels@[i]).sender,
                    now_millis,
                    rtt_millis,
                ) && final(self).channels@[i].receiver == old(self).channels@[i].receiver
                    && final(self).channels@[i].reassembler == old(self).channels@[i].reassembler
                    && final(self).channels@[i].kind == old(self).channels@[i].kind
                    && final(self).channels@[i].settings == old(self).channels@[i].settings,
    {
        let n = self.channels.len();
        let mut i: usize = 0;
        while i < n
            invariant
                self.wf(),
                self.packet_manager == old(self).packet_manager,
                n == self.channels@.len(),
                i <= n,
                forall|t: int| i <= t < n ==> #[trigger] self.channels@[t] == old(self).channels@[t],
                forall|t: int|
                    0 <= t < i ==> clocked(
                        old(self).channels@[t].sender,
                        (#[trigger] self.channels@[t]).sender,
                        now_millis,
                        rtt_millis,
                    ) && self.channels@[t].receiver == old(self).channels@[t].receiver
                        && self.channels@[t].reassembler == old(self).channels@[t].reassembler
                        && self.channels@[t].kind == old(self).channels@[t].kind
                        && self.channels@[t].settings == old(self).channels@[t].settings,
            decreases n - i,
        {
            let ghost pre = self.channels@;
            let entry = &mut self.channels[i];
            match &mut entry.sender {
                ChannelSender::Reliable(s) => {
                    s.update_time(now_millis);
                    s.update_rtt(rtt_millis);
                },
                _ => {},
            }
            proof {
                assert forall|t: int| 0 <= t < self.channels@.len() implies (
                #[trigger] self.channels@[t]).sender.wf() && self.channels@[t].receiver.wf()
                    && self.channels@[t].reassembler.wf() && self.channels@[t].sender.cid() == t by {
                    if t != i {
                        assert(self.channels@[t] == pre[t]);
                    }
                }
                assert(clocked(
                    pre[i as int].sender,
                    self.channels@[i as int].sender,
                    now_millis,
                    rtt_millis,
                ));
            }
            i += 1;
        }
    }

    /// Whether any channel's sender has collected messages waiting.
    fn any_has_messages(&self) -> (r: bool)
        ensures
            r == exists|j: int|
                0 <= j < self.channels@.len() && sender_queue_len(
                    (#[trigger] self.channels@[j]).sender,
                ) > 0,
    {
        let n = self.channels.len();
        let mut i: usize = 0;
        while i < n
            invariant
                n == self.channels@.len(),
                i <= n,
                forall|j: int|
                    0 <= j < i ==> sender_queue_len((#[trigger] self.channels@[j]).sender) == 0,
            decreases n - i,
        {
            if self.channels[i].sender.has_messages_to_send() {
                proof {
                    assert(sender_queue_len(self.channels@[i as int].sender) > 0);
                }
                return true;
            }
            proof {
                assert(sender_queue_len(self.channels@[i as int].sender) == 0);
            }
            i += 1;
        }
        false
    }

    /// Collect every channel, then frame rounds of datagrams until no
    /// sender has anything left: each round packs every channel into one
    /// datagram and emits it, so every collected message leaves in some
    /// datagram of this flush, and every datagram stays within the MTU.
    #[verifier::loop_isolation(false)]
    #[verifier::rlimit(100)]
    pub fn send_packets(&mut self, tick: u16) -> (r: Vec<Vec<u8>>)
        requires
            old(self).wf(),
        ensures
            final(self).wf(),
            forall|i: int| 0 <= i < r@.len() ==> (#[trigger] r@[i])@.len() <= MTU,
            forall|i: int|
                0 <= i < r@.len() ==> crate::packet::parse_packet((#[trigger] r@[i])@) is Some,
            forall|j: int|
                0 <= j < final(self).channels@.len() ==> sender_queue_len(
                    (#[trigger] final(self).channels@[j]).sender,
                ) == 0,
    {
        let n = self.channels.len();
        let mut i: usize = 0;
        while i < n
            invariant
                self.wf(),
                n == self.channels@.len(),
                i <= n,
            decreases n - i,
        {
            let ghost pre = self.channels@;
            let entry = &mut self.channels[i];
            entry.sender.collect_messages_to_send();
            proof {
                assert forall|t: int| 0 <= t < self.channels@.len() implies (
                #[trigger] self.channels@[t]).sender.wf() && self.channels@[t].receiver.wf()
                    && self.channels@[t].reassembler.wf() && self.channels@[t].sender.cid() == t by {
                    if t != i {
                        assert(self.channels@[t] == pre[t]);
                    }
                }
            }
            i += 1;
        }
        let mut out: Vec<Vec<u8>> = Vec::new();
        while self.any_has_messages()
            invariant
                self.wf(),
                n == self.channels@.len(),
                forall|t: int| 0 <= t < out@.len() ==> (#[trigger] out@[t])@.len() <= MTU,
                forall|t: int|
                    0 <= t < out@.len() ==> crate::packet::parse_packet(
                        (#[trigger] out@[t])@,
                    ) is Some,
            decreases total_queued(self.channels@),
        {
            let ghost t0 = total_queued(self.channels@);
            let ghost start_channels = self.channels@;
            let mut idx: usize = 0;
            while idx < n
                invariant
                    self.channels_wf(),
                    self.packet_manager.wf(),
                    n == self.channels@.len(),
                    idx <= n,
                    self.packet_manager.building@.len() <= idx,
                    forall|t: int|
                        idx <= t < n ==> #[trigger] self.channels@[t] == start_channels[t],
                    total_queued(self.channels@) <= t0,
                    (exists|t: int|
                        0 <= t < idx && sender_queue_len(
                            (#[trigger] start_channels[t]).sender,
                        ) > 0) ==> total_queued(self.channels@) < t0,
                    (forall|t: int|
                        0 <= t < idx ==> sender_queue_len((#[trigger] start_channels[t]).sender)
                            == 0) ==> self.packet_manager.building_views().len() == 0
                        && self.packet_manager.building_size == crate::packet::HEADER_BYTES as int,
                decreases n - idx,
            {
                let ghost pre = self.channels@;
                let ghost pm_pre = self.packet_manager;
                let ghost q_pre = sender_queue_len(pre[idx as int].sender);
                let entry = &mut self.channels[idx];
                entry.sender.send_packet(&mut self.packet_manager);
                proof {
                    let k = crate::packet_manager::greedy_fit(
                        pre[idx as int].sender.out_msgs(),
                        crate::packet_manager::pack_budget(pm_pre.building_size as int),
                    );
                    crate::packet_manager::lemma_greedy_fit_bounds(
                        pre[idx as int].sender.out_msgs(),
                        crate::packet_manager::pack_budget(pm_pre.building_size as int),
                    );
                    assert(pre[idx as int].sender.out_msgs().len() == q_pre);
                    assert(crate::packet_manager::pack_transition(
                        pm_pre,
                        self.packet_manager,
                        pre[idx as int].sender.cid() as u16,
                        pre[idx as int].sender.out_msgs(),
                        self.channels@[idx as int].sender.out_msgs(),
                        crate::packet_manager::some_ids(pre[idx as int].sender.out_msgs().take(k)),
                    ));
                    assert(self.channels@[idx as int].sender.out_msgs() == pre[
                        idx as int
                    ].sender.out_msgs().skip(k));
                    assert(sender_queue_len(self.channels@[idx as int].sender) == self.channels@[
                        idx as int
                    ].sender.out_msgs().len());
                    assert(sender_queue_len(self.channels@[idx as int].sender) == q_pre - k);
                    lemma_total_queued_update(pre, self.channels@, idx as int);
                    assert forall|t: int| 0 <= t < self.channels@.len() implies (
                    #[trigger] self.channels@[t]).sender.wf() && self.channels@[t].receiver.wf()
                        && self.channels@[t].reassembler.wf() && self.channels@[t].sender.cid()
                        == t by {
                        if t != idx {
                            assert(self.channels@[t] == pre[t]);
                        }
                    }
                    if q_pre > 0 && self.packet_manager.building_views().len() == 0
                        && pm_pre.building_views().len() == 0 {
                        // an empty datagram offers room for at least one
                        // collected message, so the first busy channel
                        // always makes progress
                        assert(crate::packet_manager::pack_budget(pm_pre.building_size as int)
                            >= MTU - 11 - 6);
                        lemma_message_fits(pre[idx as int].sender.out_msgs());
                        assert(k >= 1);
                    }
                    if q_pre > 0 {
                        if k == 0 {
                            // packing nothing leaves the datagram as it
                            // was, which only happens when it already
                            // holds blocks from an earlier busy channel
                            assert(self.packet_manager.building_views()
                                == pm_pre.building_views());
                            assert(exists|t: int|
                                0 <= t < idx && sender_queue_len(
                                    (#[trigger] start_channels[t]).sender,
                                ) > 0);
                        } else {
                            assert(total_queued(self.channels@) < t0);
                        }
                    }
                }
                idx += 1;
            }
            proof {
                assert(exists|t: int|
                    0 <= t < n && sender_queue_len((#[trigger] start_channels[t]).sender) > 0);
                assert(total_queued(self.channels@) < t0);
                lemma_total_queued_nonneg(self.channels@);
            }
            let ghost pm_before = self.packet_manager;
            let bytes = self.packet_manager.finish_packet(tick);
            proof {
                assert(bytes@.len() <= MTU);
                let last_ack: u16 = match pm_before.latest_received {
                    Some(l) => l,
                    None => 0u16,
                };
                let pv = crate::packet::PacketView {
                    packet_id: pm_before.next_packet_id,
                    last_ack_packet_id: last_ack,
                    ack_bitfield: crate::acks::bits_val(
                        crate::packet_manager::ack_bits_spec(
                            last_ack,
                            pm_before.received_history@,
                        ),
                    ) as u32,
                    tick,
                    channels: pm_before.building_views(),
                };
                assert(bytes@ == crate::packet::packet_bytes(pv));
                assert(crate::packet::packet_wf(pv));
                crate::packet::lemma_packet_round_trip(pv);
            }
            out.push(bytes);
        }
        proof {
            assert forall|j: int| 0 <= j < self.channels@.len() implies sender_queue_len(
                (#[trigger] self.channels@[j]).sender,
            ) == 0 by {
                if sender_queue_len(self.channels@[j].sender) > 0 {
                    assert(exists|t: int|
                        0 <= t < self.channels@.len() && sender_queue_len(
                            (#[trigger] self.channels@[t]).sender,
                        ) > 0);
                }
            }
        }
        out
    }

    /// Parse an incoming datagram. Its packet id is recorded (a replay
    /// changes nothing there); its ack header is resolved against the
    /// sent records, which shrink exactly by the acknowledged ids, and
    /// each released `(channel, message)` pair is told to its channel's
    /// sender. Each framed message is handed to its channel: a fragment
    /// goes to the channel's reassembly buffer under its message id and
    /// reaches the receiver only as part of its completed whole;
    /// anything else goes to the receiver at once. Messages for unknown
    /// channel ids are dropped. Returns the sender's tick from the
    /// header; a malformed datagram is rejected unchanged.
    #[verifier::loop_isolation(false)]
    pub fn recv_packet(&mut self, datagram: &Vec<u8>) -> (r: Result<u16, ChannelError>)
        requires
            old(self).wf(),
        ensures
            final(self).wf(),
            r is Ok <==> crate::packet::parse_packet(datagram@) is Some,
            r is Err ==> *final(self) == *old(self),
            r is Ok ==> ({
                let p = crate::packet::parse_packet(datagram@)->0;
                let pm0 = old(self).packet_manager;
                let pm1 = final(self).packet_manager;
                &&& r == Ok::<u16, ChannelError>(p.tick)
                &&& (pm0.received_history@.contains(p.packet_id) ==> pm1.received_history
                    == pm0.received_history && pm1.latest_received == pm0.latest_received)
                &&& (!pm0.received_history@.contains(p.packet_id)
                    ==> pm1.received_history@ == pm0.received_history@.push(p.packet_id)
                    && pm1.latest_received == (match pm0.latest_received {
                    None => Some(p.packet_id),
                    Some(l) => if crate::wrapping::wrap_gt(p.packet_id, l) {
                        Some(p.packet_id)
                    } else {
                        Some(l)
                    },
                }))
                &&& pm1.sent_views() == crate::packet_manager::sent_after_acks(
                    pm0.sent_views(),
                    crate::acks::acked_ids_of(
                        p.last_ack_packet_id,
                        crate::acks::bits_of_val(p.ack_bitfield),
                    ),
                )
                &&& pm1.next_packet_id == pm0.next_packet_id
                &&& pm1.building == pm0.building
                &&& pm1.building_size == pm0.building_size
                &&& pm1.building_acks == pm0.building_acks
            }),
    {
        let ghost pm0 = self.packet_manager;
        let packet = match crate::packet::decode_packet(datagram) {
            Some(p) => p,
            None => {
                return Err(ChannelError::MalformedPacket);
            },
        };
        let ghost pv = crate::packet::parse_packet(datagram@)->0;
        let tick = packet.tick;
        let n = self.channels.len();
        self.packet_manager.record_received(packet.packet_id);
        let ghost pm_recorded = self.packet_manager;
        let mut blocks = packet.channels;
        while blocks.len() > 0
            invariant
                self.channels_wf(),
                self.packet_manager == pm_recorded,
                n == self.channels@.len(),
            decreases blocks@.len(),
        {
            let block = blocks.remove(0);
            let cid = block.channel_id as usize;
            if cid < n {
                let mut msgs = block.messages;
                while msgs.len() > 0
                    invariant
                        self.channels_wf(),
                        self.packet_manager == pm_recorded,
                        n == self.channels@.len(),
                        cid < n,
                    decreases msgs@.len(),
                {
                    let w = msgs.remove(0);
                    let ghost pre = self.channels@;
                    let entry = &mut self.channels[cid];
                    let is_fragment = w.id.is_some() && w.fragment.is_some();
                    if is_fragment {
                        let id = match w.id {
                            Some(v) => v,
                            None => 0,
                        };
                        let (index, total) = match w.fragment {
                            Some(f) => f,
                            None => (0, 0),
                        };
                        if index < total {
                            match entry.reassembler.accept(id, index, total, w.payload) {
                                Some(payload) => {
                                    entry.receiver.buffer_recv(
                                        MessageContainer {
                                            id: Some(MessageId(id)),
                                            fragment: None,
                                            payload,
                                        },
                                    );
                                },
                                None => {},
                            }
                        }
                    } else {
                        entry.receiver.buffer_recv(
                            MessageContainer {
                                id: match w.id {
                                    Some(v) => Some(MessageId(v)),
                                    None => None,
                                },
                                fragment: w.fragment,
                                payload: w.payload,
                            },
                        );
                    }
                    proof {
                        assert forall|t: int| 0 <= t < self.channels@.len() implies (
                        #[trigger] self.channels@[t]).sender.wf() && self.channels@[
                            t
                        ].receiver.wf() && self.channels@[t].reassembler.wf() && self.channels@[
                            t
                        ].sender.cid() == t by {
                            if t != cid {
                                assert(self.channels@[t] == pre[t]);
                            }
                        }
                    }
                }
            }
        }
        let bits = crate::acks::u32_to_bits(packet.ack_bitfield);
        let acked = self.packet_manager.notify_acks(packet.last_ack_packet_id, &bits);
        let ghost pm_acked = self.packet_manager;
        let mut t: usize = 0;
        let na = acked.len();
        while t < na
            invariant
                self.channels_wf(),
                self.packet_manager == pm_acked,
                n == self.channels@.len(),
                na == acked@.len(),
                t <= na,
            decreases na - t,
        {
            let (cid16, mid) = acked[t];
            let cid = cid16 as usize;
            if cid < n {
                let ghost pre = self.channels@;
                let entry = &mut self.channels[cid];
                entry.sender.notify_message_delivered(&MessageId(mid));
                proof {
                    assert forall|q: int| 0 <= q < self.channels@.len() implies (
                    #[trigger] self.channels@[q]).sender.wf() && self.channels@[q].receiver.wf()
                        && self.channels@[q].reassembler.wf() && self.channels@[q].sender.cid()
                        == q by {
                        if q != cid {
                            assert(self.channels@[q] == pre[q]);
                        }
                    }
                }
            }
            t += 1;
        }
        proof {
            assert(pv == packet@);
            assert(bits@ == crate::acks::bits_of_val(pv.ack_bitfield));
        }
        Ok(tick)
    }

    /// Drain every channel's ready messages: one entry per channel, in
    /// channel order, carrying the channel's identity and exactly the
    /// messages its receiver had released (fragmented messages were
    /// already reassembled on the way in, so each is a whole payload).
    #[verifier::loop_isolation(false)]
    pub fn read_messages(&mut self) -> (r: Vec<(u64, Vec<MessageContainer>)>)
        requires
            old(self).wf(),
        ensures
            final(self).wf(),
            final(self).packet_manager == old(self).packet_manager,
            r@.len() == old(self).channels@.len(),
            final(self).channels@.len() == old(self).channels@.len(),
            forall|i: int|
                0 <= i < r@.len() ==> (#[trigger] r@[i]).0 == old(self).channels@[i].kind.0
                    && mcs_view(r@[i].1@) == old(self).channels@[i].receiver.pending_msgs(),
            forall|i: int|
                0 <= i < final(self).channels@.len() ==> (#[trigger] final(self).channels@[i]).receiver.pending_msgs()
                    == Seq::<crate::packet::WireMessageView>::empty(),
            forall|i: int|
                0 <= i < final(self).channels@.len() ==> (#[trigger] final(self).channels@[i]).receiver.drained_from(old(self).channels@[i].receiver)
                    && final(self).channels@[i].sender == old(self).channels@[i].sender
                    && final(self).channels@[i].reassembler == old(self).channels@[i].reassembler
                    && final(self).channels@[i].kind == old(self).channels@[i].kind
                    && final(self).channels@[i].settings == old(self).channels@[i].settings,
    {
        let n = self.channels.len();
        let mut out: Vec<(u64, Vec<MessageContainer>)> = Vec::new();
        let mut i: usize = 0;
        while i < n
            invariant
                self.wf(),
                self.packet_manager == old(self).packet_manager,
                n == self.channels@.len(),
                i <= n,
                out@.len() == i,
                forall|t: int| i <= t < n ==> #[trigger] self.channels@[t] == old(self).channels@[t],
                forall|t: int|
                    0 <= t < i ==> (#[trigger] out@[t]).0 == old(self).channels@[t].kind.0
                        && mcs_view(out@[t].1@) == old(self).channels@[t].receiver.pending_msgs(),
                forall|t: int|
                    0 <= t < i ==> (#[trigger] self.channels@[t]).receiver.pending_msgs()
                        == Seq::<crate::packet::WireMessageView>::empty(),
                forall|t: int|
                    0 <= t < i ==> (#[trigger] self.channels@[t]).receiver.drained_from(
                        old(self).channels@[t].receiver,
                    ) && self.channels@[t].sender == old(self).channels@[t].sender
                        && self.channels@[t].reassembler == old(self).channels@[t].reassembler
                        && self.channels@[t].kind == old(self).channels@[t].kind
                        && self.channels@[t].settings == old(self).channels@[t].settings,
            decreases n - i,
        {
            let ghost pre = self.channels@;
            let kind = self.channels[i].kind;
            let entry = &mut self.channels[i];
            let ready = entry.receiver.read_messages();
            proof {
                assert forall|t: int| 0 <= t < self.channels@.len() implies (
                #[trigger] self.channels@[t]).sender.wf() && self.channels@[t].receiver.wf()
                    && self.channels@[t].reassembler.wf() && self.channels@[t].sender.cid() == t by {
                    if t != i {
                        assert(self.channels@[t] == pre[t]);
                    }
                }
                assert(forall|t: int|
                    0 <= t < self.channels@.len() && t != i ==> #[trigger] self.channels@[t]
                        == pre[t]);
            }
            out.push((kind.0, ready));
            i += 1;
        }
        out
    }
}

/// The total queue length is never negative.
proof fn lemma_total_queued_nonneg(chs: Seq<ChannelEntry>)
    ensures
        total_queued(chs) >= 0,
    decreases chs.len(),
{
    if chs.len() > 0 {
        lemma_total_queued_nonneg(chs.drop_first());
    }
}

/// Replacing one channel entry changes the total queue length by that
/// entry's difference.
proof fn lemma_total_queued_update(pre: Seq<ChannelEntry>, post: Seq<ChannelEntry>, idx: int)
    requires
        pre.len() == post.len(),
        0 <= idx < pre.len(),
        forall|t: int| 0 <= t < pre.len() && t != idx ==> #[trigger] post[t] == pre[t],
    ensures
        total_queued(post) == total_queued(pre) - sender_queue_len(pre[idx].sender)
            + sender_queue_len(post[idx].sender),
    decreases pre.len(),
{
    if pre.len() > 0 {
        if idx == 0 {
            assert(post.drop_first() =~= pre.drop_first());
        } else {
            lemma_total_queued_update(pre.drop_first(), post.drop_first(), idx - 1);
            assert(post[0] == pre[0]);
        }
    }
}

/// Any fragment-sized message fits an empty datagram: its framed size
/// is at most ten bytes of header plus the payload.
proof fn lemma_message_fits(ms: Seq<crate::packet::WireMessageView>)
    requires
        ms.len() > 0,
        forall|i: int|
            0 <= i < ms.len() ==> (#[trigger] ms[i]).payload.len() <= MAX_FRAG,
    ensures
        crate::packet::message_bytes(ms[0]).len() <= MAX_FRAG + 10,
{
    assert(ms[0].payload.len() <= MAX_FRAG);
}

} // verus!
