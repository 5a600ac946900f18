//! MTU-bounded framing of channel messages into datagrams, and the
//! bookkeeping that turns incoming ack headers back into acknowledged
//! messages.
//!
//! The manager holds one datagram under construction. Senders append
//! their queued messages to it channel by channel
//! (`pack_messages_within_channel`, greedy while the framed bytes fit);
//! `finish_packet` stamps the next packet id and the current ack header,
//! emits the bytes, and records which `(channel, message)` pairs the
//! datagram carried. When a peer's header arrives, `notify_acks` resolves
//! it into packet ids, drops their records, and hands back every
//! `(channel, message)` pair those packets carried; a replayed header
//! finds no record and hands back nothing.

use vstd::prelude::*;
use crate::acks::{acked_ids_of, bits_to_u32, make_ack_bits, resolve_acks};
use crate::acks::bits_val;
use crate::message::{mc_view, mcs_view, MessageContainer, MessageId};
use crate::packet::{
    block_bytes, blocks_bytes, block_wf, encode_packet, lemma_blocks_bytes_push,
    lemma_messages_bytes_push, message_bytes, messages_bytes, packet_bytes, packet_wf,
    varint_bytes, wm_wf, ChannelBlock, ChannelBlockView, Packet, PacketView, WireMessage,
    WireMessageView, HEADER_BYTES, MAX_FRAG, MTU,
};
use crate::wrapping::{wrap_gt, wrap_next, wrap_sub, wrapping_gt, wrapping_next};

verus! {

/// What one sent datagram carried: for each message, the channel it was
/// on and its message id.
pub type SentRecord = (u16, Vec<(u16, u16)>);

/// The ack bits a receiver advertises for a given newest id and history.
pub open spec fn ack_bits_spec(latest: u16, history: Seq<u16>) -> Seq<bool> {
    Seq::new(32, |i: int| history.contains(wrap_sub(latest, (32 - i) as u16)))
}

/// Sent records left after acknowledging packet `id`.
pub open spec fn sent_after_ack(sent: Seq<(u16, Seq<(u16, u16)>)>, id: u16) -> Seq<
    (u16, Seq<(u16, u16)>),
>
    decreases sent.len(),
{
    if sent.len() == 0 {
        Seq::empty()
    } else {
        let rest = sent_after_ack(sent.drop_first(), id);
        if sent[0].0 == id {
            rest
        } else {
            seq![sent[0]] + rest
        }
    }
}

/// The `(channel, message)` pairs released by acknowledging packet `id`.
pub open spec fn acked_msgs(sent: Seq<(u16, Seq<(u16, u16)>)>, id: u16) -> Seq<(u16, u16)>
    decreases sent.len(),
{
    if sent.len() == 0 {
        Seq::empty()
    } else {
        let rest = acked_msgs(sent.drop_first(), id);
        if sent[0].0 == id {
            sent[0].1 + rest
        } else {
            rest
        }
    }
}

/// Sent records left after acknowledging every id in `ids`, in order.
pub open spec fn sent_after_acks(sent: Seq<(u16, Seq<(u16, u16)>)>, ids: Seq<u16>) -> Seq<
    (u16, Seq<(u16, u16)>),
>
    decreases ids.len(),
{
    if ids.len() == 0 {
        sent
    } else {
        sent_after_acks(sent_after_ack(sent, ids[0]), ids.drop_first())
    }
}

/// The pairs released by acknowledging every id in `ids`, in order.
pub open spec fn acked_msgs_all(sent: Seq<(u16, Seq<(u16, u16)>)>, ids: Seq<u16>) -> Seq<
    (u16, u16),
>
    decreases ids.len(),
{
    if ids.len() == 0 {
        Seq::empty()
    } else {
        acked_msgs(sent, ids[0]) + acked_msgs_all(sent_after_ack(sent, ids[0]), ids.drop_first())
    }
}

/// Acknowledging a packet id a second time finds no record and releases
/// nothing: duplicate acks are idempotent.
pub proof fn lemma_duplicate_ack_idempotent(sent: Seq<(u16, Seq<(u16, u16)>)>, id: u16)
    ensures
        sent_after_ack(sent_after_ack(sent, id), id) == sent_after_ack(sent, id),
        acked_msgs(sent_after_ack(sent, id), id) == Seq::<(u16, u16)>::empty(),
    decreases sent.len(),
{
    if sent.len() > 0 {
        lemma_duplicate_ack_idempotent(sent.drop_first(), id);
        if sent[0].0 == id {
        } else {
            let rest = sent_after_ack(sent.drop_first(), id);
            assert((seq![sent[0]] + rest).drop_first() =~= rest);
            assert(sent_after_ack(seq![sent[0]] + rest, id) =~= seq![sent[0]] + sent_after_ack(
                rest,
                id,
            ));
            assert(acked_msgs(seq![sent[0]] + rest, id) =~= acked_msgs(rest, id));
        }
    }
}

/// The ids eligible for ack tracking in a run of framed messages: a
/// whole message counts where it stands; a fragmented one only with its
/// final slice, so a message is considered sent — and its ack record
/// made — only once every slice has been framed.
pub open spec fn ackable_ids(ms: Seq<WireMessageView>) -> Seq<u16>
    decreases ms.len(),
{
    if ms.len() == 0 {
        Seq::empty()
    } else {
        let rest = ackable_ids(ms.drop_first());
        match ms[0].id {
            Some(id) => match ms[0].fragment {
                None => seq![id] + rest,
                Some((index, total)) => if index + 1 == total {
                    seq![id] + rest
                } else {
                    rest
                },
            },
            None => rest,
        }
    }
}

/// Whether a framed message counts for ack tracking.
pub open spec fn is_ackable(m: WireMessageView) -> bool {
    match m.id {
        Some(_) => match m.fragment {
            None => true,
            Some((index, total)) => index + 1 == total,
        },
        None => false,
    }
}

/// `ackable_ids` grows on the right one message at a time.
pub proof fn lemma_ackable_ids_push(ms: Seq<WireMessageView>, m: WireMessageView)
    ensures
        ackable_ids(ms.push(m)) == ackable_ids(ms) + (if is_ackable(m) {
            seq![m.id->0]
        } else {
            Seq::<u16>::empty()
        }),
    decreases ms.len(),
{
    let tailpart: Seq<u16> = if is_ackable(m) {
        seq![m.id->0]
    } else {
        Seq::<u16>::empty()
    };
    assert(ackable_ids(Seq::<WireMessageView>::empty()) == Seq::<u16>::empty());
    if ms.len() == 0 {
        assert(ms.push(m).drop_first() =~= Seq::<WireMessageView>::empty());
        assert(ms.push(m)[0] == m);
        assert(ackable_ids(ms.push(m)) =~= ackable_ids(ms) + tailpart);
    } else {
        assert(ms.push(m).drop_first() =~= ms.drop_first().push(m));
        lemma_ackable_ids_push(ms.drop_first(), m);
        assert(ms.push(m)[0] == ms[0]);
        assert(ackable_ids(ms.push(m)) =~= ackable_ids(ms) + tailpart);
    }
}

/// The ids of the messages (those that carry one) in a run of framed
/// messages, in order.
pub open spec fn some_ids(ms: Seq<WireMessageView>) -> Seq<u16>
    decreases ms.len(),
{
    if ms.len() == 0 {
        Seq::empty()
    } else {
        let rest = some_ids(ms.drop_first());
        match ms[0].id {
            Some(id) => seq![id] + rest,
            None => rest,
        }
    }
}

/// Serializes messages into MTU-bounded datagrams and resolves incoming
/// ack headers; one per connection.
pub struct PacketManager {
    /// Packet id the next emitted datagram will carry.
    pub next_packet_id: u16,
    /// Newest packet id received from the peer, if any.
    pub latest_received: Option<u16>,
    /// Every packet id received from the peer, each once.
    pub received_history: Vec<u16>,
    /// Channel blocks of the datagram under construction.
    pub building: Vec<ChannelBlock>,
    /// Exact framed size of the datagram under construction.
    pub building_size: usize,
    /// `(channel, message)` pairs the datagram under construction carries.
    pub building_acks: Vec<(u16, u16)>,
    /// For each unacknowledged sent datagram, what it carried.
    pub sent_packets: Vec<SentRecord>,
}

impl PacketManager {
    /// The block values of the datagram under construction.
    pub open spec fn building_views(self) -> Seq<ChannelBlockView> {
        self.building@.map_values(|b: ChannelBlock| b@)
    }

    /// The sent-record values.
    pub open spec fn sent_views(self) -> Seq<(u16, Seq<(u16, u16)>)> {
        self.sent_packets@.map_values(|r: SentRecord| (r.0, r.1@))
    }

    /// The datagram under construction is consistently sized, stays
    /// within the MTU, and every received id is recorded once and not
    /// newer than `latest_received`.
    pub open spec fn wf(self) -> bool {
        &&& self.building_size == HEADER_BYTES as int + blocks_bytes(self.building_views()).len()
        &&& self.building_size <= MTU
        &&& self.building@.len() <= 255
        &&& forall|i: int|
            0 <= i < self.building@.len() ==> block_wf(#[trigger] self.building_views()[i])
        &&& forall|i: int, j: int|
            0 <= i < j < self.received_history@.len() ==> self.received_history@[i]
                != self.received_history@[j]
        &&& (self.latest_received is None ==> self.received_history@.len() == 0)
    }

    /// A fresh manager: packet ids start at 1 so that the bootstrap ack
    /// header (which names id 0 before anything was received) touches no
    /// real record until the id space has wrapped once.
    pub fn new() -> (r: PacketManager)
        ensures
            r.wf(),
            r.next_packet_id == 1,
            r.latest_received is None,
            r.received_history@.len() == 0,
            r.building_views() =~= Seq::<ChannelBlockView>::empty(),
            r.building_acks@.len() == 0,
            r.sent_views() =~= Seq::<(u16, Seq<(u16, u16)>)>::empty(),
    {
        let r = PacketManager {
            next_packet_id: 1,
            latest_received: None,
            received_history: Vec::new(),
            building: Vec::new(),
            building_size: HEADER_BYTES,
            building_acks: Vec::new(),
            sent_packets: Vec::new(),
        };
        proof {
            assert(blocks_bytes(r.building_views()).len() == 0);
        }
        r
    }

    /// Record receipt of a peer datagram with the given packet id.
    /// Receiving an id again changes nothing.
    pub fn record_received(&mut self, packet_id: u16)
        requires
            old(self).wf(),
        ensures
            final(self).wf(),
            old(self).received_history@.contains(packet_id) ==> *final(self) == *old(self),
            !old(self).received_history@.contains(packet_id) ==> {
                &&& final(self).received_history@ == old(self).received_history@.push(packet_id)
                &&& final(self).latest_received == (match old(self).latest_received {
                    None => Some(packet_id),
                    Some(l) => if wrap_gt(packet_id, l) {
                        Some(packet_id)
                    } else {
                        Some(l)
                    },
                })
            },
            final(self).next_packet_id == old(self).next_packet_id,
            final(self).building == old(self).building,
            final(self).building_size == old(self).building_size,
            final(self).building_acks == old(self).building_acks,
            final(self).sent_packets == old(self).sent_packets,
    {
        let already = crate::acks::contains_u16(&self.received_history, packet_id);
        if already {
            return;
        }
        self.received_history.push(packet_id);
        match self.latest_received {
            None => {
                self.latest_received = Some(packet_id);
            },
            Some(l) => {
                if wrapping_gt(packet_id, l) {
                    self.latest_received = Some(packet_id);
                } else {
                    proof {
                        crate::wrapping::lemma_wrap_diff_zero(packet_id, l);
                    }
                }
            },
        }
    }

    /// Resolve an incoming ack header: drop the records of every packet
    /// id it acknowledges and hand back the `(channel, message)` pairs
    /// those packets carried. Replaying a header finds no records and
    /// hands back nothing.
    pub fn notify_acks(&mut self, last_ack: u16, bits: &Vec<bool>) -> (acked: Vec<(u16, u16)>)
        requires
            old(self).wf(),
            bits@.len() == 32,
        ensures
            final(self).wf(),
            final(self).sent_views() == sent_after_acks(
                old(self).sent_views(),
                acked_ids_of(last_ack, bits@),
            ),
            acked@ == acked_msgs_all(old(self).sent_views(), acked_ids_of(last_ack, bits@)),
            final(self).next_packet_id == old(self).next_packet_id,
            final(self).latest_received == old(self).latest_received,
            final(self).received_history == old(self).received_history,
            final(self).building == old(self).building,
            final(self).building_size == old(self).building_size,
            final(self).building_acks == old(self).building_acks,
    {
        let ids = resolve_acks(last_ack, bits);
        let ghost orig_sent = self.sent_views();
        let ghost all_ids = ids@;
        let mut acked: Vec<(u16, u16)> = Vec::new();
        let n = ids.len();
        proof {
            assert(all_ids.skip(0) =~= all_ids);
            assert(Seq::<(u16, u16)>::empty() + acked_msgs_all(orig_sent, all_ids)
                =~= acked_msgs_all(orig_sent, all_ids));
        }
        let mut k: usize = 0;
        while k < n
            invariant
                old(self).wf(),
                n == all_ids.len(),
                k <= n,
                self.wf(),
                ids@ == all_ids,
                sent_after_acks(orig_sent, all_ids) == sent_after_acks(
                    self.sent_views(),
                    all_ids.skip(k as int),
                ),
                acked_msgs_all(orig_sent, all_ids) == acked@ + acked_msgs_all(
                    self.sent_views(),
                    all_ids.skip(k as int),
                ),
                self.next_packet_id == old(self).next_packet_id,
                self.latest_received == old(self).latest_received,
                self.received_history == old(self).received_history,
                self.building == old(self).building,
                self.building_size == old(self).building_size,
                self.building_acks == old(self).building_acks,
            decreases n - k,
        {
            let id = ids[k];
            let ghost pre_sent = self.sent_views();
            let got = self.drop_acked(id);
            let ghost pre_acked = acked@;
            let m = got.len();
            let mut t: usize = 0;
            while t < m
                invariant
                    m == got@.len(),
                    t <= m,
                    acked@ == pre_acked + got@.take(t as int),
                decreases m - t,
            {
                acked.push(got[t]);
                proof {
                    assert(pre_acked + got@.take(t + 1) =~= (pre_acked + got@.take(t as int)).push(
                        got@[t as int],
                    ));
                }
                t += 1;
            }
            proof {
                assert(got@.take(m as int) =~= got@);
                assert(all_ids.skip(k as int)[0] == all_ids[k as int]);
                assert(all_ids.skip(k as int).drop_first() =~= all_ids.skip(k + 1));
                assert(acked_msgs_all(orig_sent, all_ids) == (pre_acked + got@) + acked_msgs_all(
                    self.sent_views(),
                    all_ids.skip(k + 1),
                ));
                assert(acked@ =~= pre_acked + got@);
            }
            k += 1;
        }
        proof {
            assert(all_ids.skip(n as int) =~= Seq::<u16>::empty());
        }
        acked
    }

    /// Drop every sent record whose packet id is `id` and hand back, in
    /// order, the `(channel, message)` pairs those records carried.
    fn drop_acked(&mut self, id: u16) -> (got: Vec<(u16, u16)>)
        ensures
            final(self).sent_views() == sent_after_ack(old(self).sent_views(), id),
            got@ == acked_msgs(old(self).sent_views(), id),
            final(self).next_packet_id == old(self).next_packet_id,
            final(self).latest_received == old(self).latest_received,
            final(self).received_history == old(self).received_history,
            final(self).building == old(self).building,
            final(self).building_size == old(self).building_size,
            final(self).building_acks == old(self).building_acks,
    {
        let ghost sent0 = self.sent_views();
        let mut keep: Vec<SentRecord> = Vec::new();
        let mut got: Vec<(u16, u16)> = Vec::new();
        while self.sent_packets.len() > 0
            invariant
                sent_after_ack(sent0, id) == keep@.map_values(|r: SentRecord| (r.0, r.1@))
                    + sent_after_ack(self.sent_views(), id),
                acked_msgs(sent0, id) == got@ + acked_msgs(self.sent_views(), id),
                self.next_packet_id == old(self).next_packet_id,
                self.latest_received == old(self).latest_received,
                self.received_history == old(self).received_history,
                self.building == old(self).building,
                self.building_size == old(self).building_size,
                self.building_acks == old(self).building_acks,
            decreases self.sent_packets@.len(),
        {
            let ghost before = self.sent_views();
            let entry = self.sent_packets.remove(0);
            proof {
                assert(self.sent_views() =~= before.drop_first());
                assert(before[0] == (entry.0, entry.1@));
            }
            if entry.0 == id {
                let ghost got0 = got@;
                let m = entry.1.len();
                let mut t: usize = 0;
                while t < m
                    invariant
                        m == entry.1@.len(),
                        t <= m,
                        got@ == got0 + entry.1@.take(t as int),
                    decreases m - t,
                {
                    got.push(entry.1[t]);
                    proof {
                        assert(got0 + entry.1@.take(t + 1) =~= (got0 + entry.1@.take(
                            t as int,
                        )).push(entry.1@[t as int]));
                    }
                    t += 1;
                }
                proof {
                    assert(entry.1@.take(m as int) =~= entry.1@);
                    assert(got@ =~= got0 + entry.1@);
                    assert(got0 + (entry.1@ + acked_msgs(before.drop_first(), id)) =~= (got0
                        + entry.1@) + acked_msgs(before.drop_first(), id));
                }
            } else {
                let ghost keep0 = keep@.map_values(|r: SentRecord| (r.0, r.1@));
                keep.push(entry);
                proof {
                    assert(keep@.map_values(|r: SentRecord| (r.0, r.1@)) =~= keep0.push(
                        (entry.0, entry.1@),
                    ));
                    assert(keep0 + (seq![(entry.0, entry.1@)] + sent_after_ack(
                        before.drop_first(),
                        id,
                    )) =~= keep0.push((entry.0, entry.1@)) + sent_after_ack(
                        before.drop_first(),
                        id,
                    ));
                }
            }
        }
        proof {
            assert(self.sent_views() =~= Seq::<(u16, Seq<(u16, u16)>)>::empty());
            assert(sent_after_ack(self.sent_views(), id) =~= Seq::<(u16, Seq<(u16, u16)>)>::empty());
            assert(acked_msgs(self.sent_views(), id) =~= Seq::<(u16, u16)>::empty());
            assert(keep@.map_values(|r: SentRecord| (r.0, r.1@)) + Seq::<(
                u16,
                Seq<(u16, u16)>,
            )>::empty() =~= keep@.map_values(|r: SentRecord| (r.0, r.1@)));
            assert(got@ + Seq::<(u16, u16)>::empty() =~= got@);
        }
        self.sent_packets = keep;
        got
    }

    /// Append the queued messages of one channel to the datagram under
    /// construction, greedily from the front while the framed bytes fit
    /// (six bytes are reserved for the block's own header). Returns the
    /// messages that did not fit, in order, and the ids of those that
    /// did.
    #[verifier::rlimit(100)]
    pub fn pack_messages_within_channel(
        &mut self,
        channel_id: u16,
        msgs: Vec<MessageContainer>,
    ) -> (r: (Vec<MessageContainer>, Vec<MessageId>))
        requires
            old(self).wf(),
            old(self).building@.len() < 255,
            forall|i: int| 0 <= i < msgs@.len() ==> wm_wf(#[trigger] mcs_view(msgs@)[i]),
        ensures
            final(self).wf(),
            pack_transition(
                *old(self),
                *final(self),
                channel_id,
                mcs_view(msgs@),
                mcs_view(r.0@),
                r.1@.map_values(|i: MessageId| i.0),
            ),
            final(self).next_packet_id == old(self).next_packet_id,
            final(self).latest_received == old(self).latest_received,
            final(self).received_history == old(self).received_history,
            final(self).sent_packets == old(self).sent_packets,
    {
        proof {
            lemma_greedy_fit_bounds(mcs_view(msgs@), pack_budget(old(self).building_size as int));
        }
        let ghost orig = mcs_view(msgs@);
        let ghost budget0 = pack_budget(old(self).building_size as int);
        let budget_total = MTU - self.building_size;
        let mut budget_left: usize = if budget_total < 6 {
            0
        } else {
            budget_total - 6
        };
        let mut remaining = msgs;
        let mut taken: Vec<WireMessage> = Vec::new();
        let mut sent: Vec<MessageId> = Vec::new();
        let ghost acks0 = self.building_acks@;
        let mut used: usize = 0;
        proof {
            assert(orig.skip(0) =~= orig);
            assert(orig.take(0) =~= Seq::<WireMessageView>::empty());
            assert(budget0 <= MTU as int);
            assert(some_ids(Seq::<WireMessageView>::empty()) == Seq::<u16>::empty());
            assert(messages_bytes(Seq::<WireMessageView>::empty()).len() == 0);
            assert(taken@.map_values(|w: WireMessage| w@) =~= Seq::<WireMessageView>::empty());
            assert(acks0 + Seq::<u16>::empty().map_values(|id: u16| (channel_id, id)) =~= acks0);
            assert(ackable_ids(Seq::<WireMessageView>::empty()) == Seq::<u16>::empty());
            assert(sent@.map_values(|i: MessageId| i.0) =~= Seq::<u16>::empty());
        }
        while remaining.len() > 0 && message_size(&remaining[0]) <= budget_left
            invariant
                self.wf(),
                forall|i: int| 0 <= i < orig.len() ==> wm_wf(#[trigger] orig[i]),
                taken@.len() + remaining@.len() == orig.len(),
                taken@.map_values(|w: WireMessage| w@) == orig.take(taken@.len() as int),
                mcs_view(remaining@) == orig.skip(taken@.len() as int),
                used == messages_bytes(orig.take(taken@.len() as int)).len(),
                budget_left == budget0 - used,
                used <= budget0 <= MTU,
                greedy_fit(orig, budget0) == taken@.len() + greedy_fit(
                    mcs_view(remaining@),
                    budget_left as int,
                ),
                sent@.map_values(|i: MessageId| i.0) == some_ids(orig.take(taken@.len() as int)),
                self.building_acks@ == acks0 + ackable_ids(
                    orig.take(taken@.len() as int),
                ).map_values(|id: u16| (channel_id, id)),
                self.building == old(self).building,
                self.building_size == old(self).building_size,
                self.next_packet_id == old(self).next_packet_id,
                self.latest_received == old(self).latest_received,
                self.received_history == old(self).received_history,
                self.sent_packets == old(self).sent_packets,
            decreases remaining@.len(),
        {
            proof {
                assert(mcs_view(remaining@)[0] == mc_view(remaining@[0]));
                assert(wm_wf(mc_view(remaining@[0])));
            }
            let sz = message_size(&remaining[0]);
            let ghost count0 = taken@.len() as int;
            let ghost old_rem = remaining@;
            let m = remaining.remove(0);
            proof {
                assert(remaining@ =~= old_rem.drop_first());
                assert(mcs_view(old_rem.drop_first()) =~= mcs_view(old_rem).drop_first());
                assert(mcs_view(remaining@) =~= orig.skip(count0 + 1));
            }
            match &m.id {
                Some(id) => {
                    sent.push(MessageId(id.0));
                    let ackable = match &m.fragment {
                        None => true,
                        Some(f) => f.0 as u32 + 1 == f.1 as u32,
                    };
                    if ackable {
                        self.building_acks.push((channel_id, id.0));
                    }
                },
                None => {},
            }
            let w = mc_to_wire(m);
            taken.push(w);
            proof {
                assert(used + sz <= budget0);
            }
            used = used + sz;
            budget_left = budget_left - sz;
            proof {
                assert(orig.take(count0 + 1) =~= orig.take(count0).push(orig[count0]));
                assert(taken@.map_values(|w2: WireMessage| w2@) =~= orig.take(count0).push(
                    orig[count0],
                ));
                lemma_messages_bytes_push(orig.take(count0), orig[count0]);
                lemma_some_ids_push(orig.take(count0), orig[count0]);
                lemma_ackable_ids_push(orig.take(count0), orig[count0]);
                assert(sent@.map_values(|i: MessageId| i.0) =~= some_ids(orig.take(count0 + 1)));
                assert(self.building_acks@ =~= acks0 + ackable_ids(
                    orig.take(count0 + 1),
                ).map_values(|id: u16| (channel_id, id)));
                assert(orig.skip(count0)[0] == orig[count0]);
                assert(orig.skip(count0).drop_first() =~= orig.skip(count0 + 1));
            }
        }
        let k = taken.len();
        proof {
            if remaining@.len() > 0 {
                assert(mcs_view(remaining@)[0] == mc_view(remaining@[0]));
                assert(mcs_view(remaining@)[0] == orig[k as int]);
                assert(message_bytes(orig[k as int]).len() > budget_left as int);
                assert(greedy_fit(mcs_view(remaining@), budget_left as int) == 0);
            } else {
                assert(mcs_view(remaining@) =~= Seq::<WireMessageView>::empty());
            }
            assert(greedy_fit(orig, budget0) == k);
        }
        if k > 0 {
            let count = k as u16;
            let bsize = varint_len_of(channel_id) + varint_len_of(count) + used;
            let ghost new_block = ChannelBlockView {
                channel_id,
                messages: orig.take(k as int),
            };
            let block = ChannelBlock { channel_id, messages: taken };
            proof {
                assert(block@.messages =~= new_block.messages);
                lemma_blocks_bytes_push(self.building_views(), new_block);
                assert(self.building@.push(block).map_values(|b: ChannelBlock| b@)
                    =~= self.building_views().push(new_block));
                assert(block_bytes(new_block).len() == varint_bytes(channel_id).len()
                    + varint_bytes(count).len() + used);
            }
            self.building.push(block);
            self.building_size = self.building_size + bsize;
        }
        (remaining, sent)
    }

    /// Emit the datagram under construction: stamp the next packet id,
    /// the given tick and the current ack header, reset the builder, and
    /// record what the datagram carried for later ack resolution.
    pub fn finish_packet(&mut self, tick: u16) -> (bytes: Vec<u8>)
        requires
            old(self).wf(),
        ensures
            final(self).wf(),
            ({
                let last_ack = match old(self).latest_received {
                    Some(l) => l,
                    None => 0u16,
                };
                let pv = PacketView {
                    packet_id: old(self).next_packet_id,
                    last_ack_packet_id: last_ack,
                    ack_bitfield: bits_val(
                        ack_bits_spec(last_ack, old(self).received_history@),
                    ) as u32,
                    tick,
                    channels: old(self).building_views(),
                };
                &&& bytes@ == packet_bytes(pv)
                &&& bytes@.len() == old(self).building_size
            }),
            final(self).next_packet_id == wrap_next(old(self).next_packet_id),
            final(self).building_views() =~= Seq::<ChannelBlockView>::empty(),
            final(self).building_size == HEADER_BYTES,
            final(self).building_acks@.len() == 0,
            final(self).sent_views() == old(self).sent_views().push(
                (old(self).next_packet_id, old(self).building_acks@),
            ),
            final(self).latest_received == old(self).latest_received,
            final(self).received_history == old(self).received_history,
    {
        let last_ack: u16 = match self.latest_received {
            Some(l) => l,
            None => 0,
        };
        let bits = make_ack_bits(last_ack, &self.received_history);
        proof {
            assert(bits@ =~= ack_bits_spec(last_ack, self.received_history@));
        }
        let bitfield = bits_to_u32(&bits);
        let mut blocks: Vec<ChannelBlock> = Vec::new();
        core::mem::swap(&mut blocks, &mut self.building);
        let packet = Packet {
            packet_id: self.next_packet_id,
            last_ack_packet_id: last_ack,
            ack_bitfield: bitfield,
            tick,
            channels: blocks,
        };
        let bytes = encode_packet(&packet);
        let mut acks: Vec<(u16, u16)> = Vec::new();
        core::mem::swap(&mut acks, &mut self.building_acks);
        let ghost sent_before = self.sent_views();
        self.sent_packets.push((self.next_packet_id, acks));
        proof {
            assert(self.sent_views() =~= sent_before.push(
                (self.next_packet_id, old(self).building_acks@),
            ));
        }
        self.next_packet_id = wrapping_next(self.next_packet_id);
        self.building_size = HEADER_BYTES;
        proof {
            assert(self.building_views() =~= Seq::<ChannelBlockView>::empty());
            assert(blocks_bytes(self.building_views()).len() == 0);
        }
        bytes
    }
}

/// What `pack_messages_within_channel` does, as a relation between the
/// manager before and after: with `k` messages fitting the budget
/// greedily, the first `k` become a new channel block, their ids are
/// reported and recorded for ack tracking, the rest are handed back,
/// and a message that did not fit would overflow the datagram.
pub open spec fn pack_transition(
    pm0: PacketManager,
    pm1: PacketManager,
    channel_id: u16,
    ms: Seq<WireMessageView>,
    rem: Seq<WireMessageView>,
    sent: Seq<u16>,
) -> bool {
    let k = greedy_fit(ms, pack_budget(pm0.building_size as int));
    &&& rem == ms.skip(k)
    &&& sent == some_ids(ms.take(k))
    &&& pm1.building_views() == (if k > 0 {
        pm0.building_views().push(ChannelBlockView { channel_id, messages: ms.take(k) })
    } else {
        pm0.building_views()
    })
    &&& pm1.building_acks@ == pm0.building_acks@ + ackable_ids(ms.take(k)).map_values(
        |id: u16| (channel_id, id),
    )
    &&& (k < ms.len() ==> message_bytes(ms[k]).len() + pm1.building_size + 6 > MTU)
}

/// Greedy packing takes at most as many messages as there are, and at
/// most one per budget byte.
pub proof fn lemma_greedy_fit_bounds(ms: Seq<WireMessageView>, budget: int)
    ensures
        0 <= greedy_fit(ms, budget) <= ms.len(),
        budget >= 0 ==> greedy_fit(ms, budget) <= budget,
    decreases ms.len(),
{
    if ms.len() > 0 {
        let sz = message_bytes(ms[0]).len() as int;
        lemma_greedy_fit_bounds(ms.drop_first(), budget - sz);
    }
}

/// The space pack leaves for a new block's messages: the MTU less what
/// the datagram already holds and six bytes reserved for the block
/// header.
pub open spec fn pack_budget(building_size: int) -> int {
    if MTU - building_size < 6 {
        0
    } else {
        MTU - building_size - 6
    }
}

/// How many messages of `ms` fit, greedily from the front, into `budget`
/// bytes.
pub open spec fn greedy_fit(ms: Seq<WireMessageView>, budget: int) -> int
    decreases ms.len(),
{
    if ms.len() == 0 {
        0
    } else {
        let sz = message_bytes(ms[0]).len() as int;
        if sz <= budget {
            1 + greedy_fit(ms.drop_first(), budget - sz)
        } else {
            0
        }
    }
}

/// `some_ids` grows on the right one message at a time.
pub proof fn lemma_some_ids_push(ms: Seq<WireMessageView>, m: WireMessageView)
    ensures
        some_ids(ms.push(m)) == some_ids(ms) + (match m.id {
            Some(id) => seq![id],
            None => Seq::<u16>::empty(),
        }),
    decreases ms.len(),
{
    let tailpart: Seq<u16> = match m.id {
        Some(id) => seq![id],
        None => Seq::<u16>::empty(),
    };
    assert(some_ids(Seq::<WireMessageView>::empty()) == Seq::<u16>::empty());
    if ms.len() == 0 {
        assert(ms.push(m).drop_first() =~= Seq::<WireMessageView>::empty());
        assert(ms.push(m)[0] == m);
        assert(some_ids(ms.push(m)) =~= some_ids(ms) + tailpart);
    } else {
        assert(ms.push(m).drop_first() =~= ms.drop_first().push(m));
        lemma_some_ids_push(ms.drop_first(), m);
        assert(ms.push(m)[0] == ms[0]);
        assert(some_ids(ms.push(m)) =~= some_ids(ms) + tailpart);
    }
}

/// Length of the canonical varint image.
pub fn varint_len_of(v: u16) -> (r: usize)
    ensures
        r == varint_bytes(v).len(),
{
    if v < 0x80 {
        1
    } else if v < 0x4000 {
        2
    } else {
        3
    }
}

/// Exact framed size of a container.
pub fn message_size(m: &MessageContainer) -> (r: usize)
    requires
        m.payload@.len() <= 0xffff,
    ensures
        r == message_bytes(mc_view(*m)).len(),
{
    let id_len: usize = if m.id.is_some() {
        2
    } else {
        0
    };
    let frag_len: usize = if m.fragment.is_some() {
        4
    } else {
        0
    };
    1 + id_len + frag_len + varint_len_of(m.payload.len() as u16) + m.payload.len()
}

/// Turn a container into the wire message it frames as.
pub fn mc_to_wire(m: MessageContainer) -> (w: WireMessage)
    ensures
        w@ == mc_view(m),
{
    WireMessage {
        id: match &m.id {
            Some(i) => Some(i.0),
            None => None,
        },
        fragment: m.fragment,
        payload: m.payload,
    }
}

} // verus!
