//! The sending half of a channel.
//!
//! Three policies share one interface: unordered-unreliable (a plain
//! FIFO), sequenced-unreliable (the FIFO plus an incrementing message id
//! stamped at collect time), and reliable (an ordered window of unacked
//! messages, resent until acknowledged). A sender buffers messages,
//! collects the ones due for (re)sending into its outgoing queue, hands
//! that queue to the packet manager for framing, and — for the reliable
//! policy — drops a message for good only when its id is acknowledged.
//!
//! A message is one unacked entry under one id, however large its
//! payload. A payload wider than one fragment enters the outgoing
//! queue, at collect time, as consecutive slices of at most `MAX_FRAG`
//! bytes, every slice under the message's one id with its
//! `(index, total)` tag, so each slice fits a datagram; the message
//! counts as sent for ack tracking only once its final slice is framed.

use vstd::prelude::*;
use vstd::pervasive::VecAdditionalExecFns;
use crate::message::{copy_bytes, mc_view, mcs_view, MessageContainer, MessageId};
use crate::packet::{WireMessageView, MAX_FRAG};
use crate::packet_manager::{greedy_fit, pack_budget, pack_transition, some_ids, PacketManager};
use crate::wrapping::wrap_next;

verus! {

/// Settings of a reliable channel.
#[derive(Clone, Copy, Debug, PartialEq, Eq, Structural)]
pub struct ReliableSettings {
    /// Resend factor in hundredths: 150 means a message is resent when
    /// more than 1.5 times the round-trip time has passed since it was
    /// last sent.
    pub rtt_resend_factor_hundredths: u64,
}

/// A message that has not been acknowledged yet.
pub struct UnackedMessage {
    pub message: MessageContainer,
    /// `None`: never sent; otherwise the clock reading of the last send.
    pub last_sent: Option<u64>,
}

/// The mathematical value of an unacked entry.
pub struct UnackedView {
    pub id: u16,
    pub last_sent: Option<u64>,
    pub msg: WireMessageView,
}

/// The id `a` advanced `n` steps on the 16-bit circle.
pub open spec fn wrap_add(a: u16, n: int) -> u16 {
    ((a + n) % 0x10000) as u16
}

/// Advancing one more step is the successor on the circle.
pub proof fn lemma_wrap_add_next(a: u16, n: int)
    requires
        n >= 0,
    ensures
        wrap_add(a, n + 1) == wrap_next(wrap_add(a, n)),
        wrap_add(a, 0) == a,
{
    vstd::arithmetic::div_mod::lemma_mod_bound(a + n, 0x10000);
    vstd::arithmetic::div_mod::lemma_small_mod(a as nat, 0x10000);
    vstd::arithmetic::div_mod::lemma_small_mod(1, 0x10000);
    vstd::arithmetic::div_mod::lemma_add_mod_noop(a + n, 1, 0x10000);
    let w = (a + n) % 0x10000;
    if w == 0xffff {
        vstd::arithmetic::div_mod::lemma_small_mod(0, 0x10000);
        assert((w + 1) % 0x10000 == 0) by (nonlinear_arith)
            requires w == 0xffff;
    } else {
        vstd::arithmetic::div_mod::lemma_small_mod((w + 1) as nat, 0x10000);
    }
}

/// The payload slices a message is sent as: one slice when it fits a
/// fragment, otherwise consecutive `MAX_FRAG`-byte slices with a shorter
/// last one.
pub open spec fn frag_slices(p: Seq<u8>) -> Seq<Seq<u8>>
    decreases p.len(),
{
    if p.len() <= MAX_FRAG {
        seq![p]
    } else {
        seq![p.take(MAX_FRAG as int)] + frag_slices(p.skip(MAX_FRAG as int))
    }
}

/// Concatenation of a run of byte slices.
pub open spec fn concat_all(ss: Seq<Seq<u8>>) -> Seq<u8>
    decreases ss.len(),
{
    if ss.len() == 0 {
        Seq::empty()
    } else {
        ss[0] + concat_all(ss.drop_first())
    }
}

/// The slices of a payload, concatenated, are the payload.
pub proof fn lemma_frag_slices_concat(p: Seq<u8>)
    ensures
        concat_all(frag_slices(p)) == p,
        frag_slices(p).len() >= 1,
        forall|i: int|
            0 <= i < frag_slices(p).len() ==> #[trigger] frag_slices(p)[i].len() <= MAX_FRAG,
    decreases p.len(),
{
    assert(concat_all(Seq::<Seq<u8>>::empty()) == Seq::<u8>::empty());
    if p.len() <= MAX_FRAG {
        assert(frag_slices(p)[0] == p);
        assert(frag_slices(p).drop_first() =~= Seq::<Seq<u8>>::empty());
        assert(concat_all(frag_slices(p)) == p + concat_all(Seq::<Seq<u8>>::empty()));
        assert(concat_all(frag_slices(p)) =~= p);
    } else {
        lemma_frag_slices_concat(p.skip(MAX_FRAG as int));
        assert(frag_slices(p).drop_first() =~= frag_slices(p.skip(MAX_FRAG as int)));
        assert(frag_slices(p)[0] == p.take(MAX_FRAG as int));
        assert(p.take(MAX_FRAG as int) + p.skip(MAX_FRAG as int) =~= p);
        assert(concat_all(frag_slices(p)) =~= p);
        assert forall|i: int| 0 <= i < frag_slices(p).len() implies #[trigger] frag_slices(
            p,
        )[i].len() <= MAX_FRAG by {
            if i > 0 {
                assert(frag_slices(p)[i] == frag_slices(p.skip(MAX_FRAG as int))[i - 1]);
            }
        }
    }
}

/// The wire messages one message expands to when collected: a single
/// stamped message when the payload fits one fragment, else the
/// payload's consecutive slices, every one carrying the message's one
/// id and its `(index, total)` tag.
pub open spec fn frag_msgs(id: u16, p: Seq<u8>) -> Seq<WireMessageView> {
    let slices = frag_slices(p);
    Seq::new(
        slices.len(),
        |i: int| WireMessageView {
            id: Some(id),
            fragment: if slices.len() == 1 {
                None
            } else {
                Some((i as u16, slices.len() as u16))
            },
            payload: slices[i],
        },
    )
}

/// Insert an entry: replace the first entry with the same id, or append.
pub open spec fn upsert(es: Seq<UnackedView>, e: UnackedView) -> Seq<UnackedView>
    decreases es.len(),
{
    if es.len() == 0 {
        seq![e]
    } else if es[0].id == e.id {
        seq![e] + es.drop_first()
    } else {
        seq![es[0]] + upsert(es.drop_first(), e)
    }
}

/// Whether an entry is due for (re)sending at `now` under `delay`.
pub open spec fn due_for_send(e: UnackedView, now: u64, delay: int) -> bool {
    match e.last_sent {
        None => true,
        Some(t) => now - t > delay,
    }
}

/// The entry as collect leaves it: stamped with its id when due. The
/// send time is untouched here; it is set at `send_packet`, when the
/// message is actually framed.
pub open spec fn collect_entry(e: UnackedView, now: u64, delay: int) -> UnackedView {
    if due_for_send(e, now, delay) {
        UnackedView {
            id: e.id,
            last_sent: e.last_sent,
            msg: WireMessageView { id: Some(e.id), fragment: e.msg.fragment, payload: e.msg.payload },
        }
    } else {
        e
    }
}

/// All entries as collect leaves them.
pub open spec fn after_collect(es: Seq<UnackedView>, now: u64, delay: int) -> Seq<UnackedView> {
    Seq::new(es.len(), |i: int| collect_entry(es[i], now, delay))
}

/// The ids collect newly queues, in entry order: due and not queued yet.
pub open spec fn newly_queued(es: Seq<UnackedView>, already: Seq<u16>, now: u64, delay: int) -> Seq<
    u16,
>
    decreases es.len(),
{
    if es.len() == 0 {
        Seq::empty()
    } else {
        let rest = newly_queued(es.drop_first(), already, now, delay);
        if due_for_send(es[0], now, delay) && !already.contains(es[0].id) {
            seq![es[0].id] + rest
        } else {
            rest
        }
    }
}

/// The wire messages collect newly queues, in entry order: each newly
/// queued message contributes its whole expansion, fragment slices
/// sharing its id.
pub open spec fn queued_msgs(es: Seq<UnackedView>, already: Seq<u16>, now: u64, delay: int) -> Seq<
    WireMessageView,
>
    decreases es.len(),
{
    if es.len() == 0 {
        Seq::empty()
    } else {
        let rest = queued_msgs(es.drop_first(), already, now, delay);
        if due_for_send(es[0], now, delay) && !already.contains(es[0].id) {
            frag_msgs(es[0].id, es[0].msg.payload) + rest
        } else {
            rest
        }
    }
}

/// `newly_queued` grows on the right one entry at a time.
pub proof fn lemma_newly_queued_push(
    es: Seq<UnackedView>,
    e: UnackedView,
    already: Seq<u16>,
    now: u64,
    delay: int,
)
    ensures
        newly_queued(es.push(e), already, now, delay) == newly_queued(es, already, now, delay) + (
        if due_for_send(e, now, delay) && !already.contains(e.id) {
            seq![e.id]
        } else {
            Seq::<u16>::empty()
        }),
        queued_msgs(es.push(e), already, now, delay) == queued_msgs(es, already, now, delay) + (
        if due_for_send(e, now, delay) && !already.contains(e.id) {
            frag_msgs(e.id, e.msg.payload)
        } else {
            Seq::<WireMessageView>::empty()
        }),
    decreases es.len(),
{
    assert(newly_queued(Seq::<UnackedView>::empty(), already, now, delay) == Seq::<u16>::empty());
    assert(queued_msgs(Seq::<UnackedView>::empty(), already, now, delay)
        == Seq::<WireMessageView>::empty());
    if es.len() == 0 {
        assert(es.push(e).drop_first() =~= Seq::<UnackedView>::empty());
        assert(es.push(e)[0] == e);
        assert(newly_queued(es.push(e), already, now, delay) =~= newly_queued(
            es,
            already,
            now,
            delay,
        ) + (if due_for_send(e, now, delay) && !already.contains(e.id) {
            seq![e.id]
        } else {
            Seq::<u16>::empty()
        }));
        assert(queued_msgs(es.push(e), already, now, delay) =~= queued_msgs(
            es,
            already,
            now,
            delay,
        ) + (if due_for_send(e, now, delay) && !already.contains(e.id) {
            frag_msgs(e.id, e.msg.payload)
        } else {
            Seq::<WireMessageView>::empty()
        }));
    } else {
        assert(es.push(e).drop_first() =~= es.drop_first().push(e));
        lemma_newly_queued_push(es.drop_first(), e, already, now, delay);
        assert(es.push(e)[0] == es[0]);
        assert(newly_queued(es.push(e), already, now, delay) =~= newly_queued(
            es,
            already,
            now,
            delay,
        ) + (if due_for_send(e, now, delay) && !already.contains(e.id) {
            seq![e.id]
        } else {
            Seq::<u16>::empty()
        }));
        assert(queued_msgs(es.push(e), already, now, delay) =~= queued_msgs(
            es,
            already,
            now,
            delay,
        ) + (if due_for_send(e, now, delay) && !already.contains(e.id) {
            frag_msgs(e.id, e.msg.payload)
        } else {
            Seq::<WireMessageView>::empty()
        }));
    }
}

/// Every id `newly_queued` picks comes from an entry of `es`.
pub proof fn lemma_newly_queued_from(es: Seq<UnackedView>, already: Seq<u16>, now: u64, delay: int)
    ensures
        forall|x: u16|
            #[trigger] newly_queued(es, already, now, delay).contains(x) ==> exists|j: int|
                0 <= j < es.len() && es[j].id == x,
    decreases es.len(),
{
    if es.len() > 0 {
        lemma_newly_queued_from(es.drop_first(), already, now, delay);
        assert forall|x: u16| #[trigger] newly_queued(es, already, now, delay).contains(
            x,
        ) implies exists|j: int| 0 <= j < es.len() && es[j].id == x by {
            let rest = newly_queued(es.drop_first(), already, now, delay);
            if due_for_send(es[0], now, delay) && !already.contains(es[0].id) && x == es[0].id {
                assert(es[0].id == x);
            } else {
                assert(rest.contains(x));
                let j = choose|j: int| 0 <= j < es.drop_first().len() && es.drop_first()[j].id == x;
                assert(es[j + 1].id == x);
            }
        }
    }
}

/// The ids left after removing, one by one, the first occurrence of each
/// id in `rem`.
pub open spec fn remove_first(q: Seq<u16>, x: u16) -> Seq<u16>
    decreases q.len(),
{
    if q.len() == 0 {
        Seq::empty()
    } else if q[0] == x {
        q.drop_first()
    } else {
        seq![q[0]] + remove_first(q.drop_first(), x)
    }
}

/// Remove the first occurrence of each id of `rem`, in order.
pub open spec fn remove_all(q: Seq<u16>, rem: Seq<u16>) -> Seq<u16>
    decreases rem.len(),
{
    if rem.len() == 0 {
        q
    } else {
        remove_all(remove_first(q, rem[0]), rem.drop_first())
    }
}

/// Removing the first occurrence of an id keeps the rest distinct.
pub proof fn lemma_remove_first_distinct(q: Seq<u16>, x: u16)
    requires
        forall|i: int, j: int| 0 <= i < j < q.len() ==> q[i] != q[j],
    ensures
        forall|i: int, j: int|
            0 <= i < j < remove_first(q, x).len() ==> remove_first(q, x)[i] != remove_first(
                q,
                x,
            )[j],
    decreases q.len(),
{
    if q.len() > 0 {
        if q[0] == x {
        } else {
            assert(forall|i: int, j: int|
                0 <= i < j < q.drop_first().len() ==> q.drop_first()[i] != q.drop_first()[j]);
            lemma_remove_first_distinct(q.drop_first(), x);
            let r = seq![q[0]] + remove_first(q.drop_first(), x);
            assert forall|i: int, j: int| 0 <= i < j < r.len() implies r[i] != r[j] by {
                if i == 0 {
                    lemma_remove_first_from(q.drop_first(), x, j - 1);
                } else {
                    assert(r[i] == remove_first(q.drop_first(), x)[i - 1]);
                    assert(r[j] == remove_first(q.drop_first(), x)[j - 1]);
                }
            }
        }
    }
}

/// Every id left after a removal stood in the run before it.
pub proof fn lemma_remove_first_from(q: Seq<u16>, x: u16, j: int)
    requires
        0 <= j < remove_first(q, x).len(),
    ensures
        exists|i: int| 0 <= i < q.len() && q[i] == remove_first(q, x)[j],
    decreases q.len(),
{
    if q.len() > 0 {
        if q[0] == x {
            assert(q[j + 1] == remove_first(q, x)[j]);
        } else {
            if j == 0 {
                assert(q[0] == remove_first(q, x)[0]);
            } else {
                lemma_remove_first_from(q.drop_first(), x, j - 1);
                let i = choose|i: int|
                    0 <= i < q.drop_first().len() && q.drop_first()[i] == remove_first(
                        q.drop_first(),
                        x,
                    )[j - 1];
                assert(q[i + 1] == remove_first(q, x)[j]);
            }
        }
    }
}

/// Removing a run of ids keeps the rest distinct.
pub proof fn lemma_remove_all_distinct(q: Seq<u16>, ids: Seq<u16>)
    requires
        forall|i: int, j: int| 0 <= i < j < q.len() ==> q[i] != q[j],
    ensures
        forall|i: int, j: int|
            0 <= i < j < remove_all(q, ids).len() ==> remove_all(q, ids)[i] != remove_all(
                q,
                ids,
            )[j],
    decreases ids.len(),
{
    if ids.len() == 0 {
        assert(remove_all(q, ids) == q);
        assert forall|i: int, j: int|
            0 <= i < j < remove_all(q, ids).len() implies remove_all(q, ids)[i] != remove_all(
            q,
            ids,
        )[j] by {
            assert(q[i] != q[j]);
        }
    } else {
        lemma_remove_first_distinct(q, ids[0]);
        lemma_remove_all_distinct(remove_first(q, ids[0]), ids.drop_first());
        assert(remove_all(q, ids) == remove_all(remove_first(q, ids[0]), ids.drop_first()));
    }
}

/// The entries with one id marked as sent at `now`.
pub open spec fn mark_one(es: Seq<UnackedView>, id: u16, now: u64) -> Seq<UnackedView> {
    Seq::new(
        es.len(),
        |i: int| if es[i].id == id {
            UnackedView { id: es[i].id, last_sent: Some(now), msg: es[i].msg }
        } else {
            es[i]
        },
    )
}

/// The entries after every id of a run is marked as sent at `now`.
pub open spec fn mark_sent(es: Seq<UnackedView>, ids: Seq<u16>, now: u64) -> Seq<UnackedView>
    decreases ids.len(),
{
    if ids.len() == 0 {
        es
    } else {
        mark_sent(mark_one(es, ids[0], now), ids.drop_first(), now)
    }
}

/// The unacked entries left after id `id` is acknowledged.
pub open spec fn ack_entry(es: Seq<UnackedView>, id: u16) -> Seq<UnackedView>
    decreases es.len(),
{
    if es.len() == 0 {
        Seq::empty()
    } else {
        let rest = ack_entry(es.drop_first(), id);
        if es[0].id == id {
            rest
        } else {
            seq![es[0]] + rest
        }
    }
}

/// Acknowledging an id again changes nothing: duplicate acks are
/// idempotent on the sender.
pub proof fn lemma_ack_idempotent(es: Seq<UnackedView>, id: u16)
    ensures
        ack_entry(ack_entry(es, id), id) == ack_entry(es, id),
    decreases es.len(),
{
    if es.len() > 0 {
        lemma_ack_idempotent(es.drop_first(), id);
        if es[0].id == id {
        } else {
            assert((seq![es[0]] + ack_entry(es.drop_first(), id)).drop_first() =~= ack_entry(
                es.drop_first(),
                id,
            ));
            assert(ack_entry(seq![es[0]] + ack_entry(es.drop_first(), id), id) =~= seq![es[0]]
                + ack_entry(ack_entry(es.drop_first(), id), id));
        }
    }
}

/// Acknowledging one id touches nothing else: every other entry stays,
/// unchanged and in order, so a message lives in the window until its
/// own id is acknowledged.
pub proof fn lemma_ack_keeps_others(es: Seq<UnackedView>, id: u16)
    ensures
        forall|j: int|
            0 <= j < ack_entry(es, id).len() ==> exists|i: int|
                0 <= i < es.len() && es[i] == #[trigger] ack_entry(es, id)[j],
        forall|i: int|
            0 <= i < es.len() && (#[trigger] es[i]).id != id ==> ack_entry(es, id).contains(es[i]),
    decreases es.len(),
{
    if es.len() > 0 {
        lemma_ack_keeps_others(es.drop_first(), id);
        let rest = ack_entry(es.drop_first(), id);
        assert forall|j: int| 0 <= j < ack_entry(es, id).len() implies exists|i: int|
            0 <= i < es.len() && es[i] == #[trigger] ack_entry(es, id)[j] by {
            if es[0].id == id {
                let w = choose|w: int|
                    0 <= w < es.drop_first().len() && es.drop_first()[w] == rest[j];
                assert(es[w + 1] == ack_entry(es, id)[j]);
            } else {
                if j == 0 {
                    assert(es[0] == ack_entry(es, id)[0]);
                } else {
                    assert(ack_entry(es, id)[j] == rest[j - 1]);
                    let w = choose|w: int|
                        0 <= w < es.drop_first().len() && es.drop_first()[w] == rest[j - 1];
                    assert(es[w + 1] == ack_entry(es, id)[j]);
                }
            }
        }
        assert forall|i: int|
            0 <= i < es.len() && (#[trigger] es[i]).id != id implies ack_entry(es, id).contains(
            es[i],
        ) by {
            if i == 0 {
                if es[0].id == id {
                } else {
                    assert(ack_entry(es, id)[0] == es[0]);
                }
            } else {
                assert(es.drop_first()[i - 1] == es[i]);
                assert(rest.contains(es[i]));
                let w = choose|w: int| 0 <= w < rest.len() && rest[w] == es[i];
                if es[0].id == id {
                    assert(ack_entry(es, id)[w] == es[i]);
                } else {
                    assert(ack_entry(es, id)[w + 1] == es[i]);
                }
            }
        }
    }
}

/// An acknowledged id never reappears: after acknowledging `id`, no
/// entry carries it.
pub proof fn lemma_ack_removes(es: Seq<UnackedView>, id: u16)
    ensures
        forall|j: int|
            0 <= j < ack_entry(es, id).len() ==> #[trigger] ack_entry(es, id)[j].id != id,
    decreases es.len(),
{
    if es.len() > 0 {
        lemma_ack_removes(es.drop_first(), id);
    }
}

/// Slice a payload into its fragment-sized chunks, matching
/// `frag_slices` exactly; the chunk count fits a 16-bit total.
fn chunk_payload(payload: Vec<u8>) -> (r: Vec<Vec<u8>>)
    requires
        payload@.len() <= 0xffff * MAX_FRAG,
    ensures
        r@.map_values(|c: Vec<u8>| c@) == frag_slices(payload@),
        1 <= r@.len() <= 0xffff,
{
    let ghost payload0 = payload@;
    let ghost slices = frag_slices(payload0);
    let mut chunks: Vec<Vec<u8>> = Vec::new();
    let mut rest: Vec<u8> = payload;
    while rest.len() > MAX_FRAG
        invariant
            slices == chunks@.map_values(|c: Vec<u8>| c@) + frag_slices(rest@),
            forall|j: int| 0 <= j < chunks@.len() ==> #[trigger] chunks@[j]@.len() == MAX_FRAG,
            chunks@.len() * MAX_FRAG + rest@.len() == payload0.len(),
            chunks@.len() > 0 ==> rest@.len() >= 1,
        decreases rest@.len(),
    {
        let mut head: Vec<u8> = Vec::new();
        let mut i: usize = 0;
        while i < MAX_FRAG
            invariant
                rest@.len() > MAX_FRAG,
                i <= MAX_FRAG,
                head@ == rest@.take(i as int),
            decreases MAX_FRAG - i,
        {
            head.push(rest[i]);
            proof {
                assert(head@ =~= rest@.take(i + 1));
            }
            i += 1;
        }
        let mut tail: Vec<u8> = Vec::new();
        let mut j: usize = MAX_FRAG;
        let rn = rest.len();
        while j < rn
            invariant
                rn == rest@.len(),
                MAX_FRAG <= j <= rn,
                tail@ == rest@.subrange(MAX_FRAG as int, j as int),
            decreases rn - j,
        {
            tail.push(rest[j]);
            proof {
                assert(tail@ =~= rest@.subrange(MAX_FRAG as int, j + 1));
            }
            j += 1;
        }
        proof {
            assert(tail@ =~= rest@.skip(MAX_FRAG as int));
            assert(frag_slices(rest@) == seq![rest@.take(MAX_FRAG as int)] + frag_slices(
                rest@.skip(MAX_FRAG as int),
            ));
        }
        let ghost chunks_before = chunks@.map_values(|c: Vec<u8>| c@);
        let ghost rest_before = rest@;
        chunks.push(head);
        rest = tail;
        proof {
            assert(chunks@.map_values(|c: Vec<u8>| c@) =~= chunks_before.push(
                rest_before.take(MAX_FRAG as int),
            ));
            assert(chunks_before + (seq![rest_before.take(MAX_FRAG as int)] + frag_slices(
                rest_before.skip(MAX_FRAG as int),
            )) =~= chunks_before.push(rest_before.take(MAX_FRAG as int)) + frag_slices(
                rest_before.skip(MAX_FRAG as int),
            ));
        }
    }
    let ghost chunks_before = chunks@.map_values(|c: Vec<u8>| c@);
    let ghost rest_len = rest@.len();
    chunks.push(rest);
    let total = chunks.len();
    proof {
        assert(chunks@.map_values(|c: Vec<u8>| c@) =~= chunks_before.push(chunks@.last()@));
        assert(frag_slices(chunks@.last()@) == seq![chunks@.last()@]);
        assert(chunks_before + seq![chunks@.last()@] =~= chunks_before.push(chunks@.last()@));
        assert(slices =~= chunks@.map_values(|c: Vec<u8>| c@));
        assert(total == slices.len());
        assert(chunks_before.len() == total - 1);
        assert(chunks_before.len() * MAX_FRAG + rest_len == payload0.len());
        assert((total - 1) * MAX_FRAG + rest_len == payload0.len());
        assert(total <= 0xffff) by (nonlinear_arith)
            requires
                (total - 1) * MAX_FRAG + rest_len == payload0.len(),
                payload0.len() <= 0xffff * MAX_FRAG,
                MAX_FRAG == 1168,
                total >= 1,
                total >= 2 ==> rest_len >= 1,
                rest_len >= 0,
        ;
    }
    chunks
}

/// Inserting over the first occurrence of an id is an update in place.
pub proof fn lemma_upsert_at(es: Seq<UnackedView>, e: UnackedView, idx: int)
    requires
        0 <= idx < es.len(),
        es[idx].id == e.id,
        forall|j: int| 0 <= j < idx ==> es[j].id != e.id,
    ensures
        upsert(es, e) == es.update(idx, e),
    decreases idx,
{
    if idx == 0 {
        assert(seq![e] + es.drop_first() =~= es.update(0, e));
    } else {
        lemma_upsert_at(es.drop_first(), e, idx - 1);
        assert(es[0].id != e.id);
        assert(seq![es[0]] + es.drop_first().update(idx - 1, e) =~= es.update(idx, e));
    }
}

/// Inserting an id that is absent appends.
pub proof fn lemma_upsert_missing(es: Seq<UnackedView>, e: UnackedView)
    requires
        forall|j: int| 0 <= j < es.len() ==> es[j].id != e.id,
    ensures
        upsert(es, e) == es.push(e),
    decreases es.len(),
{
    if es.len() == 0 {
        assert(seq![e] =~= es.push(e));
    } else {
        lemma_upsert_missing(es.drop_first(), e);
        assert(seq![es[0]] + es.drop_first().push(e) =~= es.push(e));
    }
}

/// A sender that keeps every message until it is acknowledged, resending
/// it when more than the resend delay has passed since its last send.
pub struct ReliableSender {
    /// Compact wire id of the channel this sender serves.
    pub channel_id: u16,
    /// Settings for reliability.
    pub reliable_settings: ReliableSettings,
    /// The messages that have not been acked yet, oldest first, each
    /// under the id it was assigned; ids are pairwise distinct.
    pub unacked_messages: Vec<(MessageId, UnackedMessage)>,
    /// Message id to use for the next message to be buffered.
    pub next_send_message_id: MessageId,
    /// Messages collected for the next packets.
    pub messages_to_send: Vec<MessageContainer>,
    /// Ids already collected, so one collect after another does not queue
    /// a message twice.
    pub message_ids_to_send: Vec<MessageId>,
    /// Current round-trip estimate in milliseconds.
    pub current_rtt_millis: u64,
    /// Reading of the injected monotonic clock, in milliseconds.
    pub current_time: u64,
}

impl ReliableSender {
    /// The unacked entries as values.
    pub open spec fn unacked_views(self) -> Seq<UnackedView> {
        self.unacked_messages@.map_values(
            |e: (MessageId, UnackedMessage)|
                UnackedView { id: e.0.0, last_sent: e.1.last_sent, msg: mc_view(e.1.message) },
        )
    }

    /// The ids already collected, in order.
    pub open spec fn queued_ids(self) -> Seq<u16> {
        self.message_ids_to_send@.map_values(|i: MessageId| i.0)
    }

    /// The resend delay in milliseconds: the resend factor times the
    /// round-trip estimate.
    pub open spec fn resend_delay(self) -> int {
        self.reliable_settings.rtt_resend_factor_hundredths * self.current_rtt_millis / 100
    }

    /// Ids pairwise distinct, send times within the clock, every stored
    /// payload within the fragment budget of its one 16-bit total, and
    /// the outgoing queue holding only stamped, fragment-sized messages
    /// under distinct collected ids.
    pub open spec fn wf(self) -> bool {
        &&& forall|i: int, j: int|
            0 <= i < j < self.unacked_views().len() ==> self.unacked_views()[i].id
                != self.unacked_views()[j].id
        &&& forall|i: int|
            0 <= i < self.unacked_views().len() ==> (match #[trigger] self.unacked_views()[i].last_sent {
                Some(t) => t <= self.current_time,
                None => true,
            })
        &&& forall|i: int|
            0 <= i < self.unacked_views().len() ==> (#[trigger] self.unacked_views()[i]).msg.payload.len()
                <= 0xffff * MAX_FRAG
        &&& forall|i: int, j: int|
            0 <= i < j < self.message_ids_to_send@.len() ==> self.message_ids_to_send@[i].0
                != self.message_ids_to_send@[j].0
        &&& forall|i: int|
            0 <= i < self.messages_to_send@.len() ==> (#[trigger] mcs_view(
                self.messages_to_send@,
            )[i]).payload.len() <= MAX_FRAG
        &&& forall|i: int|
            0 <= i < self.messages_to_send@.len() ==> (#[trigger] mcs_view(
                self.messages_to_send@,
            )[i]).id is Some
    }

    /// A fresh sender for a channel, with the clock and the round-trip
    /// estimate at zero.
    pub fn new(channel_id: u16, reliable_settings: ReliableSettings) -> (r: ReliableSender)
        ensures
            r.wf(),
            r.channel_id == channel_id,
            r.reliable_settings == reliable_settings,
            r.unacked_views() =~= Seq::<UnackedView>::empty(),
            r.next_send_message_id == MessageId(0),
            mcs_view(r.messages_to_send@) =~= Seq::<WireMessageView>::empty(),
            r.queued_ids() =~= Seq::<u16>::empty(),
            r.current_rtt_millis == 0,
            r.current_time == 0,
    {
        let r = ReliableSender {
            channel_id,
            reliable_settings,
            unacked_messages: Vec::new(),
            next_send_message_id: MessageId(0),
            messages_to_send: Vec::new(),
            message_ids_to_send: Vec::new(),
            current_rtt_millis: 0,
            current_time: 0,
        };
        proof {
            assert(r.unacked_views() =~= Seq::<UnackedView>::empty());
            assert(mcs_view(r.messages_to_send@) =~= Seq::<WireMessageView>::empty());
            assert(r.queued_ids() =~= Seq::<u16>::empty());
        }
        r
    }

    /// Advance the injected clock; a reading older than the current one
    /// is ignored, so the clock never runs backwards.
    pub fn update_time(&mut self, now: u64)
        requires
            old(self).wf(),
        ensures
            final(self).wf(),
            *final(self) == (ReliableSender {
                current_time: if now >= old(self).current_time {
                    now
                } else {
                    old(self).current_time
                },
                ..*old(self)
            }),
    {
        if now >= self.current_time {
            self.current_time = now;
        }
    }

    /// Take a new round-trip estimate.
    pub fn update_rtt(&mut self, rtt_millis: u64)
        requires
            old(self).wf(),
        ensures
            final(self).wf(),
            *final(self) == (ReliableSender { current_rtt_millis: rtt_millis, ..*old(self) }),
    {
        self.current_rtt_millis = rtt_millis;
    }

    /// Whether `v` holds `x` as a message id.
    fn queued_contains(v: &Vec<MessageId>, x: u16) -> (r: bool)
        ensures
            r == v@.map_values(|i: MessageId| i.0).contains(x),
    {
        let n = v.len();
        let mut i: usize = 0;
        while i < n
            invariant
                n == v@.len(),
                i <= n,
                forall|j: int| 0 <= j < i ==> v@[j].0 != x,
            decreases n - i,
        {
            if v[i].0 == x {
                proof {
                    assert(v@.map_values(|k: MessageId| k.0)[i as int] == x);
                }
                return true;
            }
            i += 1;
        }
        proof {
            assert(forall|j: int|
                0 <= j < n ==> v@.map_values(|k: MessageId| k.0)[j] == v@[j].0);
        }
        false
    }

    /// Called when an ack reports that a message we sent was received:
    /// the entry leaves the unacked window for good.
    pub fn process_message_ack(&mut self, message_id: MessageId)
        requires
            old(self).wf(),
        ensures
            final(self).wf(),
            final(self).unacked_views() == ack_entry(old(self).unacked_views(), message_id.0),
            *final(self) == (ReliableSender {
                unacked_messages: final(self).unacked_messages,
                ..*old(self)
            }),
    {
        let ghost es0 = self.unacked_views();
        let mut keep: Vec<(MessageId, UnackedMessage)> = Vec::new();
        proof {
            assert(ack_entry(Seq::<UnackedView>::empty(), message_id.0)
                == Seq::<UnackedView>::empty());
        }
        while self.unacked_messages.len() > 0
            invariant
                ack_entry(es0, message_id.0) == keep@.map_values(
                    |e: (MessageId, UnackedMessage)|
                        UnackedView {
                            id: e.0.0,
                            last_sent: e.1.last_sent,
                            msg: mc_view(e.1.message),
                        },
                ) + ack_entry(self.unacked_views(), message_id.0),
                forall|i: int, j: int|
                    0 <= i < j < keep@.len() ==> keep@[i].0.0 != keep@[j].0.0,
                forall|i: int|
                    0 <= i < keep@.len() ==> (match #[trigger] keep@[i].1.last_sent {
                        Some(t) => t <= old(self).current_time,
                        None => true,
                    }),
                forall|i: int|
                    0 <= i < keep@.len() ==> keep@[i].1.message.payload@.len() <= 0xffff * MAX_FRAG,
                forall|i: int, j: int|
                    0 <= i < keep@.len() && 0 <= j < self.unacked_views().len()
                        ==> keep@[i].0.0 != self.unacked_views()[j].id,
                self.wf(),
                self.channel_id == old(self).channel_id,
                self.reliable_settings == old(self).reliable_settings,
                self.next_send_message_id == old(self).next_send_message_id,
                self.messages_to_send == old(self).messages_to_send,
                self.message_ids_to_send == old(self).message_ids_to_send,
                self.current_rtt_millis == old(self).current_rtt_millis,
                self.current_time == old(self).current_time,
            decreases self.unacked_messages@.len(),
        {
            let ghost before = self.unacked_views();
            let ghost keep_before = keep@.map_values(
                |e: (MessageId, UnackedMessage)|
                    UnackedView { id: e.0.0, last_sent: e.1.last_sent, msg: mc_view(e.1.message) },
            );
            let entry = self.unacked_messages.remove(0);
            proof {
                assert(self.unacked_views() =~= before.drop_first());
                assert(before[0] == (UnackedView {
                    id: entry.0.0,
                    last_sent: entry.1.last_sent,
                    msg: mc_view(entry.1.message),
                }));
            }
            if entry.0.0 == message_id.0 {
            } else {
                proof {
                    assert(before[0].id == entry.0.0);
                    assert(match before[0].last_sent {
                        Some(t) => t <= self.current_time,
                        None => true,
                    });
                    assert(before[0].msg.payload.len() <= 0xffff * MAX_FRAG);
                    assert(entry.1.message.payload@.len() <= 0xffff * MAX_FRAG);
                    assert(forall|i: int| 0 <= i < keep@.len() ==> keep@[i].0.0 != entry.0.0);
                    assert(forall|j: int|
                        0 <= j < self.unacked_views().len() ==> entry.0.0 != self.unacked_views()[
                            j
                        ].id);
                }
                keep.push(entry);
                proof {
                    assert(keep@.map_values(
                        |e: (MessageId, UnackedMessage)|
                            UnackedView {
                                id: e.0.0,
                                last_sent: e.1.last_sent,
                                msg: mc_view(e.1.message),
                            },
                    ) =~= keep_before.push(before[0]));
                    assert(keep_before + (seq![before[0]] + ack_entry(
                        before.drop_first(),
                        message_id.0,
                    )) =~= keep_before.push(before[0]) + ack_entry(
                        before.drop_first(),
                        message_id.0,
                    ));
                }
            }
        }
        proof {
            assert(self.unacked_views() =~= Seq::<UnackedView>::empty());
            assert(keep@.map_values(
                |e: (MessageId, UnackedMessage)|
                    UnackedView { id: e.0.0, last_sent: e.1.last_sent, msg: mc_view(e.1.message) },
            ) + Seq::<UnackedView>::empty() =~= keep@.map_values(
                |e: (MessageId, UnackedMessage)|
                    UnackedView { id: e.0.0, last_sent: e.1.last_sent, msg: mc_view(e.1.message) },
            ));
        }
        self.unacked_messages = keep;
    }

    /// Whether there are collected messages waiting to be framed.
    pub fn has_messages_to_send(&self) -> (r: bool)
        ensures
            r == (self.messages_to_send@.len() > 0),
    {
        self.messages_to_send.len() > 0
    }

    /// Insert an entry into the unacked window: replace the entry with
    /// the same id if one exists (as a map insert would), else append.
    #[verifier::loop_isolation(false)]
    fn upsert_unacked(&mut self, id: MessageId, um: UnackedMessage)
        requires
            forall|i: int, j: int|
                0 <= i < j < old(self).unacked_views().len() ==> old(self).unacked_views()[i].id
                    != old(self).unacked_views()[j].id,
        ensures
            final(self).unacked_views() == upsert(
                old(self).unacked_views(),
                UnackedView { id: id.0, last_sent: um.last_sent, msg: mc_view(um.message) },
            ),
            forall|i: int, j: int|
                0 <= i < j < final(self).unacked_views().len() ==> final(self).unacked_views()[
                    i
                ].id != final(self).unacked_views()[j].id,
            forall|x: int|
                0 <= x < final(self).unacked_views().len()
                    ==> (#[trigger] final(self).unacked_views()[x] == (UnackedView {
                    id: id.0,
                    last_sent: um.last_sent,
                    msg: mc_view(um.message),
                }) || exists|y: int|
                    0 <= y < old(self).unacked_views().len() && old(self).unacked_views()[y]
                        == final(self).unacked_views()[x]),
            *final(self) == (ReliableSender {
                unacked_messages: final(self).unacked_messages,
                ..*old(self)
            }),
    {
        let ghost es0 = self.unacked_views();
        let ghost e = UnackedView { id: id.0, last_sent: um.last_sent, msg: mc_view(um.message) };
        let n = self.unacked_messages.len();
        let mut i: usize = 0;
        while i < n
            invariant
                n == self.unacked_messages@.len(),
                i <= n,
                *self == *old(self),
                es0 == self.unacked_views(),
                e == (UnackedView { id: id.0, last_sent: um.last_sent, msg: mc_view(um.message) }),
                forall|j: int| 0 <= j < i ==> es0[j].id != id.0,
            decreases n - i,
        {
            if self.unacked_messages[i].0.0 == id.0 {
                proof {
                    assert(es0[i as int].id == id.0);
                }
                self.unacked_messages.set(i, (id, um));
                proof {
                    assert(self.unacked_views() =~= es0.update(i as int, e));
                    lemma_upsert_at(es0, e, i as int);
                    assert(forall|x: int|
                        0 <= x < es0.len() ==> #[trigger] es0.update(i as int, e)[x].id == es0[
                            x
                        ].id);
                    assert(e.id == es0[i as int].id);
                    assert forall|a: int, b: int|
                        0 <= a < b < self.unacked_views().len() implies self.unacked_views()[a].id
                        != self.unacked_views()[b].id by {
                        assert(self.unacked_views()[a] == es0.update(i as int, e)[a]);
                        assert(self.unacked_views()[b] == es0.update(i as int, e)[b]);
                        assert(old(self).unacked_views()[a].id != old(self).unacked_views()[b].id);
                        assert(es0[a].id != es0[b].id);
                        if a == i as int {
                            assert(self.unacked_views()[a].id == es0[a].id);
                            assert(self.unacked_views()[b].id == es0[b].id);
                        } else if b == i as int {
                            assert(self.unacked_views()[a].id == es0[a].id);
                            assert(self.unacked_views()[b].id == es0[b].id);
                        } else {
                            assert(self.unacked_views()[a].id == es0[a].id);
                            assert(self.unacked_views()[b].id == es0[b].id);
                        }
                    }
                }
                return;
            }
            i += 1;
        }
        self.unacked_messages.push((id, um));
        proof {
            assert(self.unacked_views() =~= es0.push(e));
            lemma_upsert_missing(es0, e);
        }
    }

    /// Add a new message to the buffer of messages to be sent: one
    /// unacked entry under the next id, which then advances by one, so
    /// ids are assigned strictly monotonically. Re-using an id that is
    /// still unacked (possible only once the id space has wrapped)
    /// replaces that entry, as an ordered-map insert would.
    pub fn buffer_send(&mut self, message: MessageContainer)
        requires
            old(self).wf(),
            message.id is None,
            message.fragment is None,
            message.payload@.len() <= 0xffff * MAX_FRAG,
        ensures
            final(self).wf(),
            final(self).unacked_views() == upsert(
                old(self).unacked_views(),
                UnackedView {
                    id: old(self).next_send_message_id.0,
                    last_sent: None,
                    msg: mc_view(message),
                },
            ),
            final(self).next_send_message_id.0 == wrap_next(old(self).next_send_message_id.0),
            *final(self) == (ReliableSender {
                unacked_messages: final(self).unacked_messages,
                next_send_message_id: final(self).next_send_message_id,
                ..*old(self)
            }),
    {
        let id = self.next_send_message_id.0;
        let ghost new_view = UnackedView { id, last_sent: None, msg: mc_view(message) };
        let ghost views0 = self.unacked_views();
        self.upsert_unacked(MessageId(id), UnackedMessage { message, last_sent: None });
        proof {
            assert forall|a: int| 0 <= a < self.unacked_views().len() implies (match
                #[trigger] self.unacked_views()[a].last_sent {
                Some(t) => t <= self.current_time,
                None => true,
            }) && (self.unacked_views()[a]).msg.payload.len() <= 0xffff * MAX_FRAG by {
                if self.unacked_views()[a] == new_view {
                } else {
                    let y = choose|y: int|
                        0 <= y < views0.len() && views0[y] == self.unacked_views()[a];
                }
            }
        }
        self.next_send_message_id = MessageId(crate::wrapping::wrapping_next(id));
    }

    /// Collect the messages that need to be sent: every unacked entry
    /// that has never been sent, or whose last send is further back than
    /// the resend delay. A message wider than one fragment enters the
    /// outgoing queue as its consecutive slices, all under the
    /// message's one id. An entry already collected and not yet framed
    /// is not collected twice.
    #[verifier::loop_isolation(false)]
    #[verifier::rlimit(100)]
    pub fn collect_messages_to_send(&mut self)
        requires
            old(self).wf(),
        ensures
            final(self).wf(),
            final(self).unacked_views() == after_collect(
                old(self).unacked_views(),
                old(self).current_time,
                old(self).resend_delay(),
            ),
            mcs_view(final(self).messages_to_send@) == mcs_view(old(self).messages_to_send@)
                + queued_msgs(
                old(self).unacked_views(),
                old(self).queued_ids(),
                old(self).current_time,
                old(self).resend_delay(),
            ),
            final(self).queued_ids() == old(self).queued_ids() + newly_queued(
                old(self).unacked_views(),
                old(self).queued_ids(),
                old(self).current_time,
                old(self).resend_delay(),
            ),
            final(self).channel_id == old(self).channel_id,
            final(self).reliable_settings == old(self).reliable_settings,
            final(self).next_send_message_id == old(self).next_send_message_id,
            final(self).current_rtt_millis == old(self).current_rtt_millis,
            final(self).current_time == old(self).current_time,
    {
        let ghost es0 = self.unacked_views();
        let ghost already = self.queued_ids();
        let ghost now = self.current_time;
        let ghost delay = self.resend_delay();
        let ghost to_send0 = mcs_view(self.messages_to_send@);
        proof {
            assert((self.reliable_settings.rtt_resend_factor_hundredths as int)
                * (self.current_rtt_millis as int) < 0x100000000000000000000000000000000)
                by (nonlinear_arith)
                requires
                    (self.reliable_settings.rtt_resend_factor_hundredths as int)
                        < 0x10000000000000000,
                    (self.current_rtt_millis as int) < 0x10000000000000000,
                    self.reliable_settings.rtt_resend_factor_hundredths as int >= 0,
                    self.current_rtt_millis as int >= 0,
            ;
        }
        let delay128: u128 = self.reliable_settings.rtt_resend_factor_hundredths as u128
            * self.current_rtt_millis as u128 / 100;
        proof {
            assert(delay128 == delay);
            assert(es0.take(0) =~= Seq::<UnackedView>::empty());
            assert(newly_queued(Seq::<UnackedView>::empty(), already, now, delay)
                == Seq::<u16>::empty());
            assert(queued_msgs(Seq::<UnackedView>::empty(), already, now, delay)
                == Seq::<WireMessageView>::empty());
            assert(already + Seq::<u16>::empty() =~= already);
            assert(to_send0 + Seq::<WireMessageView>::empty() =~= to_send0);
            lemma_newly_queued_from(es0, already, now, delay);
            assert forall|a: int, b: int|
                0 <= a < b < self.queued_ids().len() implies self.queued_ids()[a]
                != self.queued_ids()[b] by {
                assert(self.queued_ids()[a] == self.message_ids_to_send@[a].0);
                assert(self.queued_ids()[b] == self.message_ids_to_send@[b].0);
            }
        }
        let n = self.unacked_messages.len();
        let mut i: usize = 0;
        while i < n
            invariant
                n == self.unacked_messages@.len(),
                i <= n,
                es0.len() == n,
                forall|j: int| i <= j < n ==> self.unacked_views()[j] == es0[j],
                forall|j: int|
                    0 <= j < i ==> self.unacked_views()[j] == collect_entry(es0[j], now, delay),
                mcs_view(self.messages_to_send@) == to_send0 + queued_msgs(
                    es0.take(i as int),
                    already,
                    now,
                    delay,
                ),
                self.queued_ids() == already + newly_queued(es0.take(i as int), already, now, delay),
                forall|a: int, b: int|
                    0 <= a < b < self.queued_ids().len() ==> self.queued_ids()[a]
                        != self.queued_ids()[b],
                forall|a: int|
                    0 <= a < self.messages_to_send@.len() ==> (#[trigger] mcs_view(
                        self.messages_to_send@,
                    )[a]).payload.len() <= MAX_FRAG,
                forall|a: int|
                    0 <= a < self.messages_to_send@.len() ==> (#[trigger] mcs_view(
                        self.messages_to_send@,
                    )[a]).id is Some,
                self.channel_id == old(self).channel_id,
                self.reliable_settings == old(self).reliable_settings,
                self.next_send_message_id == old(self).next_send_message_id,
                self.current_rtt_millis == old(self).current_rtt_millis,
                self.current_time == old(self).current_time,
            decreases n - i,
        {
            let ghost entry_v = es0[i as int];
            let due: bool;
            {
                let entry = &self.unacked_messages[i];
                due = match entry.1.last_sent {
                    None => true,
                    Some(t) => {
                        proof {
                            assert(self.unacked_views()[i as int].last_sent == Some(t));
                        }
                        (self.current_time - t) as u128 > delay128
                    },
                };
            }
            proof {
                assert(due == due_for_send(entry_v, now, delay));
            }
            if due {
                let id16 = self.unacked_messages[i].0.0;
                proof {
                    assert(id16 == entry_v.id);
                }
                let queued_already = Self::queued_contains(&self.message_ids_to_send, id16);
                proof {
                    let nq = newly_queued(es0.take(i as int), already, now, delay);
                    if nq.contains(id16) {
                        lemma_newly_queued_from(es0.take(i as int), already, now, delay);
                        let j = choose|j: int|
                            0 <= j < es0.take(i as int).len() && es0.take(i as int)[j].id == id16;
                        assert(es0[j].id == es0[i as int].id);
                        assert(false);
                    }
                    if queued_already {
                        let idx = choose|idx: int|
                            0 <= idx < self.queued_ids().len() && self.queued_ids()[idx] == id16;
                        if idx < already.len() {
                            assert(already[idx] == id16);
                        } else {
                            assert(nq[idx - already.len()] == id16);
                            assert(nq.contains(id16));
                        }
                    } else {
                        if already.contains(id16) {
                            let idx = choose|idx: int|
                                0 <= idx < already.len() && already[idx] == id16;
                            assert(self.queued_ids()[idx] == id16);
                            assert(self.queued_ids().contains(id16));
                        }
                    }
                    assert(queued_already == already.contains(id16));
                }
                // stamp the stored message with its id; the send time
                // stays until send_packet actually frames it
                let last = match self.unacked_messages[i].1.last_sent {
                    Some(t) => Some(t),
                    None => None,
                };
                let frag_stored = match &self.unacked_messages[i].1.message.fragment {
                    Some(f) => Some((f.0, f.1)),
                    None => None,
                };
                let expansion_payload = copy_bytes(&self.unacked_messages[i].1.message.payload);
                let stored = MessageContainer {
                    id: Some(MessageId(id16)),
                    fragment: frag_stored,
                    payload: copy_bytes(&self.unacked_messages[i].1.message.payload),
                };
                let ghost views_pre = self.unacked_views();
                self.unacked_messages.set(
                    i,
                    (MessageId(id16), UnackedMessage { message: stored, last_sent: last }),
                );
                proof {
                    assert(self.unacked_views() =~= views_pre.update(
                        i as int,
                        collect_entry(entry_v, now, delay),
                    ));
                    assert(self.unacked_views()[i as int] == collect_entry(entry_v, now, delay));
                }
                if !queued_already {
                    let ghost pv = entry_v.msg.payload;
                    let ghost group = frag_msgs(id16, pv);
                    let ghost slices = frag_slices(pv);
                    proof {
                        assert(expansion_payload@ == pv);
                        lemma_frag_slices_concat(pv);
                    }
                    let mut chunks = chunk_payload(expansion_payload);
                    let total = chunks.len();
                    proof {
                        assert(total == slices.len());
                        assert(group.len() == slices.len());
                        assert(group.take(0) =~= Seq::<WireMessageView>::empty());
                    }
                    let ghost ts_group0 = mcs_view(self.messages_to_send@);
                    let ghost ids_pre = self.message_ids_to_send@;
                    let ghost una_mid = self.unacked_messages@;
                    let mut j: usize = 0;
                    while j < total
                        invariant
                            total == slices.len(),
                            total <= 0xffff,
                            j <= total,
                            group == frag_msgs(id16, pv),
                            slices == frag_slices(pv),
                            chunks@.map_values(|c: Vec<u8>| c@) == slices.skip(j as int),
                            mcs_view(self.messages_to_send@) == ts_group0 + group.take(j as int),
                            forall|a: int|
                                0 <= a < self.messages_to_send@.len() ==> (#[trigger] mcs_view(
                                    self.messages_to_send@,
                                )[a]).payload.len() <= MAX_FRAG,
                            forall|a: int|
                                0 <= a < self.messages_to_send@.len() ==> (#[trigger] mcs_view(
                                    self.messages_to_send@,
                                )[a]).id is Some,
                            self.unacked_messages@ == una_mid,
                            self.message_ids_to_send@ == ids_pre,
                            self.channel_id == old(self).channel_id,
                            self.reliable_settings == old(self).reliable_settings,
                            self.next_send_message_id == old(self).next_send_message_id,
                            self.current_rtt_millis == old(self).current_rtt_millis,
                            self.current_time == old(self).current_time,
                        decreases total - j,
                    {
                        let ghost chunks_pre = chunks@;
                        proof {
                            assert(chunks_pre.map_values(|c: Vec<u8>| c@).len() == slices.skip(
                                j as int,
                            ).len());
                            assert(chunks@.len() > 0);
                        }
                        let piece = chunks.remove(0);
                        proof {
                            assert(chunks_pre.map_values(|c: Vec<u8>| c@)[0] == chunks_pre[0]@);
                            assert(piece@ == slices.skip(j as int)[0]);
                            assert(piece@ == slices[j as int]);
                            assert(forall|q: int|
                                0 <= q < chunks@.len() ==> #[trigger] chunks@[q] == chunks_pre[q
                                    + 1]);
                            assert forall|q: int| 0 <= q < chunks@.len() implies chunks@.map_values(
                                |c: Vec<u8>| c@,
                            )[q] == #[trigger] slices.skip(j + 1)[q] by {
                                assert(chunks@.map_values(|c: Vec<u8>| c@)[q] == chunks@[q]@);
                                assert(chunks_pre.map_values(|c: Vec<u8>| c@)[q + 1]
                                    == chunks_pre[q + 1]@);
                                assert(slices.skip(j as int)[q + 1] == slices[j + 1 + q]);
                            }
                            assert(chunks@.map_values(|c: Vec<u8>| c@) =~= slices.skip(j + 1));
                        }
                        let frag: Option<(u16, u16)> = if total == 1 {
                            None
                        } else {
                            Some((j as u16, total as u16))
                        };
                        let fragment_message = MessageContainer {
                            id: Some(MessageId(id16)),
                            fragment: frag,
                            payload: piece,
                        };
                        proof {
                            assert(mc_view(fragment_message) == group[j as int]);
                        }
                        let ghost ts_here = mcs_view(self.messages_to_send@);
                        self.messages_to_send.push(fragment_message);
                        proof {
                            assert(mcs_view(self.messages_to_send@) =~= ts_here.push(
                                group[j as int],
                            ));
                            assert(ts_group0 + group.take(j + 1) =~= (ts_group0 + group.take(
                                j as int,
                            )).push(group[j as int]));
                        }
                        j += 1;
                    }
                    proof {
                        assert(group.take(total as int) =~= group);
                    }
                    let ghost q_before = self.queued_ids();
                    self.message_ids_to_send.push(MessageId(id16));
                    proof {
                        assert(self.queued_ids() =~= q_before.push(entry_v.id));
                    }
                }
            }
            proof {
                assert(es0.take(i + 1) =~= es0.take(i as int).push(es0[i as int]));
                lemma_newly_queued_push(es0.take(i as int), es0[i as int], already, now, delay);
                if due && !already.contains(entry_v.id) {
                    assert(mcs_view(self.messages_to_send@) =~= to_send0 + queued_msgs(
                        es0.take(i + 1),
                        already,
                        now,
                        delay,
                    ));
                    assert(self.queued_ids() =~= already + newly_queued(
                        es0.take(i + 1),
                        already,
                        now,
                        delay,
                    ));
                } else {
                    assert(queued_msgs(es0.take(i + 1), already, now, delay) =~= queued_msgs(
                        es0.take(i as int),
                        already,
                        now,
                        delay,
                    ));
                    assert(newly_queued(es0.take(i + 1), already, now, delay) =~= newly_queued(
                        es0.take(i as int),
                        already,
                        now,
                        delay,
                    ));
                }
            }
            i += 1;
        }
        proof {
            assert(es0.take(n as int) =~= es0);
            assert(self.unacked_views() =~= after_collect(es0, now, delay));
            assert forall|a: int, b: int|
                0 <= a < b < self.message_ids_to_send@.len() implies self.message_ids_to_send@[
                a
            ].0 != self.message_ids_to_send@[b].0 by {
                assert(self.queued_ids()[a] == self.message_ids_to_send@[a].0);
                assert(self.queued_ids()[b] == self.message_ids_to_send@[b].0);
            }
        }
    }

    /// Take the collected messages, hand them to the packet manager for
    /// framing on this sender's channel, keep what did not fit, forget
    /// the collected mark of everything framed, and stamp the framed
    /// messages' entries as sent now.
    #[verifier::loop_isolation(false)]
    pub fn send_packet(&mut self, packet_manager: &mut PacketManager)
        requires
            old(self).wf(),
            old(packet_manager).wf(),
            old(packet_manager).building@.len() < 255,
        ensures
            final(self).wf(),
            final(packet_manager).wf(),
            pack_transition(
                *old(packet_manager),
                *final(packet_manager),
                old(self).channel_id,
                mcs_view(old(self).messages_to_send@),
                mcs_view(final(self).messages_to_send@),
                some_ids(
                    mcs_view(old(self).messages_to_send@).take(
                        greedy_fit(
                            mcs_view(old(self).messages_to_send@),
                            pack_budget(old(packet_manager).building_size as int),
                        ),
                    ),
                ),
            ),
            final(self).unacked_views() == mark_sent(
                old(self).unacked_views(),
                some_ids(
                    mcs_view(old(self).messages_to_send@).take(
                        greedy_fit(
                            mcs_view(old(self).messages_to_send@),
                            pack_budget(old(packet_manager).building_size as int),
                        ),
                    ),
                ),
                old(self).current_time,
            ),
            final(self).channel_id == old(self).channel_id,
            final(self).reliable_settings == old(self).reliable_settings,
            final(self).next_send_message_id == old(self).next_send_message_id,
            final(self).current_rtt_millis == old(self).current_rtt_millis,
            final(self).current_time == old(self).current_time,
            final(packet_manager).next_packet_id == old(packet_manager).next_packet_id,
            final(packet_manager).latest_received == old(packet_manager).latest_received,
            final(packet_manager).received_history == old(packet_manager).received_history,
            final(packet_manager).sent_packets == old(packet_manager).sent_packets,
    {
        let ghost ms0 = mcs_view(self.messages_to_send@);
        let ghost k = greedy_fit(ms0, pack_budget(packet_manager.building_size as int));
        let mut messages_to_send: Vec<MessageContainer> = Vec::new();
        core::mem::swap(&mut messages_to_send, &mut self.messages_to_send);
        proof {
            assert(mcs_view(messages_to_send@) == ms0);
        }
        let packed = packet_manager.pack_messages_within_channel(self.channel_id, messages_to_send);
        proof {
            assert(pack_transition(
                *old(packet_manager),
                *packet_manager,
                self.channel_id,
                ms0,
                mcs_view(packed.0@),
                packed.1@.map_values(|i: MessageId| i.0),
            ));
            assert(mcs_view(packed.0@) == ms0.skip(k));
            assert(packed.1@.map_values(|i: MessageId| i.0) == some_ids(ms0.take(k)));
        }
        let (remaining, sent_message_ids) = packed;
        self.messages_to_send = remaining;
        proof {
            crate::packet_manager::lemma_greedy_fit_bounds(
                ms0,
                pack_budget(old(packet_manager).building_size as int),
            );
            assert(ms0.take(k) + ms0.skip(k) =~= ms0);
            lemma_some_ids_cat(ms0.take(k), ms0.skip(k));
        }
        let ghost q0 = self.queued_ids();
        let ghost sent_seq = sent_message_ids@.map_values(|m: MessageId| m.0);
        let nrem = sent_message_ids.len();
        let mut t: usize = 0;
        let ghost una0 = self.unacked_messages@;
        let ghost ts1 = self.messages_to_send@;
        proof {
            assert(sent_seq.skip(0) =~= sent_seq);
        }
        while t < nrem
            invariant
                nrem == sent_message_ids@.len(),
                t <= nrem,
                remove_all(q0, sent_seq) == remove_all(
                    self.queued_ids(),
                    sent_seq.skip(t as int),
                ),
                self.unacked_messages@ == una0,
                self.messages_to_send@ == ts1,
                self.channel_id == old(self).channel_id,
                self.reliable_settings == old(self).reliable_settings,
                self.next_send_message_id == old(self).next_send_message_id,
                self.current_rtt_millis == old(self).current_rtt_millis,
                self.current_time == old(self).current_time,
            decreases nrem - t,
        {
            let id = sent_message_ids[t].0;
            let ghost q_here = self.queued_ids();
            self.remove_queued_id(id);
            proof {
                assert(sent_seq.skip(t as int)[0] == sent_seq[t as int]);
                assert(sent_seq.skip(t as int).drop_first() =~= sent_seq.skip(t + 1));
            }
            t += 1;
        }
        proof {
            assert(sent_seq.skip(nrem as int) =~= Seq::<u16>::empty());
            assert(remove_all(self.queued_ids(), Seq::<u16>::empty()) == self.queued_ids());
            assert(self.queued_ids() =~= remove_all(q0, sent_seq));
            assert forall|a: int, b: int|
                0 <= a < b < q0.len() implies q0[a] != q0[b] by {
                assert(q0[a] == old(self).message_ids_to_send@[a].0);
                assert(q0[b] == old(self).message_ids_to_send@[b].0);
            }
            lemma_remove_all_distinct(q0, sent_seq);
            assert forall|a: int, b: int|
                0 <= a < b < self.message_ids_to_send@.len() implies self.message_ids_to_send@[
                a
            ].0 != self.message_ids_to_send@[b].0 by {
                assert(self.queued_ids()[a] == self.message_ids_to_send@[a].0);
                assert(self.queued_ids()[b] == self.message_ids_to_send@[b].0);
            }

            assert(mcs_view(self.messages_to_send@) == ms0.skip(k));
            assert forall|a: int|
                0 <= a < self.messages_to_send@.len() implies (#[trigger] mcs_view(
                self.messages_to_send@,
            )[a]).payload.len() <= MAX_FRAG && (mcs_view(self.messages_to_send@)[a]).id is Some by {
                assert(mcs_view(self.messages_to_send@)[a] == ms0[k + a]);
                assert((mcs_view(old(self).messages_to_send@)[k + a]).payload.len() <= MAX_FRAG);
                assert((mcs_view(old(self).messages_to_send@)[k + a]).id is Some);
            }
        }
        // stamp every framed message's entry as sent now
        let ghost sent_seq2 = sent_seq;
        let ghost una1 = self.unacked_views();
        let now_exec = self.current_time;
        let mut t2: usize = 0;
        let ghost q_final = self.message_ids_to_send@;
        let ghost ts_final = self.messages_to_send@;
        proof {
            assert(sent_seq2.skip(0) =~= sent_seq2);
            assert(una1 == old(self).unacked_views());
        }
        while t2 < nrem
            invariant
                nrem == sent_message_ids@.len(),
                t2 <= nrem,
                sent_seq2 == sent_message_ids@.map_values(|m: MessageId| m.0),
                mark_sent(una1, sent_seq2, old(self).current_time) == mark_sent(
                    self.unacked_views(),
                    sent_seq2.skip(t2 as int),
                    old(self).current_time,
                ),
                forall|a: int, b: int|
                    0 <= a < b < self.unacked_views().len() ==> self.unacked_views()[a].id
                        != self.unacked_views()[b].id,
                forall|a: int|
                    0 <= a < self.unacked_views().len() ==> (match #[trigger] self.unacked_views()[
                        a
                    ].last_sent {
                        Some(tm) => tm <= self.current_time,
                        None => true,
                    }),
                forall|a: int|
                    0 <= a < self.unacked_views().len() ==> (#[trigger] self.unacked_views()[
                        a
                    ]).msg.payload.len() <= 0xffff * MAX_FRAG,
                self.message_ids_to_send@ == q_final,
                self.messages_to_send@ == ts_final,
                now_exec == self.current_time,
                self.channel_id == old(self).channel_id,
                self.reliable_settings == old(self).reliable_settings,
                self.next_send_message_id == old(self).next_send_message_id,
                self.current_rtt_millis == old(self).current_rtt_millis,
                self.current_time == old(self).current_time,
            decreases nrem - t2,
        {
            let id = sent_message_ids[t2].0;
            let ghost views_here = self.unacked_views();
            let m = self.unacked_messages.len();
            let mut w: usize = 0;
            while w < m
                invariant
                    m == self.unacked_messages@.len(),
                    w <= m,
                    views_here == self.unacked_views(),
                    forall|a: int| 0 <= a < w ==> views_here[a].id != id,
                    self.message_ids_to_send@ == q_final,
                    self.messages_to_send@ == ts_final,
                    now_exec == self.current_time,
                    self.channel_id == old(self).channel_id,
                    self.reliable_settings == old(self).reliable_settings,
                    self.next_send_message_id == old(self).next_send_message_id,
                    self.current_rtt_millis == old(self).current_rtt_millis,
                    self.current_time == old(self).current_time,
                decreases m - w,
            {
                if self.unacked_messages[w].0.0 == id {
                    break;
                }
                w += 1;
            }
            if w < m {
                proof {
                    assert(views_here[w as int].id == id);
                }
                let e = &mut self.unacked_messages[w];
                e.1.last_sent = Some(now_exec);
                proof {
                    assert forall|a: int| 0 <= a < self.unacked_views().len() implies
                        #[trigger] self.unacked_views()[a] == mark_one(
                        views_here,
                        id,
                        old(self).current_time,
                    )[a] by {
                        if a != w {
                            assert(self.unacked_views()[a] == views_here[a]);
                            assert(views_here[a].id != id || a == w);
                        }
                    }
                    assert(self.unacked_views() =~= mark_one(
                        views_here,
                        id,
                        old(self).current_time,
                    ));
                }
            } else {
                proof {
                    assert(forall|a: int|
                        0 <= a < views_here.len() ==> views_here[a].id != id);
                    assert(self.unacked_views() =~= mark_one(
                        views_here,
                        id,
                        old(self).current_time,
                    ));
                }
            }
            proof {
                assert(sent_seq2.skip(t2 as int)[0] == sent_seq2[t2 as int]);
                assert(sent_seq2.skip(t2 as int).drop_first() =~= sent_seq2.skip(t2 + 1));
            }
            t2 += 1;
        }
        proof {
            assert(sent_seq2.skip(nrem as int) =~= Seq::<u16>::empty());
            assert(mark_sent(self.unacked_views(), Seq::<u16>::empty(), old(self).current_time)
                == self.unacked_views());
            assert(self.unacked_views() =~= mark_sent(una1, sent_seq2, old(self).current_time));
        }
    }

    /// Drop the first occurrence of `id` from the collected-id list.
    fn remove_queued_id(&mut self, id: u16)
        ensures
            final(self).queued_ids() == remove_first(old(self).queued_ids(), id),
            *final(self) == (ReliableSender {
                message_ids_to_send: final(self).message_ids_to_send,
                ..*old(self)
            }),
    {
        let ghost q0 = self.queued_ids();
        let n = self.message_ids_to_send.len();
        let mut i: usize = 0;
        while i < n
            invariant
                n == self.message_ids_to_send@.len(),
                i <= n,
                *self == *old(self),
                q0 == self.queued_ids(),
                forall|j: int| 0 <= j < i ==> q0[j] != id,
            decreases n - i,
        {
            if self.message_ids_to_send[i].0 == id {
                proof {
                    assert(q0[i as int] == id);
                    lemma_remove_first_at(q0, id, i as int);
                }
                self.message_ids_to_send.remove(i);
                proof {
                    assert(final(self).queued_ids() =~= q0.remove(i as int));
                    assert(self.queued_ids() =~= q0.remove(i as int));
                }
                return;
            }
            proof {
                assert(q0[i as int] == self.message_ids_to_send@[i as int].0);
            }
            i += 1;
        }
        proof {
            lemma_remove_first_missing(q0, id);
        }
    }

    /// Called when an ack reports that a message we sent was received.
    pub fn notify_message_delivered(&mut self, message_id: &MessageId)
        requires
            old(self).wf(),
        ensures
            final(self).wf(),
            final(self).unacked_views() == ack_entry(old(self).unacked_views(), message_id.0),
            *final(self) == (ReliableSender {
                unacked_messages: final(self).unacked_messages,
                ..*old(self)
            }),
    {
        self.process_message_ack(MessageId(message_id.0));
    }
}

/// `some_ids` distributes over concatenation.
pub proof fn lemma_some_ids_cat(a: Seq<WireMessageView>, b: Seq<WireMessageView>)
    ensures
        some_ids(a + b) == some_ids(a) + some_ids(b),
    decreases a.len(),
{
    if a.len() == 0 {
        assert(a + b =~= b);
        assert(some_ids(a) == Seq::<u16>::empty());
        assert(some_ids(a) + some_ids(b) =~= some_ids(b));
    } else {
        assert((a + b).drop_first() =~= a.drop_first() + b);
        lemma_some_ids_cat(a.drop_first(), b);
        assert((a + b)[0] == a[0]);
        match a[0].id {
            Some(id) => {
                assert(some_ids(a + b) == seq![id] + (some_ids(a.drop_first()) + some_ids(b)));
                assert(some_ids(a + b) =~= some_ids(a) + some_ids(b));
            },
            None => {
                assert(some_ids(a + b) =~= some_ids(a) + some_ids(b));
            },
        }
    }
}

/// Removing a prefix, id by id, leaves the suffix.
pub proof fn lemma_remove_all_prefix(a: Seq<u16>, b: Seq<u16>)
    ensures
        remove_all(a + b, a) == b,
    decreases a.len(),
{
    if a.len() == 0 {
        assert(a + b =~= b);
    } else {
        assert((a + b)[0] == a[0]);
        assert(remove_first(a + b, a[0]) == (a + b).drop_first());
        assert((a + b).drop_first() =~= a.drop_first() + b);
        lemma_remove_all_prefix(a.drop_first(), b);
        assert(a.drop_first() =~= a.drop_first());
    }
}

/// Removing the first occurrence at a known index is a point removal.
pub proof fn lemma_remove_first_at(q: Seq<u16>, id: u16, idx: int)
    requires
        0 <= idx < q.len(),
        q[idx] == id,
        forall|j: int| 0 <= j < idx ==> q[j] != id,
    ensures
        remove_first(q, id) == q.remove(idx),
    decreases idx,
{
    if idx == 0 {
        assert(q.drop_first() =~= q.remove(0));
    } else {
        lemma_remove_first_at(q.drop_first(), id, idx - 1);
        assert(seq![q[0]] + q.drop_first().remove(idx - 1) =~= q.remove(idx));
    }
}

/// Removing an absent id changes nothing.
pub proof fn lemma_remove_first_missing(q: Seq<u16>, id: u16)
    requires
        forall|j: int| 0 <= j < q.len() ==> q[j] != id,
    ensures
        remove_first(q, id) == q,
    decreases q.len(),
{
    if q.len() > 0 {
        lemma_remove_first_missing(q.drop_first(), id);
        assert(seq![q[0]] + q.drop_first() =~= q);
    }
}

/// A sender with no delivery guarantee: buffered messages move to the
/// outgoing queue unchanged and are forgotten once framed.
pub struct UnorderedUnreliableSender {
    /// Compact wire id of the channel this sender serves.
    pub channel_id: u16,
    /// Messages waiting for the next collect.
    pub messages_to_buffer: Vec<MessageContainer>,
    /// Messages collected for the next packets.
    pub messages_to_send: Vec<MessageContainer>,
}

impl UnorderedUnreliableSender {
    /// Every queued payload fits a fragment and carries no id.
    pub open spec fn wf(self) -> bool {
        &&& forall|i: int|
            0 <= i < self.messages_to_buffer@.len() ==> (#[trigger] mc_view(
                self.messages_to_buffer@[i],
            )).payload.len() <= MAX_FRAG
        &&& forall|i: int|
            0 <= i < self.messages_to_send@.len() ==> (#[trigger] mc_view(
                self.messages_to_send@[i],
            )).payload.len() <= MAX_FRAG
    }

    /// A fresh sender for a channel.
    pub fn new(channel_id: u16) -> (r: UnorderedUnreliableSender)
        ensures
            r.wf(),
            r.channel_id == channel_id,
            r.messages_to_buffer@.len() == 0,
            r.messages_to_send@.len() == 0,
    {
        UnorderedUnreliableSender {
            channel_id,
            messages_to_buffer: Vec::new(),
            messages_to_send: Vec::new(),
        }
    }

    /// Queue a message; one too large for a single datagram is dropped
    /// (the message manager rejects it before it gets here).
    pub fn buffer_send(&mut self, message: MessageContainer)
        requires
            old(self).wf(),
        ensures
            final(self).wf(),
            message.payload@.len() <= MAX_FRAG ==> mcs_view(final(self).messages_to_buffer@)
                == mcs_view(old(self).messages_to_buffer@).push(mc_view(message)),
            message.payload@.len() > MAX_FRAG ==> final(self).messages_to_buffer
                == old(self).messages_to_buffer,
            final(self).messages_to_send == old(self).messages_to_send,
            final(self).channel_id == old(self).channel_id,
    {
        if message.payload.len() <= MAX_FRAG {
            let ghost b0 = mcs_view(self.messages_to_buffer@);
            self.messages_to_buffer.push(message);
            proof {
                assert(mcs_view(self.messages_to_buffer@) =~= b0.push(mc_view(message)));
            }
        }
    }

    /// Move everything buffered into the outgoing queue, in order.
    pub fn collect_messages_to_send(&mut self)
        requires
            old(self).wf(),
        ensures
            final(self).wf(),
            mcs_view(final(self).messages_to_send@) == mcs_view(old(self).messages_to_send@)
                + mcs_view(old(self).messages_to_buffer@),
            final(self).messages_to_buffer@.len() == 0,
            final(self).channel_id == old(self).channel_id,
    {
        let ghost ts0 = mcs_view(self.messages_to_send@);
        let ghost b0 = mcs_view(self.messages_to_buffer@);
        let mut moved: Vec<MessageContainer> = Vec::new();
        core::mem::swap(&mut moved, &mut self.messages_to_buffer);
        let n = moved.len();
        let mut i: usize = 0;
        while i < n
            invariant
                n == moved@.len(),
                i <= n,
                b0 == mcs_view(moved@),
                mcs_view(self.messages_to_send@) == ts0 + b0.take(i as int),
                self.messages_to_buffer@.len() == 0,
                self.channel_id == old(self).channel_id,
                forall|j: int| 0 <= j < n ==> (#[trigger] mc_view(moved@[j])).payload.len() <= MAX_FRAG,
                forall|j: int|
                    0 <= j < self.messages_to_send@.len() ==> (#[trigger] mc_view(
                        self.messages_to_send@[j],
                    )).payload.len() <= MAX_FRAG,
            decreases n - i,
        {
            let m = moved[i].duplicate();
            proof {
                assert(mc_view(m) == b0[i as int]);
            }
            let ghost ts_here = mcs_view(self.messages_to_send@);
            self.messages_to_send.push(m);
            proof {
                assert(mcs_view(self.messages_to_send@) =~= ts_here.push(b0[i as int]));
                assert(ts0 + b0.take(i + 1) =~= (ts0 + b0.take(i as int)).push(b0[i as int]));
            }
            i += 1;
        }
        proof {
            assert(b0.take(n as int) =~= b0);
        }
    }

    /// Hand the outgoing queue to the packet manager; keep what did not
    /// fit. Nothing is retained for resending.
    pub fn send_packet(&mut self, packet_manager: &mut PacketManager)
        requires
            old(self).wf(),
            old(packet_manager).wf(),
            old(packet_manager).building@.len() < 255,
        ensures
            final(self).wf(),
            final(packet_manager).wf(),
            pack_transition(
                *old(packet_manager),
                *final(packet_manager),
                old(self).channel_id,
                mcs_view(old(self).messages_to_send@),
                mcs_view(final(self).messages_to_send@),
                some_ids(
                    mcs_view(old(self).messages_to_send@).take(
                        greedy_fit(
                            mcs_view(old(self).messages_to_send@),
                            pack_budget(old(packet_manager).building_size as int),
                        ),
                    ),
                ),
            ),
            final(self).messages_to_buffer == old(self).messages_to_buffer,
            final(self).channel_id == old(self).channel_id,
            final(packet_manager).next_packet_id == old(packet_manager).next_packet_id,
            final(packet_manager).latest_received == old(packet_manager).latest_received,
            final(packet_manager).received_history == old(packet_manager).received_history,
            final(packet_manager).sent_packets == old(packet_manager).sent_packets,
    {
        let ghost ms0 = mcs_view(self.messages_to_send@);
        let ghost k = greedy_fit(ms0, pack_budget(packet_manager.building_size as int));
        let mut messages_to_send: Vec<MessageContainer> = Vec::new();
        core::mem::swap(&mut messages_to_send, &mut self.messages_to_send);
        let packed = packet_manager.pack_messages_within_channel(self.channel_id, messages_to_send);
        let (remaining, _sent) = packed;
        self.messages_to_send = remaining;
        proof {
            crate::packet_manager::lemma_greedy_fit_bounds(
                ms0,
                pack_budget(old(packet_manager).building_size as int),
            );
            assert(mcs_view(self.messages_to_send@) == ms0.skip(k));
            assert forall|a: int|
                0 <= a < self.messages_to_send@.len() implies (#[trigger] mc_view(
                self.messages_to_send@[a],
            )).payload.len() <= MAX_FRAG by {
                assert(mcs_view(self.messages_to_send@)[a] == ms0[k + a]);
                assert(mc_view(old(self).messages_to_send@[k + a]).payload.len() <= MAX_FRAG);
            }
        }
    }

    /// Unreliable channels track no acknowledgements.
    pub fn notify_message_delivered(&mut self, message_id: &MessageId)
        requires
            old(self).wf(),
        ensures
            *final(self) == *old(self),
    {
        let _ = message_id;
    }

    /// Whether there are collected messages waiting to be framed.
    pub fn has_messages_to_send(&self) -> (r: bool)
        ensures
            r == (self.messages_to_send@.len() > 0),
    {
        self.messages_to_send.len() > 0
    }
}

/// The messages of a buffer run stamped with consecutive ids from
/// `base`.
pub open spec fn stamped_msgs(ms: Seq<WireMessageView>, base: u16) -> Seq<WireMessageView> {
    Seq::new(ms.len(), |i: int| (WireMessageView {
        id: Some(wrap_add(base, i)),
        fragment: ms[i].fragment,
        payload: ms[i].payload,
    }))
}

/// Like the unordered sender, but each message is stamped with an
/// incrementing id at collect time, which the receiver uses to drop
/// anything older than the newest it has seen.
pub struct SequencedUnreliableSender {
    /// Compact wire id of the channel this sender serves.
    pub channel_id: u16,
    /// Messages waiting for the next collect.
    pub messages_to_buffer: Vec<MessageContainer>,
    /// Messages collected for the next packets, each stamped.
    pub messages_to_send: Vec<MessageContainer>,
    /// Message id the next collected message will carry.
    pub next_send_message_id: MessageId,
}

impl SequencedUnreliableSender {
    /// Every queued payload fits a fragment.
    pub open spec fn wf(self) -> bool {
        &&& forall|i: int|
            0 <= i < self.messages_to_buffer@.len() ==> (#[trigger] mc_view(
                self.messages_to_buffer@[i],
            )).payload.len() <= MAX_FRAG
        &&& forall|i: int|
            0 <= i < self.messages_to_send@.len() ==> (#[trigger] mc_view(
                self.messages_to_send@[i],
            )).payload.len() <= MAX_FRAG
    }

    /// A fresh sender for a channel, ids starting at zero.
    pub fn new(channel_id: u16) -> (r: SequencedUnreliableSender)
        ensures
            r.wf(),
            r.channel_id == channel_id,
            r.messages_to_buffer@.len() == 0,
            r.messages_to_send@.len() == 0,
            r.next_send_message_id == MessageId(0),
    {
        SequencedUnreliableSender {
            channel_id,
            messages_to_buffer: Vec::new(),
            messages_to_send: Vec::new(),
            next_send_message_id: MessageId(0),
        }
    }

    /// Queue a message; one too large for a single datagram is dropped
    /// (the message manager rejects it before it gets here).
    pub fn buffer_send(&mut self, message: MessageContainer)
        requires
            old(self).wf(),
        ensures
            final(self).wf(),
            message.payload@.len() <= MAX_FRAG ==> mcs_view(final(self).messages_to_buffer@)
                == mcs_view(old(self).messages_to_buffer@).push(mc_view(message)),
            message.payload@.len() > MAX_FRAG ==> final(self).messages_to_buffer
                == old(self).messages_to_buffer,
            final(self).messages_to_send == old(self).messages_to_send,
            final(self).next_send_message_id == old(self).next_send_message_id,
            final(self).channel_id == old(self).channel_id,
    {
        if message.payload.len() <= MAX_FRAG {
            let ghost b0 = mcs_view(self.messages_to_buffer@);
            self.messages_to_buffer.push(message);
            proof {
                assert(mcs_view(self.messages_to_buffer@) =~= b0.push(mc_view(message)));
            }
        }
    }

    /// Move everything buffered into the outgoing queue, stamping each
    /// message with the next id in turn.
    pub fn collect_messages_to_send(&mut self)
        requires
            old(self).wf(),
        ensures
            final(self).wf(),
            mcs_view(final(self).messages_to_send@) == mcs_view(old(self).messages_to_send@)
                + stamped_msgs(
                mcs_view(old(self).messages_to_buffer@),
                old(self).next_send_message_id.0,
            ),
            final(self).messages_to_buffer@.len() == 0,
            final(self).next_send_message_id.0 == wrap_add(
                old(self).next_send_message_id.0,
                old(self).messages_to_buffer@.len() as int,
            ),
            final(self).channel_id == old(self).channel_id,
    {
        let ghost ts0 = mcs_view(self.messages_to_send@);
        let ghost b0 = mcs_view(self.messages_to_buffer@);
        let ghost base = self.next_send_message_id.0;
        let base_exec = self.next_send_message_id.0;
        let mut cur: u16 = base_exec;
        proof {
            lemma_wrap_add_next(base, 0);
        }
        let mut moved: Vec<MessageContainer> = Vec::new();
        core::mem::swap(&mut moved, &mut self.messages_to_buffer);
        let n = moved.len();
        let mut i: usize = 0;
        while i < n
            invariant
                n == moved@.len(),
                i <= n,
                b0 == mcs_view(moved@),
                base == base_exec,
                cur == wrap_add(base, i as int),
                mcs_view(self.messages_to_send@) == ts0 + stamped_msgs(b0, base).take(i as int),
                self.messages_to_buffer@.len() == 0,
                self.channel_id == old(self).channel_id,
                self.next_send_message_id.0 == base_exec,
                forall|j: int| 0 <= j < n ==> (#[trigger] mc_view(moved@[j])).payload.len() <= MAX_FRAG,
                forall|j: int|
                    0 <= j < self.messages_to_send@.len() ==> (#[trigger] mc_view(
                        self.messages_to_send@[j],
                    )).payload.len() <= MAX_FRAG,
            decreases n - i,
        {
            let id16: u16 = cur;
            cur = if cur == 0xffff {
                0
            } else {
                cur + 1
            };
            proof {
                lemma_wrap_add_next(base, i as int);
                assert(cur == wrap_add(base, i + 1));
            }
            let m = moved[i].duplicate();
            let stamped = MessageContainer {
                id: Some(MessageId(id16)),
                fragment: m.fragment,
                payload: m.payload,
            };
            proof {
                assert(mc_view(stamped) == stamped_msgs(b0, base)[i as int]);
            }
            let ghost ts_here = mcs_view(self.messages_to_send@);
            self.messages_to_send.push(stamped);
            proof {
                assert(mcs_view(self.messages_to_send@) =~= ts_here.push(
                    stamped_msgs(b0, base)[i as int],
                ));
                assert(ts0 + stamped_msgs(b0, base).take(i + 1) =~= (ts0 + stamped_msgs(
                    b0,
                    base,
                ).take(i as int)).push(stamped_msgs(b0, base)[i as int]));
            }
            i += 1;
        }
        proof {
            assert(stamped_msgs(b0, base).take(n as int) =~= stamped_msgs(b0, base));
        }
        self.next_send_message_id = MessageId(cur);
    }

    /// Hand the outgoing queue to the packet manager; keep what did not
    /// fit. Nothing is retained for resending.
    pub fn send_packet(&mut self, packet_manager: &mut PacketManager)
        requires
            old(self).wf(),
            old(packet_manager).wf(),
            old(packet_manager).building@.len() < 255,
        ensures
            final(self).wf(),
            final(packet_manager).wf(),
            pack_transition(
                *old(packet_manager),
                *final(packet_manager),
                old(self).channel_id,
                mcs_view(old(self).messages_to_send@),
                mcs_view(final(self).messages_to_send@),
                some_ids(
                    mcs_view(old(self).messages_to_send@).take(
                        greedy_fit(
                            mcs_view(old(self).messages_to_send@),
                            pack_budget(old(packet_manager).building_size as int),
                        ),
                    ),
                ),
            ),
            final(self).messages_to_buffer == old(self).messages_to_buffer,
            final(self).next_send_message_id == old(self).next_send_message_id,
            final(self).channel_id == old(self).channel_id,
            final(packet_manager).next_packet_id == old(packet_manager).next_packet_id,
            final(packet_manager).latest_received == old(packet_manager).latest_received,
            final(packet_manager).received_history == old(packet_manager).received_history,
            final(packet_manager).sent_packets == old(packet_manager).sent_packets,
    {
        let ghost ms0 = mcs_view(self.messages_to_send@);
        let ghost k = greedy_fit(ms0, pack_budget(packet_manager.building_size as int));
        let mut messages_to_send: Vec<MessageContainer> = Vec::new();
        core::mem::swap(&mut messages_to_send, &mut self.messages_to_send);
        let packed = packet_manager.pack_messages_within_channel(self.channel_id, messages_to_send);
        let (remaining, _sent) = packed;
        self.messages_to_send = remaining;
        proof {
            crate::packet_manager::lemma_greedy_fit_bounds(
                ms0,
                pack_budget(old(packet_manager).building_size as int),
            );
            assert(mcs_view(self.messages_to_send@) == ms0.skip(k));
            assert forall|a: int|
                0 <= a < self.messages_to_send@.len() implies (#[trigger] mc_view(
                self.messages_to_send@[a],
            )).payload.len() <= MAX_FRAG by {
                assert(mcs_view(self.messages_to_send@)[a] == ms0[k + a]);
                assert(mc_view(old(self).messages_to_send@[k + a]).payload.len() <= MAX_FRAG);
            }
        }
    }

    /// Unreliable channels track no acknowledgements.
    pub fn notify_message_delivered(&mut self, message_id: &MessageId)
        requires
            old(self).wf(),
        ensures
            *final(self) == *old(self),
    {
        let _ = message_id;
    }

    /// Whether there are collected messages waiting to be framed.
    pub fn has_messages_to_send(&self) -> (r: bool)
        ensures
            r == (self.messages_to_send@.len() > 0),
    {
        self.messages_to_send.len() > 0
    }
}

/// A trait for sending messages to a channel. A channel is a buffer over
/// packets that adds an ordering or reliability policy.
pub trait ChannelSend: Sized {
    /// The sender's internal invariant.
    spec fn wf(&self) -> bool;

    /// The compact wire id of the channel this sender serves.
    spec fn cid(&self) -> int;

    /// The collected messages waiting to be framed, as values.
    spec fn out_msgs(&self) -> Seq<WireMessageView>;

    /// What `buffer_send` does to this sender: the policy's exact
    /// relation between the state before and after taking `message`.
    spec fn buffer_rel(pre: Self, post: Self, message: MessageContainer) -> bool;

    /// Queues a message to be transmitted.
    fn buffer_send(&mut self, message: MessageContainer)
        requires
            old(self).wf(),
            message.id is None,
            message.fragment is None,
            message.payload@.len() <= 0xffff * MAX_FRAG,
        ensures
            final(self).wf(),
            final(self).cid() == old(self).cid(),
            Self::buffer_rel(*old(self), *final(self), message),
    ;

    /// Reads from the buffer of messages to send and frames as many as
    /// fit into the packet under construction for this channel.
    fn send_packet(&mut self, packet_manager: &mut PacketManager)
        requires
            old(self).wf(),
            old(packet_manager).wf(),
            old(packet_manager).building@.len() < 255,
        ensures
            final(self).wf(),
            final(self).cid() == old(self).cid(),
            final(packet_manager).wf(),
            pack_transition(
                *old(packet_manager),
                *final(packet_manager),
                old(self).cid() as u16,
                old(self).out_msgs(),
                final(self).out_msgs(),
                some_ids(
                    old(self).out_msgs().take(
                        greedy_fit(
                            old(self).out_msgs(),
                            pack_budget(old(packet_manager).building_size as int),
                        ),
                    ),
                ),
            ),
            final(packet_manager).next_packet_id == old(packet_manager).next_packet_id,
            final(packet_manager).latest_received == old(packet_manager).latest_received,
            final(packet_manager).received_history == old(packet_manager).received_history,
            final(packet_manager).sent_packets == old(packet_manager).sent_packets,
    ;

    /// Collect the messages that need to be sent, either because they
    /// have never been sent or because they are due for a resend.
    /// Needs to be called before `send_packet`.
    fn collect_messages_to_send(&mut self)
        requires
            old(self).wf(),
        ensures
            final(self).wf(),
            final(self).cid() == old(self).cid(),
    ;

    /// Called when we receive acknowledgement that a message has been
    /// received.
    fn notify_message_delivered(&mut self, message_id: &MessageId)
        requires
            old(self).wf(),
        ensures
            final(self).wf(),
            final(self).cid() == old(self).cid(),
    ;

    /// Whether there are messages ready to be framed.
    fn has_messages_to_send(&self) -> (r: bool)
        ensures
            r == (self.out_msgs().len() > 0),
    ;
}

impl ChannelSend for UnorderedUnreliableSender {
    open spec fn wf(&self) -> bool {
        UnorderedUnreliableSender::wf(*self)
    }

    open spec fn cid(&self) -> int {
        self.channel_id as int
    }

    open spec fn out_msgs(&self) -> Seq<WireMessageView> {
        mcs_view(self.messages_to_send@)
    }

    open spec fn buffer_rel(pre: Self, post: Self, message: MessageContainer) -> bool {
        &&& (message.payload@.len() <= MAX_FRAG ==> mcs_view(post.messages_to_buffer@)
            == mcs_view(pre.messages_to_buffer@).push(mc_view(message)))
        &&& (message.payload@.len() > MAX_FRAG ==> post.messages_to_buffer
            == pre.messages_to_buffer)
        &&& post.messages_to_send == pre.messages_to_send
        &&& post.channel_id == pre.channel_id
    }

    fn buffer_send(&mut self, message: MessageContainer) {
        UnorderedUnreliableSender::buffer_send(self, message)
    }

    fn send_packet(&mut self, packet_manager: &mut PacketManager) {
        UnorderedUnreliableSender::send_packet(self, packet_manager)
    }

    fn collect_messages_to_send(&mut self) {
        UnorderedUnreliableSender::collect_messages_to_send(self)
    }

    fn notify_message_delivered(&mut self, message_id: &MessageId) {
        UnorderedUnreliableSender::notify_message_delivered(self, message_id)
    }

    fn has_messages_to_send(&self) -> bool {
        UnorderedUnreliableSender::has_messages_to_send(self)
    }
}

impl ChannelSend for SequencedUnreliableSender {
    open spec fn wf(&self) -> bool {
        SequencedUnreliableSender::wf(*self)
    }

    open spec fn cid(&self) -> int {
        self.channel_id as int
    }

    open spec fn out_msgs(&self) -> Seq<WireMessageView> {
        mcs_view(self.messages_to_send@)
    }

    open spec fn buffer_rel(pre: Self, post: Self, message: MessageContainer) -> bool {
        &&& (message.payload@.len() <= MAX_FRAG ==> mcs_view(post.messages_to_buffer@)
            == mcs_view(pre.messages_to_buffer@).push(mc_view(message)))
        &&& (message.payload@.len() > MAX_FRAG ==> post.messages_to_buffer
            == pre.messages_to_buffer)
        &&& post.messages_to_send == pre.messages_to_send
        &&& post.next_send_message_id == pre.next_send_message_id
        &&& post.channel_id == pre.channel_id
    }

    fn buffer_send(&mut self, message: MessageContainer) {
        SequencedUnreliableSender::buffer_send(self, message)
    }

    fn send_packet(&mut self, packet_manager: &mut PacketManager) {
        SequencedUnreliableSender::send_packet(self, packet_manager)
    }

    fn collect_messages_to_send(&mut self) {
        SequencedUnreliableSender::collect_messages_to_send(self)
    }

    fn notify_message_delivered(&mut self, message_id: &MessageId) {
        SequencedUnreliableSender::notify_message_delivered(self, message_id)
    }

    fn has_messages_to_send(&self) -> bool {
        SequencedUnreliableSender::has_messages_to_send(self)
    }
}

impl ChannelSend for ReliableSender {
    open spec fn wf(&self) -> bool {
        ReliableSender::wf(*self)
    }

    open spec fn cid(&self) -> int {
        self.channel_id as int
    }

    open spec fn out_msgs(&self) -> Seq<WireMessageView> {
        mcs_view(self.messages_to_send@)
    }

    open spec fn buffer_rel(pre: Self, post: Self, message: MessageContainer) -> bool {
        &&& post.unacked_views() == upsert(
            pre.unacked_views(),
            UnackedView {
                id: pre.next_send_message_id.0,
                last_sent: None,
                msg: mc_view(message),
            },
        )
        &&& post.next_send_message_id.0 == wrap_next(pre.next_send_message_id.0)
        &&& post == (ReliableSender {
            unacked_messages: post.unacked_messages,
            next_send_message_id: post.next_send_message_id,
            ..pre
        })
    }

    fn buffer_send(&mut self, message: MessageContainer) {
        ReliableSender::buffer_send(self, message)
    }

    fn send_packet(&mut self, packet_manager: &mut PacketManager) {
        ReliableSender::send_packet(self, packet_manager)
    }

    fn collect_messages_to_send(&mut self) {
        ReliableSender::collect_messages_to_send(self)
    }

    fn notify_message_delivered(&mut self, message_id: &MessageId) {
        ReliableSender::notify_message_delivered(self, message_id)
    }

    fn has_messages_to_send(&self) -> bool {
        ReliableSender::has_messages_to_send(self)
    }
}

/// The closed set of sender policies, dispatched by variant.
pub enum ChannelSender {
    UnorderedUnreliable(UnorderedUnreliableSender),
    SequencedUnreliable(SequencedUnreliableSender),
    Reliable(ReliableSender),
}

impl ChannelSend for ChannelSender {
    open spec fn wf(&self) -> bool {
        match self {
            ChannelSender::UnorderedUnreliable(s) => s.wf(),
            ChannelSender::SequencedUnreliable(s) => s.wf(),
            ChannelSender::Reliable(s) => ReliableSender::wf(*s),
        }
    }

    open spec fn cid(&self) -> int {
        match self {
            ChannelSender::UnorderedUnreliable(s) => s.channel_id as int,
            ChannelSender::SequencedUnreliable(s) => s.channel_id as int,
            ChannelSender::Reliable(s) => s.channel_id as int,
        }
    }

    open spec fn out_msgs(&self) -> Seq<WireMessageView> {
        match self {
            ChannelSender::UnorderedUnreliable(s) => mcs_view(s.messages_to_send@),
            ChannelSender::SequencedUnreliable(s) => mcs_view(s.messages_to_send@),
            ChannelSender::Reliable(s) => mcs_view(s.messages_to_send@),
        }
    }

    open spec fn buffer_rel(pre: Self, post: Self, message: MessageContainer) -> bool {
        match (pre, post) {
            (ChannelSender::UnorderedUnreliable(a), ChannelSender::UnorderedUnreliable(b)) => {
                <UnorderedUnreliableSender as ChannelSend>::buffer_rel(a, b, message)
            },
            (ChannelSender::SequencedUnreliable(a), ChannelSender::SequencedUnreliable(b)) => {
                <SequencedUnreliableSender as ChannelSend>::buffer_rel(a, b, message)
            },
            (ChannelSender::Reliable(a), ChannelSender::Reliable(b)) => {
                <ReliableSender as ChannelSend>::buffer_rel(a, b, message)
            },
            _ => false,
        }
    }

    fn buffer_send(&mut self, message: MessageContainer) {
        match self {
            ChannelSender::UnorderedUnreliable(s) => UnorderedUnreliableSender::buffer_send(
                s,
                message,
            ),
            ChannelSender::SequencedUnreliable(s) => SequencedUnreliableSender::buffer_send(
                s,
                message,
            ),
            ChannelSender::Reliable(s) => ReliableSender::buffer_send(s, message),
        }
    }

    fn send_packet(&mut self, packet_manager: &mut PacketManager) {
        match self {
            ChannelSender::UnorderedUnreliable(s) => UnorderedUnreliableSender::send_packet(
                s,
                packet_manager,
            ),
            ChannelSender::SequencedUnreliable(s) => SequencedUnreliableSender::send_packet(
                s,
                packet_manager,
            ),
            ChannelSender::Reliable(s) => ReliableSender::send_packet(s, packet_manager),
        }
    }

    fn collect_messages_to_send(&mut self) {
        match self {
            ChannelSender::UnorderedUnreliable(s) => {
                UnorderedUnreliableSender::collect_messages_to_send(s)
            },
            ChannelSender::SequencedUnreliable(s) => {
                SequencedUnreliableSender::collect_messages_to_send(s)
            },
            ChannelSender::Reliable(s) => ReliableSender::collect_messages_to_send(s),
        }
    }

    fn notify_message_delivered(&mut self, message_id: &MessageId) {
        match self {
            ChannelSender::UnorderedUnreliable(s) => {
                UnorderedUnreliableSender::notify_message_delivered(s, message_id)
            },
            ChannelSender::SequencedUnreliable(s) => {
                SequencedUnreliableSender::notify_message_delivered(s, message_id)
            },
            ChannelSender::Reliable(s) => ReliableSender::notify_message_delivered(s, message_id),
        }
    }

    fn has_messages_to_send(&self) -> bool {
        match self {
            ChannelSender::UnorderedUnreliable(s) => {
                UnorderedUnreliableSender::has_messages_to_send(s)
            },
            ChannelSender::SequencedUnreliable(s) => {
                SequencedUnreliableSender::has_messages_to_send(s)
            },
            ChannelSender::Reliable(s) => ReliableSender::has_messages_to_send(s),
        }
    }
}

} // verus!
