//! The receiving half of a channel, and fragment reassembly.
//!
//! Each policy keeps a ghost history of the message ids it has released
//! to the application, so its guarantee is part of its invariant:
//! a sequenced receiver's history is strictly increasing by wrap-around
//! order; a reliable-unordered receiver's history never repeats an id;
//! a reliable-ordered receiver's history is exactly the consecutive run
//! of ids from its starting point, in order.

use vstd::prelude::*;
use crate::message::{mc_view, mcs_view, MessageContainer, MessageId};
use crate::senders::{concat_all, wrap_add, lemma_wrap_add_next};
use crate::wrapping::{lemma_wrap_next_gt, wrap_gt, wrapping_diff, wrapping_next};

verus! {

/// Deliver every message exactly as it arrives.
pub struct UnorderedUnreliableReceiver {
    /// Messages ready for the application.
    pub pending: Vec<MessageContainer>,
}

impl UnorderedUnreliableReceiver {
    /// A fresh receiver.
    pub fn new() -> (r: UnorderedUnreliableReceiver)
        ensures
            r.pending@.len() == 0,
    {
        UnorderedUnreliableReceiver { pending: Vec::new() }
    }

    /// Accept an arriving message: it is always released.
    pub fn buffer_recv(&mut self, message: MessageContainer)
        ensures
            mcs_view(final(self).pending@) == mcs_view(old(self).pending@).push(mc_view(message)),
    {
        let ghost p0 = mcs_view(self.pending@);
        self.pending.push(message);
        proof {
            assert(mcs_view(self.pending@) =~= p0.push(mc_view(message)));
        }
    }

    /// Hand every ready message to the application, in arrival order.
    pub fn read_messages(&mut self) -> (r: Vec<MessageContainer>)
        ensures
            mcs_view(r@) == mcs_view(old(self).pending@),
            final(self).pending@.len() == 0,
    {
        let mut r: Vec<MessageContainer> = Vec::new();
        core::mem::swap(&mut r, &mut self.pending);
        r
    }
}

/// Keep only messages newer than the newest already seen.
pub struct SequencedUnreliableReceiver {
    /// The newest message id released so far.
    pub latest_seen: Option<MessageId>,
    /// Messages ready for the application.
    pub pending: Vec<MessageContainer>,
    /// Every id released, in release order.
    pub history: Ghost<Seq<u16>>,
}

impl SequencedUnreliableReceiver {
    /// Released ids grow strictly by wrap-around order, and the newest
    /// is remembered.
    pub open spec fn wf(self) -> bool {
        &&& forall|i: int|
            0 <= i < self.history@.len() - 1 ==> wrap_gt(
                self.history@[i + 1],
                #[trigger] self.history@[i],
            )
        &&& (match self.latest_seen {
            None => self.history@.len() == 0,
            Some(l) => self.history@.len() > 0 && self.history@.last() == l.0,
        })
    }

    /// A fresh receiver that has seen nothing.
    pub fn new() -> (r: SequencedUnreliableReceiver)
        ensures
            r.wf(),
            r.latest_seen is None,
            r.pending@.len() == 0,
            r.history@ == Seq::<u16>::empty(),
    {
        SequencedUnreliableReceiver {
            latest_seen: None,
            pending: Vec::new(),
            history: Ghost(Seq::empty()),
        }
    }

    /// Accept an arriving message: released exactly when its id is
    /// strictly newer than the newest seen; anything older or already
    /// seen is dropped, so released ids only ever grow.
    pub fn buffer_recv(&mut self, message: MessageContainer)
        requires
            old(self).wf(),
            message.id is Some,
        ensures
            final(self).wf(),
            ({
                let id = (message.id->0).0;
                let fresh = match old(self).latest_seen {
                    None => true,
                    Some(l) => wrap_gt(id, l.0),
                };
                if fresh {
                    &&& mcs_view(final(self).pending@) == mcs_view(old(self).pending@).push(
                        mc_view(message),
                    )
                    &&& final(self).latest_seen == Some(MessageId(id))
                    &&& final(self).history@ == old(self).history@.push(id)
                } else {
                    *final(self) == *old(self)
                }
            }),
    {
        let id = match &message.id {
            Some(i) => i.0,
            None => 0,
        };
        let fresh = match &self.latest_seen {
            None => true,
            Some(l) => wrapping_diff(id, l.0) > 0,
        };
        if fresh {
            let ghost p0 = mcs_view(self.pending@);
            self.pending.push(message);
            self.latest_seen = Some(MessageId(id));
            proof {
                self.history@ = self.history@.push(id);
                assert(mcs_view(self.pending@) =~= p0.push(mc_view(message)));
            }
        }
    }

    /// Hand every ready message to the application, in release order.
    pub fn read_messages(&mut self) -> (r: Vec<MessageContainer>)
        requires
            old(self).wf(),
        ensures
            final(self).wf(),
            mcs_view(r@) == mcs_view(old(self).pending@),
            final(self).pending@.len() == 0,
            final(self).latest_seen == old(self).latest_seen,
            final(self).history == old(self).history,
    {
        let mut r: Vec<MessageContainer> = Vec::new();
        core::mem::swap(&mut r, &mut self.pending);
        r
    }
}

/// The ids released at a sequenced receiver are strictly increasing by
/// signed wrap-around distance: older arrivals are dropped.
pub proof fn lemma_sequenced_monotone(r: SequencedUnreliableReceiver)
    requires
        r.wf(),
    ensures
        forall|i: int|
            0 <= i < r.history@.len() - 1 ==> wrap_gt(r.history@[i + 1], #[trigger] r.history@[i]),
{
}

/// Deliver on first arrival, drop duplicates, in any order.
pub struct ReliableUnorderedReceiver {
    /// Every id released so far, in release order; never repeats.
    pub delivered_ids: Vec<u16>,
    /// Messages ready for the application.
    pub pending: Vec<MessageContainer>,
}

impl ReliableUnorderedReceiver {
    /// The release record never repeats an id.
    pub open spec fn wf(self) -> bool {
        forall|i: int, j: int|
            0 <= i < j < self.delivered_ids@.len() ==> self.delivered_ids@[i]
                != self.delivered_ids@[j]
    }

    /// A fresh receiver.
    pub fn new() -> (r: ReliableUnorderedReceiver)
        ensures
            r.wf(),
            r.delivered_ids@ == Seq::<u16>::empty(),
            r.pending@.len() == 0,
    {
        ReliableUnorderedReceiver { delivered_ids: Vec::new(), pending: Vec::new() }
    }

    /// Accept an arriving message: released exactly when its id has
    /// never been released before; a duplicate leaves the receiver
    /// unchanged, so every id is released at most once.
    pub fn buffer_recv(&mut self, message: MessageContainer)
        requires
            old(self).wf(),
            message.id is Some,
        ensures
            final(self).wf(),
            ({
                let id = (message.id->0).0;
                if old(self).delivered_ids@.contains(id) {
                    *final(self) == *old(self)
                } else {
                    &&& mcs_view(final(self).pending@) == mcs_view(old(self).pending@).push(
                        mc_view(message),
                    )
                    &&& final(self).delivered_ids@ == old(self).delivered_ids@.push(id)
                }
            }),
    {
        let id = match &message.id {
            Some(i) => i.0,
            None => 0,
        };
        if !crate::acks::contains_u16(&self.delivered_ids, id) {
            let ghost p0 = mcs_view(self.pending@);
            self.pending.push(message);
            self.delivered_ids.push(id);
            proof {
                assert(mcs_view(self.pending@) =~= p0.push(mc_view(message)));
            }
        }
    }

    /// Hand every ready message to the application.
    pub fn read_messages(&mut self) -> (r: Vec<MessageContainer>)
        requires
            old(self).wf(),
        ensures
            final(self).wf(),
            mcs_view(r@) == mcs_view(old(self).pending@),
            final(self).pending@.len() == 0,
            final(self).delivered_ids == old(self).delivered_ids,
    {
        let mut r: Vec<MessageContainer> = Vec::new();
        core::mem::swap(&mut r, &mut self.pending);
        r
    }
}

/// Release in id order, buffering anything that arrives early.
pub struct ReliableOrderedReceiver {
    /// The id the next released message must carry.
    pub next_expected: u16,
    /// Early arrivals, by id; ids unique, none already released.
    pub buffer: Vec<(u16, MessageContainer)>,
    /// Messages ready for the application, in id order.
    pub pending: Vec<MessageContainer>,
    /// The id the receiver started at.
    pub start: Ghost<u16>,
    /// Every id released, in release order: exactly the consecutive run
    /// from `start`.
    pub history: Ghost<Seq<u16>>,
}

impl ReliableOrderedReceiver {
    /// Released ids are the consecutive run from `start`, and the
    /// buffer holds only unreleased, not-yet-due ids, each once.
    pub open spec fn wf(self) -> bool {
        &&& forall|i: int|
            0 <= i < self.history@.len() ==> #[trigger] self.history@[i] == wrap_add(
                self.start@,
                i,
            )
        &&& self.next_expected == wrap_add(self.start@, self.history@.len() as int)
        &&& forall|i: int, j: int|
            0 <= i < j < self.buffer@.len() ==> self.buffer@[i].0 != self.buffer@[j].0
    }

    /// A fresh receiver expecting id zero first.
    pub fn new() -> (r: ReliableOrderedReceiver)
        ensures
            r.wf(),
            r.next_expected == 0,
            r.buffer@.len() == 0,
            r.pending@.len() == 0,
            r.history@ == Seq::<u16>::empty(),
            r.start@ == 0,
    {
        let r = ReliableOrderedReceiver {
            next_expected: 0,
            buffer: Vec::new(),
            pending: Vec::new(),
            start: Ghost(0),
            history: Ghost(Seq::empty()),
        };
        proof {
            lemma_wrap_add_next(0, 0);
        }
        r
    }

    /// Find an id among the early arrivals.
    fn find_buffered(&self, id: u16) -> (r: Option<usize>)
        ensures
            match r {
                Some(i) => i < self.buffer@.len() && self.buffer@[i as int].0 == id,
                None => forall|j: int| 0 <= j < self.buffer@.len() ==> self.buffer@[j].0 != id,
            },
    {
        let n = self.buffer.len();
        let mut i: usize = 0;
        while i < n
            invariant
                n == self.buffer@.len(),
                i <= n,
                forall|j: int| 0 <= j < i ==> self.buffer@[j].0 != id,
            decreases n - i,
        {
            if self.buffer[i].0 == id {
                return Some(i);
            }
            i += 1;
        }
        None
    }

    /// Accept an arriving message. A message whose id was already
    /// released, or already waits in the buffer, changes nothing. The
    /// expected id is released at once, followed by every consecutive
    /// successor already buffered; a later id waits in the buffer.
    #[verifier::loop_isolation(false)]
    pub fn buffer_recv(&mut self, message: MessageContainer)
        requires
            old(self).wf(),
            message.id is Some,
        ensures
            final(self).wf(),
            final(self).start == old(self).start,
            ({
                let id = (message.id->0).0;
                if id == old(self).next_expected {
                    &&& final(self).history@.len() > old(self).history@.len()
                    &&& final(self).history@.take(old(self).history@.len() as int) == old(
                        self,
                    ).history@
                    &&& final(self).history@[old(self).history@.len() as int] == id
                    &&& mcs_view(final(self).pending@).take(old(self).pending@.len() as int)
                        == mcs_view(old(self).pending@)
                    &&& mcs_view(final(self).pending@).len() == mcs_view(old(self).pending@).len()
                        + final(self).history@.len() - old(self).history@.len()
                    &&& mcs_view(final(self).pending@)[old(self).pending@.len() as int] == mc_view(
                        message,
                    )
                } else if wrap_gt(id, old(self).next_expected) && (forall|j: int|
                    0 <= j < old(self).buffer@.len() ==> old(self).buffer@[j].0 != id) {
                    &&& final(self).history == old(self).history
                    &&& final(self).pending == old(self).pending
                    &&& final(self).buffer@.len() == old(self).buffer@.len() + 1
                    &&& final(self).buffer@.take(old(self).buffer@.len() as int) == old(
                        self,
                    ).buffer@
                    &&& final(self).buffer@.last().0 == id
                    &&& mc_view(final(self).buffer@.last().1) == mc_view(message)
                } else {
                    &&& final(self).history == old(self).history
                    &&& final(self).pending == old(self).pending
                    &&& final(self).buffer == old(self).buffer
                }
            }),
    {
        let id = match &message.id {
            Some(i) => i.0,
            None => 0,
        };
        if id == self.next_expected {
            let ghost h0 = self.history@;
            let ghost p0 = mcs_view(self.pending@);
            self.pending.push(message);
            proof {
                self.history@ = self.history@.push(id);
                lemma_wrap_add_next(self.start@, h0.len() as int);
                assert(mcs_view(self.pending@) =~= p0.push(mc_view(
                    self.pending@[p0.len() as int],
                )));
            }
            self.next_expected = wrapping_next(self.next_expected);
            // release every consecutive successor already buffered
            loop
                invariant
                    self.wf(),
                    self.start == old(self).start,
                    self.history@.len() > h0.len(),
                    self.history@.take(h0.len() as int) == h0,
                    self.history@[h0.len() as int] == id,
                    mcs_view(self.pending@).take(p0.len() as int) == p0,
                    mcs_view(self.pending@).len() == p0.len() + self.history@.len() - h0.len(),
                    mcs_view(self.pending@)[p0.len() as int] == mc_view(message),
                decreases self.buffer@.len(),
            {
                let idx = match self.find_buffered(self.next_expected) {
                    Some(i) => i,
                    None => {
                        break;
                    },
                };
                let entry = self.buffer.remove(idx);
                let ghost hh = self.history@;
                let ghost pp = mcs_view(self.pending@);
                let ghost buf_pre = self.buffer@;
                self.pending.push(entry.1);
                proof {
                    self.history@ = self.history@.push(entry.0);
                    lemma_wrap_add_next(self.start@, hh.len() as int);
                    assert(entry.0 == wrap_add(self.start@, hh.len() as int));
                    assert(mcs_view(self.pending@) =~= pp.push(mc_view(
                        self.pending@[pp.len() as int],
                    )));
                    assert(self.history@.take(h0.len() as int) =~= hh.take(h0.len() as int));
                    assert(mcs_view(self.pending@).take(p0.len() as int) =~= pp.take(
                        p0.len() as int,
                    ));
                }
                self.next_expected = wrapping_next(self.next_expected);
            }
        } else if wrapping_diff(id, self.next_expected) > 0 {
            match self.find_buffered(id) {
                Some(_) => {},
                None => {
                    let ghost b0 = self.buffer@;
                    self.buffer.push((id, message));
                    proof {
                        assert(self.buffer@.take(b0.len() as int) =~= b0);
                    }
                },
            }
        } else {
            proof {
                crate::wrapping::lemma_wrap_diff_zero(id, self.next_expected);
            }
        }
    }

    /// Hand every ready message to the application, in id order.
    pub fn read_messages(&mut self) -> (r: Vec<MessageContainer>)
        requires
            old(self).wf(),
        ensures
            final(self).wf(),
            mcs_view(r@) == mcs_view(old(self).pending@),
            final(self).pending@.len() == 0,
            final(self).buffer == old(self).buffer,
            final(self).next_expected == old(self).next_expected,
            final(self).history == old(self).history,
            final(self).start == old(self).start,
    {
        let mut r: Vec<MessageContainer> = Vec::new();
        core::mem::swap(&mut r, &mut self.pending);
        r
    }
}

/// The ids released at an ordered receiver are exactly the consecutive
/// run from its start, so each is one wrap-around step above the one
/// before: the release order is strictly increasing.
pub proof fn lemma_ordered_monotone(r: ReliableOrderedReceiver)
    requires
        r.wf(),
    ensures
        forall|i: int|
            0 <= i < r.history@.len() - 1 ==> wrap_gt(r.history@[i + 1], #[trigger] r.history@[i]),
{
    assert forall|i: int|
        0 <= i < r.history@.len() - 1 implies wrap_gt(r.history@[i + 1], #[trigger] r.history@[i]) by {
        lemma_wrap_add_next(r.start@, i);
        lemma_wrap_next_gt(wrap_add(r.start@, i));
        assert(r.history@[i] == wrap_add(r.start@, i));
        assert(r.history@[i + 1] == wrap_add(r.start@, i + 1));
    }
}

/// An ordered receiver never releases an id twice: the run from `start`
/// visits each id at most once until the id space wraps.
pub proof fn lemma_ordered_exactly_once(r: ReliableOrderedReceiver)
    requires
        r.wf(),
        r.history@.len() <= 0x10000,
    ensures
        forall|i: int, j: int|
            0 <= i < j < r.history@.len() ==> r.history@[i] != r.history@[j],
{
    assert forall|i: int, j: int|
        0 <= i < j < r.history@.len() implies r.history@[i] != r.history@[j] by {
        assert(r.history@[i] == wrap_add(r.start@, i));
        assert(r.history@[j] == wrap_add(r.start@, j));
        let m = 0x10000;
        vstd::arithmetic::div_mod::lemma_mod_bound(r.start@ + i, m);
        vstd::arithmetic::div_mod::lemma_mod_bound(r.start@ + j, m);
        if (r.start@ + i) % m == (r.start@ + j) % m {
            vstd::arithmetic::div_mod::lemma_mod_adds(r.start@ + i, j - i, m);
            assert((r.start@ + j) % m == ((r.start@ + i) % m + (j - i) % m) % m);
            vstd::arithmetic::div_mod::lemma_small_mod((j - i) as nat, m as nat);
            let w = (r.start@ + i) % m;
            vstd::arithmetic::div_mod::lemma_add_mod_noop(w, j - i, m);
            assert((w + (j - i)) % m == w);
            if w + (j - i) < m {
                vstd::arithmetic::div_mod::lemma_small_mod((w + (j - i)) as nat, m as nat);
                assert(false);
            } else {
                vstd::arithmetic::div_mod::lemma_mod_sub_multiples_vanish(w + (j - i), m);
                assert((w + (j - i)) % m == (w + (j - i) - m) % m);
                vstd::arithmetic::div_mod::lemma_small_mod((w + (j - i) - m) as nat, m as nat);
                assert(false);
            }
        }
    }
}

/// An unordered reliable receiver releases every id at most once over
/// the whole connection: its release record never repeats.
pub proof fn lemma_unordered_exactly_once(r: ReliableUnorderedReceiver)
    requires
        r.wf(),
    ensures
        forall|i: int, j: int|
            0 <= i < j < r.delivered_ids@.len() ==> r.delivered_ids@[i] != r.delivered_ids@[j],
{
}

/// The mathematical value of the reassembly table: for each group its
/// base id, fragment total, and slot contents.
pub open spec fn groups_view(gs: Seq<(u16, u16, Vec<Option<Vec<u8>>>)>) -> Seq<
    (u16, u16, Seq<Option<Seq<u8>>>),
> {
    gs.map_values(|g: (u16, u16, Vec<Option<Vec<u8>>>)| (g.0, g.1, slots_view(g.2@)))
}

/// The first group under a base id, or -1 when none exists.
pub open spec fn find_group(gv: Seq<(u16, u16, Seq<Option<Seq<u8>>>)>, base: u16) -> int
    decreases gv.len(),
{
    if gv.len() == 0 {
        -1
    } else if gv[0].0 == base {
        0
    } else {
        let r = find_group(gv.drop_first(), base);
        if r == -1 {
            -1
        } else {
            r + 1
        }
    }
}

/// A first occurrence at `idx` is what `find_group` names.
pub proof fn lemma_find_group_at(gv: Seq<(u16, u16, Seq<Option<Seq<u8>>>)>, base: u16, idx: int)
    requires
        0 <= idx < gv.len(),
        gv[idx].0 == base,
        forall|j: int| 0 <= j < idx ==> gv[j].0 != base,
    ensures
        find_group(gv, base) == idx,
    decreases idx,
{
    if idx > 0 {
        lemma_find_group_at(gv.drop_first(), base, idx - 1);
    }
}

/// With no occurrence, `find_group` names none.
pub proof fn lemma_find_group_missing(gv: Seq<(u16, u16, Seq<Option<Seq<u8>>>)>, base: u16)
    requires
        forall|j: int| 0 <= j < gv.len() ==> gv[j].0 != base,
    ensures
        find_group(gv, base) == -1,
    decreases gv.len(),
{
    if gv.len() > 0 {
        lemma_find_group_missing(gv.drop_first(), base);
    }
}

/// The slot contents of a message's group after one fragment lands:
/// the group found under `gi` (or a fresh all-empty row of `total`
/// slots) with slice `index` filled by the payload.
pub open spec fn accept_slots(
    gv: Seq<(u16, u16, Seq<Option<Seq<u8>>>)>,
    gi: int,
    index: u16,
    total: u16,
    payload: Seq<u8>,
) -> Seq<Option<Seq<u8>>> {
    let slots0: Seq<Option<Seq<u8>>> = if gi >= 0 {
        gv[gi].2
    } else {
        Seq::new(total as nat, |q: int| None)
    };
    slots0.update(index as int, Some(payload))
}

/// Reassembles fragmented messages: one group per base id, one slot per
/// fragment index; a message surfaces only when every slot is filled.
pub struct FragmentReassembler {
    /// For each base id: the fragment total and the slots, by index.
    pub groups: Vec<(u16, u16, Vec<Option<Vec<u8>>>)>,
}

impl FragmentReassembler {
    /// Each group's slot count is its fragment total.
    pub open spec fn wf(self) -> bool {
        forall|i: int|
            0 <= i < self.groups@.len() ==> (#[trigger] self.groups@[i]).2@.len()
                == self.groups@[i].1
    }

    /// A fresh reassembler with no partial messages.
    pub fn new() -> (r: FragmentReassembler)
        ensures
            r.wf(),
            r.groups@.len() == 0,
    {
        FragmentReassembler { groups: Vec::new() }
    }

    /// How many slots of the group at `gi` are filled.
    fn filled_count(slots: &Vec<Option<Vec<u8>>>) -> (r: usize)
        ensures
            r <= slots@.len(),
            r == slots@.len() <==> (forall|j: int| 0 <= j < slots@.len() ==> slots@[j] is Some),
    {
        let n = slots.len();
        let mut count: usize = 0;
        let mut i: usize = 0;
        while i < n
            invariant
                n == slots@.len(),
                i <= n,
                count <= i,
                count == i <==> (forall|j: int| 0 <= j < i ==> slots@[j] is Some),
            decreases n - i,
        {
            if slots[i].is_some() {
                count += 1;
            } else {
                proof {
                    assert(slots@[i as int] is None);
                }
            }
            i += 1;
        }
        count
    }

    /// Concatenate the filled slots of a complete group, in index order.
    fn assemble(slots: &Vec<Option<Vec<u8>>>) -> (r: Vec<u8>)
        requires
            forall|j: int| 0 <= j < slots@.len() ==> slots@[j] is Some,
        ensures
            r@ == concat_all(Seq::new(slots@.len() as nat, |j: int| slots@[j]->0@)),
    {
        let ghost parts = Seq::new(slots@.len() as nat, |j: int| slots@[j]->0@);
        let mut r: Vec<u8> = Vec::new();
        let n = slots.len();
        let mut i: usize = 0;
        proof {
            lemma_concat_take_step(parts, 0);
        }
        while i < n
            invariant
                n == slots@.len(),
                i <= n,
                parts == Seq::new(slots@.len() as nat, |j: int| slots@[j]->0@),
                forall|j: int| 0 <= j < n ==> slots@[j] is Some,
                r@ == concat_prefix(parts, i as int),
            decreases n - i,
        {
            match &slots[i] {
                Some(piece) => {
                    let ghost r0 = r@;
                    let m = piece.len();
                    let mut t: usize = 0;
                    while t < m
                        invariant
                            m == piece@.len(),
                            t <= m,
                            r@ == r0 + piece@.take(t as int),
                        decreases m - t,
                    {
                        r.push(piece[t]);
                        proof {
                            assert(r0 + piece@.take(t + 1) =~= (r0 + piece@.take(t as int)).push(
                                piece@[t as int],
                            ));
                        }
                        t += 1;
                    }
                    proof {
                        assert(piece@.take(m as int) =~= piece@);
                        assert(parts[i as int] == piece@);
                        lemma_concat_prefix_step(parts, i as int);
                    }
                },
                None => {
                    proof {
                        assert(false);
                    }
                },
            }
            i += 1;
        }
        proof {
            lemma_concat_prefix_all(parts);
        }
        r
    }

    /// Place one fragment payload into its slot. The whole message
    /// surfaces exactly when, after this placement, every slot is
    /// filled — and then it is the slots' payloads concatenated in
    /// index order; with any slot still empty, nothing surfaces.
    pub fn insert_fragment(slots: &mut Vec<Option<Vec<u8>>>, index: usize, payload: Vec<u8>) -> (r:
        Option<Vec<u8>>)
        requires
            index < old(slots)@.len(),
        ensures
            slots_view(final(slots)@) == slots_view(old(slots)@).update(
                index as int,
                Some(payload@),
            ),
            (r is Some) <==> (forall|j: int|
                0 <= j < final(slots)@.len() ==> final(slots)@[j] is Some),
            r is Some ==> r->0@ == concat_all(
                Seq::new(final(slots)@.len() as nat, |j: int| final(slots)@[j]->0@),
            ),
    {
        let ghost s0 = slots_view(slots@);
        slots.set(index, Some(payload));
        proof {
            assert(slots_view(slots@) =~= s0.update(index as int, Some(payload@)));
        }
        let complete = Self::filled_count(slots) == slots.len();
        if complete {
            let assembled = Self::assemble(slots);
            Some(assembled)
        } else {
            None
        }
    }

    /// Accept one fragment: slice `index` of `total` for the message
    /// whose fragments started at `base_id`. Returns the whole payload
    /// exactly when this fragment completes the group; a repeated
    /// fragment overwrites its own slot and changes nothing else.
    /// Accept one fragment: slice `index` of `total` for the message
    /// with message id `base_id`. The fragment fills its slot of the
    /// message's group (a fresh, empty group when none exists; a group
    /// under a conflicting total refuses the fragment unchanged). The
    /// whole payload is returned exactly when, with this slot filled,
    /// the group completed — and then it is the slots' payloads
    /// concatenated in index order and the group is gone; otherwise
    /// nothing surfaces and the updated group stays, moved to the end.
    #[verifier::loop_isolation(false)]
    #[verifier::rlimit(100)]
    #[verifier::spinoff_prover]
    pub fn accept(&mut self, base_id: u16, index: u16, total: u16, payload: Vec<u8>) -> (r: Option<
        Vec<u8>,
    >)
        requires
            old(self).wf(),
            index < total,
        ensures
            final(self).wf(),
            ({
                let gv = groups_view(old(self).groups@);
                let gi = find_group(gv, base_id);
                gi >= 0 && gv[gi].1 != total ==> r is None && final(self).groups == old(
                    self,
                ).groups
            }),
            ({
                let gv = groups_view(old(self).groups@);
                let gi = find_group(gv, base_id);
                !(gi >= 0 && gv[gi].1 != total) ==> (r is Some <==> (forall|q: int|
                    0 <= q < accept_slots(gv, gi, index, total, payload@).len()
                        ==> accept_slots(gv, gi, index, total, payload@)[q] is Some))
            }),
            ({
                let gv = groups_view(old(self).groups@);
                let gi = find_group(gv, base_id);
                !(gi >= 0 && gv[gi].1 != total) && r is Some ==> r->0@ == concat_all(
                    Seq::new(
                        accept_slots(gv, gi, index, total, payload@).len(),
                        |q: int| accept_slots(gv, gi, index, total, payload@)[q]->0,
                    ),
                ) && groups_view(final(self).groups@) == (if gi >= 0 {
                    gv.remove(gi)
                } else {
                    gv
                })
            }),
            ({
                let gv = groups_view(old(self).groups@);
                let gi = find_group(gv, base_id);
                !(gi >= 0 && gv[gi].1 != total) && r is None ==> groups_view(final(self).groups@)
                    == (if gi >= 0 {
                    gv.remove(gi)
                } else {
                    gv
                }).push((base_id, total, accept_slots(gv, gi, index, total, payload@)))
            }),
    {
        let ghost gv = groups_view(self.groups@);
        let mut gi: usize = 0;
        let n = self.groups.len();
        while gi < n && self.groups[gi].0 != base_id
            invariant
                n == self.groups@.len(),
                gi <= n,
                *self == *old(self),
                forall|j: int| 0 <= j < gi ==> gv[j].0 != base_id,
            decreases n - gi,
        {
            proof {
                assert(gv[gi as int].0 == self.groups@[gi as int].0);
            }
            gi += 1;
        }
        let found = gi < n;
        proof {
            if found {
                assert(gv[gi as int].0 == self.groups@[gi as int].0);
                lemma_find_group_at(gv, base_id, gi as int);
            } else {
                assert forall|j: int| 0 <= j < gv.len() implies gv[j].0 != base_id by {
                    assert(gv[j].0 == self.groups@[j].0);
                }
                lemma_find_group_missing(gv, base_id);
            }
        }
        if found && self.groups[gi].1 != total {
            // a conflicting total cannot belong to the same message; the
            // fragment is dropped and the group stays untouched
            proof {
                assert(gv[gi as int].1 == self.groups@[gi as int].1);
            }
            return None;
        }
        proof {
            if found {
                assert(gv[gi as int].1 == self.groups@[gi as int].1);
                assert(gv[gi as int].1 == total);
                assert(gv[gi as int].2 == slots_view(self.groups@[gi as int].2@));
            }
        }
        let entry: (u16, u16, Vec<Option<Vec<u8>>>) = if found {
            let ghost g0 = self.groups@;
            let e = self.groups.remove(gi);
            proof {
                assert forall|i: int| 0 <= i < self.groups@.len() implies (#[trigger] self.groups@[
                    i
                ]).2@.len() == self.groups@[i].1 by {
                    if i < gi {
                        assert(self.groups@[i] == g0[i]);
                    } else {
                        assert(self.groups@[i] == g0[i + 1]);
                    }
                }
                assert forall|i: int|
                    0 <= i < self.groups@.len() implies #[trigger] groups_view(self.groups@)[i]
                    == gv.remove(gi as int)[i] by {
                    if i < gi {
                        assert(self.groups@[i] == g0[i]);
                    } else {
                        assert(self.groups@[i] == g0[i + 1]);
                    }
                }
                assert(groups_view(self.groups@) =~= gv.remove(gi as int));
            }
            e
        } else {
            let mut slots: Vec<Option<Vec<u8>>> = Vec::new();
            let mut i: usize = 0;
            while i < total as usize
                invariant
                    i <= total,
                    slots@.len() == i,
                    forall|q: int| 0 <= q < i ==> slots@[q] is None,
                decreases total as usize - i,
            {
                slots.push(None);
                i += 1;
            }
            proof {
                assert(slots_view(slots@) =~= Seq::new(total as nat, |q: int| None));
            }
            (base_id, total, slots)
        };
        let ghost left = groups_view(self.groups@);
        let ghost slots0 = slots_view(entry.2@);
        proof {
            if found {
                assert(slots0 == gv[find_group(gv, base_id)].2);
            } else {
                assert(slots0 =~= Seq::new(total as nat, |q: int| None));
            }
        }
        let (b, t, mut slots) = entry;
        let done = Self::insert_fragment(&mut slots, index as usize, payload);
        match done {
            Some(assembled) => {
                proof {
                    assert(slots_view(slots@) == slots0.update(index as int, Some(payload@)));
                    assert(forall|q: int|
                        0 <= q < slots_view(slots@).len() ==> slots_view(slots@)[q] is Some);
                    assert(Seq::new(slots@.len() as nat, |j: int| slots@[j]->0@) =~= Seq::new(
                        slots_view(slots@).len(),
                        |q: int| slots_view(slots@)[q]->0,
                    ));
                    let gi2 = find_group(gv, base_id);
                    let slots0e: Seq<Option<Seq<u8>>> = if gi2 >= 0 {
                        gv[gi2].2
                    } else {
                        Seq::new(total as nat, |q: int| None)
                    };
                    let slots1e = slots0e.update(index as int, Some(payload@));
                    assert(slots0e == slots0);
                    assert(slots1e == slots_view(slots@));
                    assert(forall|q: int| 0 <= q < slots1e.len() ==> slots1e[q] is Some);
                    assert(assembled@ == concat_all(
                        Seq::new(slots1e.len(), |q: int| slots1e[q]->0),
                    ));
                    assert(groups_view(self.groups@) == (if gi2 >= 0 {
                        gv.remove(gi2)
                    } else {
                        gv
                    }));
                }
                Some(assembled)
            },
            None => {
                proof {
                    assert(slots_view(slots@).len() == slots@.len());
                    let w = choose|q: int|
                        0 <= q < slots@.len() && !(slots@[q] is Some);
                    assert(slots_view(slots@)[w] is None);
                }
                let ghost g_before = self.groups@;
                self.groups.push((b, t, slots));
                proof {
                    assert(groups_view(self.groups@) =~= groups_view(g_before).push(
                        (b, t, slots_view(slots@)),
                    ));
                }
                None
            },
        }
    }
}

/// The mathematical value of a run of fragment slots.
pub open spec fn slots_view(s: Seq<Option<Vec<u8>>>) -> Seq<Option<Seq<u8>>> {
    s.map_values(
        |o: Option<Vec<u8>>|
            match o {
                Some(v) => Some(v@),
                None => None,
            },
    )
}

/// The first `i` slices of a run, concatenated.
pub open spec fn concat_prefix(ss: Seq<Seq<u8>>, i: int) -> Seq<u8> {
    concat_all(ss.take(i))
}

proof fn lemma_concat_take_step(ss: Seq<Seq<u8>>, i: int)
    ensures
        concat_prefix(ss, 0) == Seq::<u8>::empty(),
{
    assert(ss.take(0) =~= Seq::<Seq<u8>>::empty());
}

/// Appending slice `i` extends the concatenation by that slice.
proof fn lemma_concat_prefix_step(ss: Seq<Seq<u8>>, i: int)
    requires
        0 <= i < ss.len(),
    ensures
        concat_prefix(ss, i + 1) == concat_prefix(ss, i) + ss[i],
{
    lemma_concat_push(ss.take(i), ss[i]);
    assert(ss.take(i + 1) =~= ss.take(i).push(ss[i]));
}

/// The whole prefix is the whole run.
proof fn lemma_concat_prefix_all(ss: Seq<Seq<u8>>)
    ensures
        concat_prefix(ss, ss.len() as int) == concat_all(ss),
{
    assert(ss.take(ss.len() as int) =~= ss);
}

/// `concat_all` grows on the right one slice at a time.
proof fn lemma_concat_push(ss: Seq<Seq<u8>>, s: Seq<u8>)
    ensures
        concat_all(ss.push(s)) == concat_all(ss) + s,
    decreases ss.len(),
{
    assert(concat_all(Seq::<Seq<u8>>::empty()) == Seq::<u8>::empty());
    if ss.len() == 0 {
        assert(ss.push(s).drop_first() =~= Seq::<Seq<u8>>::empty());
        assert(ss.push(s)[0] == s);
        assert(concat_all(ss.push(s)) == s + concat_all(Seq::<Seq<u8>>::empty()));
        assert(concat_all(ss.push(s)) =~= concat_all(ss) + s);
    } else {
        assert(ss.push(s).drop_first() =~= ss.drop_first().push(s));
        lemma_concat_push(ss.drop_first(), s);
        assert(ss.push(s)[0] == ss[0]);
        assert(concat_all(ss.push(s)) == ss[0] + (concat_all(ss.drop_first()) + s));
        assert(concat_all(ss.push(s)) =~= concat_all(ss) + s);
    }
}

} // verus!
