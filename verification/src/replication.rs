//! Entity replication: turning spawn/despawn/component events into
//! channel messages addressed to peer sets, and applying the mirror
//! image on arrival.
//!
//! On the receiving side entity ids are the sender's local ids; the
//! manager keeps a remote-to-local map and never applies a component
//! change to an entity whose spawn has not arrived: such changes wait
//! in a buffer and drain when the spawn comes.

use vstd::prelude::*;
use crate::packet::{u32_le_bytes, u32_of_le, lemma_u32_le_round_trip};

verus! {

/// Which peers a replicated event addresses.
#[derive(Clone, Copy, Debug, PartialEq, Eq, Structural)]
pub enum ReplicationTarget {
    All,
    AllExcept(u64),
    Only(u64),
}

/// Whether a peer is addressed by a target.
pub open spec fn targeted(t: ReplicationTarget, peer: u64) -> bool {
    match t {
        ReplicationTarget::All => true,
        ReplicationTarget::AllExcept(c) => peer != c,
        ReplicationTarget::Only(c) => peer == c,
    }
}

/// How an entity replicates: to whom.
#[derive(Clone, Copy, Debug, PartialEq, Eq, Structural)]
pub struct Replicate {
    pub target: ReplicationTarget,
}

/// One replication event as it travels on a reliable channel.
pub enum ReplicationMessage {
    SpawnEntity { entity: u64 },
    DespawnEntity { entity: u64 },
    ComponentInsert { entity: u64, component: Vec<u8> },
    ComponentUpdate { entity: u64, component: Vec<u8> },
    ComponentRemove { entity: u64, kind: u64 },
}

/// The sender-side entity a replication message speaks of.
pub open spec fn message_entity(m: ReplicationMessage) -> u64 {
    match m {
        ReplicationMessage::SpawnEntity { entity } => entity,
        ReplicationMessage::DespawnEntity { entity } => entity,
        ReplicationMessage::ComponentInsert { entity, .. } => entity,
        ReplicationMessage::ComponentUpdate { entity, .. } => entity,
        ReplicationMessage::ComponentRemove { entity, .. } => entity,
    }
}

/// A change the application must apply to its world, with entities
/// already translated to local ids.
pub enum WorldOp {
    Spawn { local: u64 },
    Despawn { local: u64 },
    Insert { local: u64, component: Vec<u8> },
    Update { local: u64, component: Vec<u8> },
    Remove { local: u64, kind: u64 },
}

/// Byte image of a `u64`, little-endian: its low then high words.
pub open spec fn u64_le_bytes(v: u64) -> Seq<u8> {
    u32_le_bytes((v % 0x100000000) as u32) + u32_le_bytes((v / 0x100000000) as u32)
}

/// The numeric tag a replication message travels under.
pub open spec fn rep_tag(m: ReplicationMessage) -> u8 {
    match m {
        ReplicationMessage::SpawnEntity { .. } => 0,
        ReplicationMessage::DespawnEntity { .. } => 1,
        ReplicationMessage::ComponentInsert { .. } => 2,
        ReplicationMessage::ComponentUpdate { .. } => 3,
        ReplicationMessage::ComponentRemove { .. } => 4,
    }
}

/// Byte image of a replication message: its tag, its entity, and then
/// the component bytes or the component kind, where the variant carries
/// one.
pub open spec fn rep_bytes(m: ReplicationMessage) -> Seq<u8> {
    seq![rep_tag(m)] + u64_le_bytes(message_entity(m)) + (match m {
        ReplicationMessage::ComponentInsert { component, .. } => component@,
        ReplicationMessage::ComponentUpdate { component, .. } => component@,
        ReplicationMessage::ComponentRemove { kind, .. } => u64_le_bytes(kind),
        _ => Seq::<u8>::empty(),
    })
}

/// The value of a replication message: its tag, entity, component bytes
/// and component kind, with empty defaults where a variant carries
/// none.
pub open spec fn rep_view(m: ReplicationMessage) -> (u8, u64, Seq<u8>, u64) {
    (
        rep_tag(m),
        message_entity(m),
        match m {
            ReplicationMessage::ComponentInsert { component, .. } => component@,
            ReplicationMessage::ComponentUpdate { component, .. } => component@,
            _ => Seq::<u8>::empty(),
        },
        match m {
            ReplicationMessage::ComponentRemove { kind, .. } => kind,
            _ => 0,
        },
    )
}

/// The `u64` a little-endian run of eight bytes denotes.
pub open spec fn u64_of_le(s: Seq<u8>) -> u64 {
    (u32_of_le(s[0], s[1], s[2], s[3]) + u32_of_le(s[4], s[5], s[6], s[7]) * 0x100000000) as u64
}

/// Reading back the eight bytes of a `u64` image yields the value.
pub proof fn lemma_u64_le_round_trip(v: u64)
    ensures
        u64_le_bytes(v).len() == 8,
        u64_of_le(u64_le_bytes(v)) == v,
{
    lemma_u32_le_round_trip((v % 0x100000000) as u32);
    lemma_u32_le_round_trip((v / 0x100000000) as u32);
    assert(u64_le_bytes(v)[0] == u32_le_bytes((v % 0x100000000) as u32)[0]);
    assert(u64_le_bytes(v)[1] == u32_le_bytes((v % 0x100000000) as u32)[1]);
    assert(u64_le_bytes(v)[2] == u32_le_bytes((v % 0x100000000) as u32)[2]);
    assert(u64_le_bytes(v)[3] == u32_le_bytes((v % 0x100000000) as u32)[3]);
    assert(u64_le_bytes(v)[4] == u32_le_bytes((v / 0x100000000) as u32)[0]);
    assert(u64_le_bytes(v)[5] == u32_le_bytes((v / 0x100000000) as u32)[1]);
    assert(u64_le_bytes(v)[6] == u32_le_bytes((v / 0x100000000) as u32)[2]);
    assert(u64_le_bytes(v)[7] == u32_le_bytes((v / 0x100000000) as u32)[3]);
    assert(v % 0x100000000 + (v / 0x100000000) * 0x100000000 == v) by (nonlinear_arith);
}

/// Parse a replication message image whole: its tag, entity, component
/// bytes and kind; `None` when the bytes are no image.
pub open spec fn parse_replication(s: Seq<u8>) -> Option<(u8, u64, Seq<u8>, u64)> {
    if s.len() < 9 || s[0] > 4 {
        None
    } else {
        let entity = u64_of_le(s.subrange(1, 9));
        if s[0] == 0 || s[0] == 1 {
            if s.len() == 9 {
                Some((s[0], entity, Seq::empty(), 0))
            } else {
                None
            }
        } else if s[0] == 2 || s[0] == 3 {
            Some((s[0], entity, s.skip(9), 0))
        } else {
            if s.len() == 17 {
                Some((s[0], entity, Seq::empty(), u64_of_le(s.subrange(9, 17))))
            } else {
                None
            }
        }
    }
}

/// Parsing a message's image yields the message's value back.
pub proof fn lemma_replication_round_trip(m: ReplicationMessage)
    ensures
        parse_replication(rep_bytes(m)) == Some(rep_view(m)),
{
    let s = rep_bytes(m);
    let e = message_entity(m);
    lemma_u64_le_round_trip(e);
    assert(s[0] == rep_tag(m));
    assert(s.subrange(1, 9) =~= u64_le_bytes(e));
    match m {
        ReplicationMessage::ComponentInsert { component, .. } => {
            assert(s.skip(9) =~= component@);
        },
        ReplicationMessage::ComponentUpdate { component, .. } => {
            assert(s.skip(9) =~= component@);
        },
        ReplicationMessage::ComponentRemove { kind, .. } => {
            lemma_u64_le_round_trip(kind);
            assert(s.subrange(9, 17) =~= u64_le_bytes(kind));
            assert(s.len() == 17);
        },
        _ => {
            assert(s.len() == 9);
        },
    }
}

/// Append the little-endian image of a `u64`.
fn write_u64_le(out: &mut Vec<u8>, v: u64)
    ensures
        final(out)@ == old(out)@ + u64_le_bytes(v),
{
    let ghost o0 = out@;
    crate::packet::write_u32_le(out, (v % 0x100000000) as u32);
    crate::packet::write_u32_le(out, (v / 0x100000000) as u32);
    proof {
        assert(out@ =~= o0 + u64_le_bytes(v));
    }
}

/// Frame a replication message for its channel: exactly its byte image.
pub fn encode_replication(m: &ReplicationMessage) -> (out: Vec<u8>)
    ensures
        out@ == rep_bytes(*m),
{
    let mut out: Vec<u8> = Vec::new();
    match m {
        ReplicationMessage::SpawnEntity { entity } => {
            out.push(0);
            write_u64_le(&mut out, *entity);
        },
        ReplicationMessage::DespawnEntity { entity } => {
            out.push(1);
            write_u64_le(&mut out, *entity);
        },
        ReplicationMessage::ComponentInsert { entity, component } => {
            out.push(2);
            write_u64_le(&mut out, *entity);
            let mut body = crate::message::copy_bytes(component);
            let ghost o0 = out@;
            out.append(&mut body);
            proof {
                assert(out@ =~= o0 + component@);
            }
        },
        ReplicationMessage::ComponentUpdate { entity, component } => {
            out.push(3);
            write_u64_le(&mut out, *entity);
            let mut body = crate::message::copy_bytes(component);
            let ghost o0 = out@;
            out.append(&mut body);
            proof {
                assert(out@ =~= o0 + component@);
            }
        },
        ReplicationMessage::ComponentRemove { entity, kind } => {
            out.push(4);
            write_u64_le(&mut out, *entity);
            write_u64_le(&mut out, *kind);
        },
    }
    proof {
        assert(out@ =~= rep_bytes(*m));
    }
    out
}

/// Read a replication message back from a channel payload; agrees
/// exactly with the spec parser.
pub fn decode_replication(bytes: &Vec<u8>) -> (r: Option<ReplicationMessage>)
    ensures
        match r {
            Some(m) => parse_replication(bytes@) == Some(rep_view(m)),
            None => parse_replication(bytes@) is None,
        },
{
    let n = bytes.len();
    if n < 9 {
        return None;
    }
    let tag = bytes[0];
    if tag > 4 {
        return None;
    }
    let lo = crate::packet::read_u32_le(bytes, 1);
    let hi = crate::packet::read_u32_le(bytes, 5);
    let entity: u64 = lo as u64 + hi as u64 * 0x100000000;
    proof {
        assert(bytes@.subrange(1, 9)[0] == bytes@[1]);
        assert(bytes@.subrange(1, 9)[1] == bytes@[2]);
        assert(bytes@.subrange(1, 9)[2] == bytes@[3]);
        assert(bytes@.subrange(1, 9)[3] == bytes@[4]);
        assert(bytes@.subrange(1, 9)[4] == bytes@[5]);
        assert(bytes@.subrange(1, 9)[5] == bytes@[6]);
        assert(bytes@.subrange(1, 9)[6] == bytes@[7]);
        assert(bytes@.subrange(1, 9)[7] == bytes@[8]);
        assert(entity == u64_of_le(bytes@.subrange(1, 9)));
    }
    if tag == 0 || tag == 1 {
        if n != 9 {
            return None;
        }
        if tag == 0 {
            Some(ReplicationMessage::SpawnEntity { entity })
        } else {
            Some(ReplicationMessage::DespawnEntity { entity })
        }
    } else if tag == 2 || tag == 3 {
        let mut component: Vec<u8> = Vec::new();
        let mut i: usize = 9;
        while i < n
            invariant
                9 <= i <= n,
                n == bytes@.len(),
                component@ == bytes@.subrange(9, i as int),
            decreases n - i,
        {
            component.push(bytes[i]);
            proof {
                assert(component@ =~= bytes@.subrange(9, i + 1));
            }
            i += 1;
        }
        proof {
            assert(component@ =~= bytes@.skip(9));
        }
        if tag == 2 {
            Some(ReplicationMessage::ComponentInsert { entity, component })
        } else {
            Some(ReplicationMessage::ComponentUpdate { entity, component })
        }
    } else {
        if n != 17 {
            return None;
        }
        let klo = crate::packet::read_u32_le(bytes, 9);
        let khi = crate::packet::read_u32_le(bytes, 13);
        let kind: u64 = klo as u64 + khi as u64 * 0x100000000;
        proof {
            assert(bytes@.subrange(9, 17)[0] == bytes@[9]);
            assert(bytes@.subrange(9, 17)[1] == bytes@[10]);
            assert(bytes@.subrange(9, 17)[2] == bytes@[11]);
            assert(bytes@.subrange(9, 17)[3] == bytes@[12]);
            assert(bytes@.subrange(9, 17)[4] == bytes@[13]);
            assert(bytes@.subrange(9, 17)[5] == bytes@[14]);
            assert(bytes@.subrange(9, 17)[6] == bytes@[15]);
            assert(bytes@.subrange(9, 17)[7] == bytes@[16]);
            assert(kind == u64_of_le(bytes@.subrange(9, 17)));
        }
        Some(ReplicationMessage::ComponentRemove { entity, kind })
    }
}

/// The local entity a remote one maps to: the first matching record.
pub open spec fn lookup_spec(m: Seq<(u64, u64)>, remote: u64) -> Option<u64>
    decreases m.len(),
{
    if m.len() == 0 {
        None
    } else if m[0].0 == remote {
        Some(m[0].1)
    } else {
        lookup_spec(m.drop_first(), remote)
    }
}

/// The waiting changes left after a spawn of `e` drains its own.
pub open spec fn kept_waiting(w: Seq<ReplicationMessage>, e: u64) -> Seq<ReplicationMessage>
    decreases w.len(),
{
    if w.len() == 0 {
        Seq::empty()
    } else {
        let rest = kept_waiting(w.drop_first(), e);
        if message_entity(w[0]) == e {
            rest
        } else {
            seq![w[0]] + rest
        }
    }
}

/// The world operation one waiting change becomes once its entity maps
/// to `local`; spawns and despawns never wait, so they yield nothing.
pub open spec fn drained_op(m: ReplicationMessage, local: u64) -> Seq<WorldOp> {
    match m {
        ReplicationMessage::ComponentInsert { component, .. } => seq![
            WorldOp::Insert { local, component },
        ],
        ReplicationMessage::ComponentUpdate { component, .. } => seq![
            WorldOp::Update { local, component },
        ],
        ReplicationMessage::ComponentRemove { kind, .. } => seq![WorldOp::Remove { local, kind }],
        _ => Seq::empty(),
    }
}

/// The operations a spawn of `e` releases from the waiting buffer, in
/// arrival order, all addressed to the fresh `local` entity.
pub open spec fn drained_ops(w: Seq<ReplicationMessage>, e: u64, local: u64) -> Seq<WorldOp>
    decreases w.len(),
{
    if w.len() == 0 {
        Seq::empty()
    } else {
        let rest = drained_ops(w.drop_first(), e, local);
        if message_entity(w[0]) == e {
            drained_op(w[0], local) + rest
        } else {
            rest
        }
    }
}

/// A first match at `idx` is what `lookup_spec` names.
pub proof fn lemma_lookup_at(m: Seq<(u64, u64)>, remote: u64, idx: int)
    requires
        0 <= idx < m.len(),
        m[idx].0 == remote,
        forall|j: int| 0 <= j < idx ==> m[j].0 != remote,
    ensures
        lookup_spec(m, remote) == Some(m[idx].1),
    decreases idx,
{
    if idx > 0 {
        lemma_lookup_at(m.drop_first(), remote, idx - 1);
    }
}

/// With no match, `lookup_spec` names none.
pub proof fn lemma_lookup_missing(m: Seq<(u64, u64)>, remote: u64)
    requires
        forall|j: int| 0 <= j < m.len() ==> m[j].0 != remote,
    ensures
        lookup_spec(m, remote) is None,
    decreases m.len(),
{
    if m.len() > 0 {
        lemma_lookup_missing(m.drop_first(), remote);
    }
}

/// Per-connection replication state: what waits to be sent, and how
/// remote entities map to local ones on the way in.
pub struct ReplicationManager {
    /// Events queued for the next replication flush, in order.
    pub pending: Vec<ReplicationMessage>,
    /// Remote entity to local entity, one entry per known remote.
    pub remote_to_local: Vec<(u64, u64)>,
    /// Component changes for remote entities whose spawn has not
    /// arrived yet.
    pub waiting: Vec<ReplicationMessage>,
    /// The next local id to hand out.
    pub next_local: u64,
}

impl ReplicationManager {
    /// Remote ids map uniquely, and every waiting change names a remote
    /// entity that is not mapped yet.
    pub open spec fn wf(self) -> bool {
        &&& forall|i: int, j: int|
            0 <= i < j < self.remote_to_local@.len() ==> self.remote_to_local@[i].0
                != self.remote_to_local@[j].0
        &&& forall|i: int, j: int|
            0 <= i < self.waiting@.len() && 0 <= j < self.remote_to_local@.len()
                ==> message_entity(#[trigger] self.waiting@[i]) != (
            #[trigger] self.remote_to_local@[j]).0
    }

    /// A fresh manager.
    pub fn new() -> (r: ReplicationManager)
        ensures
            r.wf(),
            r.pending@.len() == 0,
            r.remote_to_local@.len() == 0,
            r.waiting@.len() == 0,
    {
        ReplicationManager {
            pending: Vec::new(),
            remote_to_local: Vec::new(),
            waiting: Vec::new(),
            next_local: 0,
        }
    }

    /// Queue a spawn for this peer.
    pub fn buffer_spawn_entity(&mut self, entity: u64)
        requires
            old(self).wf(),
        ensures
            final(self).wf(),
            final(self).pending@.len() == old(self).pending@.len() + 1,
            final(self).pending@.last() matches ReplicationMessage::SpawnEntity { entity: e } && e
                == entity,
            final(self).pending@.take(old(self).pending@.len() as int) == old(self).pending@,
            final(self).remote_to_local == old(self).remote_to_local,
            final(self).waiting == old(self).waiting,
    {
        let ghost p0 = self.pending@;
        self.pending.push(ReplicationMessage::SpawnEntity { entity });
        proof {
            assert(self.pending@.take(p0.len() as int) =~= p0);
        }
    }

    /// Queue a despawn for this peer.
    pub fn buffer_despawn_entity(&mut self, entity: u64)
        requires
            old(self).wf(),
        ensures
            final(self).wf(),
            final(self).pending@.len() == old(self).pending@.len() + 1,
            final(self).pending@.last() matches ReplicationMessage::DespawnEntity { entity: e } && e
                == entity,
            final(self).pending@.take(old(self).pending@.len() as int) == old(self).pending@,
            final(self).remote_to_local == old(self).remote_to_local,
            final(self).waiting == old(self).waiting,
    {
        let ghost p0 = self.pending@;
        self.pending.push(ReplicationMessage::DespawnEntity { entity });
        proof {
            assert(self.pending@.take(p0.len() as int) =~= p0);
        }
    }

    /// Queue a component change for this peer.
    pub fn buffer_component_message(&mut self, message: ReplicationMessage)
        requires
            old(self).wf(),
        ensures
            final(self).wf(),
            final(self).pending@.len() == old(self).pending@.len() + 1,
            final(self).pending@.last() == message,
            final(self).pending@.take(old(self).pending@.len() as int) == old(self).pending@,
            final(self).remote_to_local == old(self).remote_to_local,
            final(self).waiting == old(self).waiting,
    {
        let ghost p0 = self.pending@;
        self.pending.push(message);
        proof {
            assert(self.pending@.take(p0.len() as int) =~= p0);
        }
    }

    /// Take everything queued for this peer, in order.
    pub fn drain_pending(&mut self) -> (r: Vec<ReplicationMessage>)
        requires
            old(self).wf(),
        ensures
            final(self).wf(),
            r@ == old(self).pending@,
            final(self).pending@.len() == 0,
            final(self).remote_to_local == old(self).remote_to_local,
            final(self).waiting == old(self).waiting,
    {
        let mut r: Vec<ReplicationMessage> = Vec::new();
        core::mem::swap(&mut r, &mut self.pending);
        r
    }

    /// The local entity a remote one maps to.
    fn lookup(&self, remote: u64) -> (r: Option<u64>)
        ensures
            r == lookup_spec(self.remote_to_local@, remote),
            match r {
                Some(l) => exists|i: int|
                    0 <= i < self.remote_to_local@.len() && #[trigger] self.remote_to_local@[i]
                        == (remote, l),
                None => forall|i: int|
                    0 <= i < self.remote_to_local@.len() ==> (
                    #[trigger] self.remote_to_local@[i]).0 != remote,
            },
    {
        let n = self.remote_to_local.len();
        let mut i: usize = 0;
        while i < n
            invariant
                n == self.remote_to_local@.len(),
                i <= n,
                forall|j: int| 0 <= j < i ==> (#[trigger] self.remote_to_local@[j]).0 != remote,
            decreases n - i,
        {
            if self.remote_to_local[i].0 == remote {
                proof {
                    lemma_lookup_at(self.remote_to_local@, remote, i as int);
                }
                return Some(self.remote_to_local[i].1);
            }
            i += 1;
        }
        proof {
            lemma_lookup_missing(self.remote_to_local@, remote);
        }
        None
    }

    /// Apply one arriving replication message. A spawn of an unknown
    /// remote entity maps it to a fresh local id and releases, after the
    /// spawn itself, every change that waited for it; a change for a
    /// mapped entity comes back translated at once; one for an unmapped
    /// entity waits instead of surfacing. So no operation ever names an
    /// entity whose spawn has not been applied, and a replayed spawn or
    /// despawn-of-unknown changes nothing.
    #[verifier::loop_isolation(false)]
    pub fn apply_message(&mut self, message: ReplicationMessage) -> (r: Vec<WorldOp>)
        requires
            old(self).wf(),
            old(self).next_local < 0xffffffffffffffff,
        ensures
            final(self).wf(),
            final(self).pending == old(self).pending,
            ({
                let mm = old(self).remote_to_local@;
                let e = message_entity(message);
                match lookup_spec(mm, e) {
                    Some(local) => match message {
                        ReplicationMessage::SpawnEntity { .. } => r@.len() == 0 && *final(self)
                            == *old(self),
                        ReplicationMessage::DespawnEntity { .. } => r@ == seq![
                            WorldOp::Despawn { local },
                        ] && *final(self) == *old(self),
                        _ => r@ == drained_op(message, local) && *final(self) == *old(self),
                    },
                    None => match message {
                        ReplicationMessage::SpawnEntity { .. } => {
                            &&& final(self).remote_to_local@ == mm.push((e, old(self).next_local))
                            &&& final(self).next_local == old(self).next_local + 1
                            &&& final(self).waiting@ == kept_waiting(old(self).waiting@, e)
                            &&& r@ == seq![WorldOp::Spawn { local: old(self).next_local }]
                                + drained_ops(old(self).waiting@, e, old(self).next_local)
                        },
                        ReplicationMessage::DespawnEntity { .. } => r@.len() == 0 && *final(self)
                            == *old(self),
                        _ => {
                            &&& r@.len() == 0
                            &&& final(self).waiting@ == old(self).waiting@.push(message)
                            &&& final(self).remote_to_local == old(self).remote_to_local
                            &&& final(self).next_local == old(self).next_local
                        },
                    },
                }
            }),
    {
        let remote = match &message {
            ReplicationMessage::SpawnEntity { entity } => *entity,
            ReplicationMessage::DespawnEntity { entity } => *entity,
            ReplicationMessage::ComponentInsert { entity, .. } => *entity,
            ReplicationMessage::ComponentUpdate { entity, .. } => *entity,
            ReplicationMessage::ComponentRemove { entity, .. } => *entity,
        };
        let mut ops: Vec<WorldOp> = Vec::new();
        match message {
            ReplicationMessage::SpawnEntity { entity } => {
                match self.lookup(entity) {
                    Some(_) => {
                        // replayed spawn: the mapping exists, nothing new
                    },
                    None => {
                        let local = self.next_local;
                        self.next_local = self.next_local + 1;
                        self.remote_to_local.push((entity, local));
                        ops.push(WorldOp::Spawn { local });
                        // drain the changes that waited for this spawn
                        let ghost w0 = old(self).waiting@;
                        let mut still_waiting: Vec<ReplicationMessage> = Vec::new();
                        let mut waiting: Vec<ReplicationMessage> = Vec::new();
                        core::mem::swap(&mut waiting, &mut self.waiting);
                        proof {
                            assert(waiting@ == w0);
                            assert(ops@ =~= seq![WorldOp::Spawn { local }]);
                        }
                        while waiting.len() > 0
                            invariant
                                self.remote_to_local@ == old(self).remote_to_local@.push(
                                    (entity, local),
                                ),
                                self.next_local == old(self).next_local + 1,
                                self.pending == old(self).pending,
                                self.waiting@.len() == 0,
                                ops@.len() >= 1,
                                ops@.take(1) == seq![WorldOp::Spawn { local }],
                                kept_waiting(w0, entity) == still_waiting@ + kept_waiting(
                                    waiting@,
                                    entity,
                                ),
                                drained_ops(w0, entity, local) == ops@.skip(1) + drained_ops(
                                    waiting@,
                                    entity,
                                    local,
                                ),
                                forall|i: int, j: int|
                                    0 <= i < still_waiting@.len() && 0 <= j
                                        < self.remote_to_local@.len() ==> message_entity(
                                        #[trigger] still_waiting@[i],
                                    ) != (#[trigger] self.remote_to_local@[j]).0,
                                forall|i: int|
                                    0 <= i < waiting@.len() ==> (forall|j: int|
                                        0 <= j < old(self).remote_to_local@.len()
                                            ==> message_entity(#[trigger] waiting@[i]) != (
                                        #[trigger] old(self).remote_to_local@[j]).0),
                            decreases waiting@.len(),
                        {
                            let ghost wpre = waiting@;
                            let w = waiting.remove(0);
                            proof {
                                assert(waiting@ =~= wpre.drop_first());
                                assert(w == wpre[0]);
                            }
                            let w_entity = match &w {
                                ReplicationMessage::SpawnEntity { entity } => *entity,
                                ReplicationMessage::DespawnEntity { entity } => *entity,
                                ReplicationMessage::ComponentInsert { entity, .. } => *entity,
                                ReplicationMessage::ComponentUpdate { entity, .. } => *entity,
                                ReplicationMessage::ComponentRemove { entity, .. } => *entity,
                            };
                            if w_entity == entity {
                                let ghost ops_pre = ops@;
                                match w {
                                    ReplicationMessage::ComponentInsert { component, .. } => {
                                        ops.push(WorldOp::Insert { local, component });
                                    },
                                    ReplicationMessage::ComponentUpdate { component, .. } => {
                                        ops.push(WorldOp::Update { local, component });
                                    },
                                    ReplicationMessage::ComponentRemove { kind, .. } => {
                                        ops.push(WorldOp::Remove { local, kind });
                                    },
                                    _ => {},
                                }
                                proof {
                                    assert(ops@.take(1) =~= ops_pre.take(1));
                                    assert(ops@.skip(1) =~= ops_pre.skip(1) + drained_op(
                                        wpre[0],
                                        local,
                                    ));
                                    assert(ops_pre.skip(1) + (drained_op(wpre[0], local)
                                        + drained_ops(wpre.drop_first(), entity, local)) =~= (
                                    ops_pre.skip(1) + drained_op(wpre[0], local)) + drained_ops(
                                        wpre.drop_first(),
                                        entity,
                                        local,
                                    ));
                                }
                            } else {
                                let ghost sw_pre = still_waiting@;
                                still_waiting.push(w);
                                proof {
                                    assert(still_waiting@ =~= sw_pre.push(wpre[0]));
                                    assert(sw_pre + (seq![wpre[0]] + kept_waiting(
                                        wpre.drop_first(),
                                        entity,
                                    )) =~= sw_pre.push(wpre[0]) + kept_waiting(
                                        wpre.drop_first(),
                                        entity,
                                    ));
                                }
                            }
                        }
                        proof {
                            assert(kept_waiting(Seq::<ReplicationMessage>::empty(), entity)
                                == Seq::<ReplicationMessage>::empty());
                            assert(drained_ops(
                                Seq::<ReplicationMessage>::empty(),
                                entity,
                                local,
                            ) == Seq::<WorldOp>::empty());
                            assert(still_waiting@ + Seq::<ReplicationMessage>::empty()
                                =~= still_waiting@);
                            assert(ops@.skip(1) + Seq::<WorldOp>::empty() =~= ops@.skip(1));
                            assert(still_waiting@ =~= kept_waiting(w0, entity));
                            assert(ops@ =~= ops@.take(1) + ops@.skip(1));
                            assert(ops@ =~= seq![WorldOp::Spawn { local }] + drained_ops(
                                w0,
                                entity,
                                local,
                            ));
                        }
                        self.waiting = still_waiting;
                    },
                }
            },
            ReplicationMessage::DespawnEntity { entity } => {
                match self.lookup(entity) {
                    Some(local) => {
                        ops.push(WorldOp::Despawn { local });
                        proof {
                            assert(ops@ =~= seq![WorldOp::Despawn { local }]);
                        }
                    },
                    None => {},
                }
            },
            other => {
                match self.lookup(remote) {
                    Some(local) => {
                        match other {
                            ReplicationMessage::ComponentInsert { component, .. } => {
                                ops.push(WorldOp::Insert { local, component });
                            },
                            ReplicationMessage::ComponentUpdate { component, .. } => {
                                ops.push(WorldOp::Update { local, component });
                            },
                            ReplicationMessage::ComponentRemove { kind, .. } => {
                                ops.push(WorldOp::Remove { local, kind });
                            },
                            _ => {},
                        }
                        proof {
                            assert(ops@ =~= drained_op(message, local));
                        }
                    },
                    None => {
                        let ghost w0 = self.waiting@;
                        self.waiting.push(other);
                        proof {
                            assert(self.waiting@ =~= w0.push(message));
                            assert forall|i: int, j: int|
                                0 <= i < self.waiting@.len() && 0 <= j
                                    < self.remote_to_local@.len() implies message_entity(
                                #[trigger] self.waiting@[i],
                            ) != (#[trigger] self.remote_to_local@[j]).0 by {
                                if i < w0.len() {
                                    assert(self.waiting@[i] == w0[i]);
                                }
                            }
                        }
                    },
                }
            },
        }
        ops
    }
}

} // verus!
