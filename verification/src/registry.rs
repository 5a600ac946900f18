//! The channel registry: the immutable table, built at startup and
//! shared by every connection, that maps a channel's stable identity to
//! its compact wire id (its index) and its settings.

use vstd::prelude::*;
use crate::senders::ReliableSettings;

verus! {

/// The reliability and ordering policy of a channel.
#[derive(Clone, Copy, Debug, PartialEq, Eq, Structural)]
pub enum ChannelMode {
    UnorderedUnreliable,
    SequencedUnreliable,
    ReliableUnordered,
    ReliableOrdered,
}

/// Which side may send on a channel.
#[derive(Clone, Copy, Debug, PartialEq, Eq, Structural)]
pub enum ChannelDirection {
    ClientToServer,
    ServerToClient,
    Bidirectional,
}

/// A channel class: its policy, direction, and reliability settings
/// (read only for the reliable modes).
#[derive(Clone, Copy, Debug, PartialEq, Eq, Structural)]
pub struct ChannelSettings {
    pub mode: ChannelMode,
    pub direction: ChannelDirection,
    pub reliable: ReliableSettings,
}

/// Content-addressed identity of a channel class: a stable hash.
#[derive(Clone, Copy, Debug, PartialEq, Eq, Structural, Hash)]
pub struct ChannelKind(pub u64);

/// The registered channels; a channel's wire id is its index here.
pub struct ChannelRegistry {
    pub channels: Vec<(ChannelKind, ChannelSettings)>,
}

impl ChannelRegistry {
    /// At most 255 channels (one datagram names each in one byte) and
    /// no identity registered twice.
    pub open spec fn wf(self) -> bool {
        &&& self.channels@.len() <= 255
        &&& forall|i: int, j: int|
            0 <= i < j < self.channels@.len() ==> self.channels@[i].0.0 != self.channels@[j].0.0
    }

    /// An empty registry.
    pub fn new() -> (r: ChannelRegistry)
        ensures
            r.wf(),
            r.channels@.len() == 0,
    {
        ChannelRegistry { channels: Vec::new() }
    }

    /// Register a channel class: its compact id is returned. A full
    /// registry or a repeated identity is refused.
    #[verifier::loop_isolation(false)]
    pub fn register(&mut self, kind: ChannelKind, settings: ChannelSettings) -> (r: Option<u16>)
        requires
            old(self).wf(),
        ensures
            final(self).wf(),
            ({
                let dup = exists|i: int|
                    0 <= i < old(self).channels@.len() && old(self).channels@[i].0.0 == kind.0;
                if old(self).channels@.len() < 255 && !dup {
                    &&& r == Some(old(self).channels@.len() as u16)
                    &&& final(self).channels@ == old(self).channels@.push((kind, settings))
                } else {
                    &&& r is None
                    &&& final(self).channels == old(self).channels
                }
            }),
    {
        if self.channels.len() >= 255 {
            return None;
        }
        let n = self.channels.len();
        let mut i: usize = 0;
        while i < n
            invariant
                n == self.channels@.len(),
                i <= n,
                *self == *old(self),
                forall|j: int| 0 <= j < i ==> self.channels@[j].0.0 != kind.0,
            decreases n - i,
        {
            if self.channels[i].0.0 == kind.0 {
                proof {
                    assert(old(self).channels@[i as int].0.0 == kind.0);
                }
                return None;
            }
            i += 1;
        }
        let id = self.channels.len() as u16;
        self.channels.push((kind, settings));
        Some(id)
    }

    /// The compact id of a registered identity: its first index.
    pub fn id_of(&self, kind: ChannelKind) -> (r: Option<u16>)
        requires
            self.wf(),
        ensures
            match r {
                Some(id) => id < self.channels@.len() && self.channels@[id as int].0.0 == kind.0,
                None => forall|i: int|
                    0 <= i < self.channels@.len() ==> self.channels@[i].0.0 != kind.0,
            },
    {
        let n = self.channels.len();
        let mut i: usize = 0;
        while i < n
            invariant
                n == self.channels@.len(),
                n <= 255,
                i <= n,
                forall|j: int| 0 <= j < i ==> self.channels@[j].0.0 != kind.0,
            decreases n - i,
        {
            if self.channels[i].0.0 == kind.0 {
                return Some(i as u16);
            }
            i += 1;
        }
        None
    }

    /// The settings registered under a compact id.
    pub fn settings_of(&self, id: u16) -> (r: Option<ChannelSettings>)
        ensures
            match r {
                Some(s) => id < self.channels@.len() && s == self.channels@[id as int].1,
                None => id >= self.channels@.len(),
            },
    {
        if (id as usize) < self.channels.len() {
            Some(self.channels[id as usize].1)
        } else {
            None
        }
    }
}

} // verus!
