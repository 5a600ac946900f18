//! Message identifiers and the container a channel moves around.

use vstd::prelude::*;
use crate::packet::WireMessageView;

verus! {

/// Wrapping 16-bit identifier assigned by a reliable or sequenced sender,
/// unique per (channel, peer, session). Used for ack tracking and ordering.
#[derive(Clone, Copy, Debug, PartialEq, Eq, Structural, Hash)]
pub struct MessageId(pub u16);

/// A message as a channel carries it: an optional identifier, optional
/// fragment index and total (when the payload is one slice of a larger
/// message), and the payload bytes. The identifier is `Some` only once a
/// sender that tracks ids (reliable or sequenced) has stamped it.
#[derive(Debug)]
pub struct MessageContainer {
    pub id: Option<MessageId>,
    pub fragment: Option<(u16, u16)>,
    pub payload: Vec<u8>,
}

/// The mathematical value of a container: the same shape the wire
/// carries.
pub open spec fn mc_view(m: MessageContainer) -> WireMessageView {
    WireMessageView {
        id: match m.id {
            Some(i) => Some(i.0),
            None => None,
        },
        fragment: m.fragment,
        payload: m.payload@,
    }
}

/// The values of a run of containers.
pub open spec fn mcs_view(s: Seq<MessageContainer>) -> Seq<WireMessageView> {
    s.map_values(|m: MessageContainer| mc_view(m))
}

/// A byte-for-byte copy.
pub fn copy_bytes(v: &Vec<u8>) -> (r: Vec<u8>)
    ensures
        r@ == v@,
{
    let mut r: Vec<u8> = Vec::new();
    let n = v.len();
    let mut i: usize = 0;
    while i < n
        invariant
            n == v@.len(),
            i <= n,
            r@ == v@.subrange(0, i as int),
        decreases n - i,
    {
        r.push(v[i]);
        proof {
            assert(r@ =~= v@.subrange(0, i + 1));
        }
        i += 1;
    }
    proof {
        assert(v@.subrange(0, n as int) =~= v@);
    }
    r
}

impl MessageContainer {
    /// A fresh, unstamped message around a payload.
    pub fn new(payload: Vec<u8>) -> (r: MessageContainer)
        ensures
            mc_view(r) == (WireMessageView { id: None, fragment: None, payload: payload@ }),
    {
        MessageContainer { id: None, fragment: None, payload }
    }

    /// A copy with the same value.
    pub fn duplicate(&self) -> (r: MessageContainer)
        ensures
            mc_view(r) == mc_view(*self),
    {
        MessageContainer {
            id: match &self.id {
                Some(i) => Some(MessageId(i.0)),
                None => None,
            },
            fragment: match &self.fragment {
                Some(f) => Some((f.0, f.1)),
                None => None,
            },
            payload: copy_bytes(&self.payload),
        }
    }

    /// Whether two containers have the same value.
    pub fn same_as(&self, other: &MessageContainer) -> (r: bool)
        ensures
            r <==> mc_view(*self) == mc_view(*other),
    {
        let ids_equal = match (&self.id, &other.id) {
            (Some(a), Some(b)) => a.0 == b.0,
            (None, None) => true,
            _ => false,
        };
        if !ids_equal {
            return false;
        }
        let frags_equal = match (&self.fragment, &other.fragment) {
            (Some(a), Some(b)) => a.0 == b.0 && a.1 == b.1,
            (None, None) => true,
            _ => false,
        };
        if !frags_equal {
            return false;
        }
        if self.payload.len() != other.payload.len() {
            return false;
        }
        let n = self.payload.len();
        let mut i: usize = 0;
        while i < n
            invariant
                n == self.payload@.len() == other.payload@.len(),
                i <= n,
                forall|j: int| 0 <= j < i ==> self.payload@[j] == other.payload@[j],
            decreases n - i,
        {
            if self.payload[i] != other.payload[i] {
                return false;
            }
            i += 1;
        }
        proof {
            assert(self.payload@ =~= other.payload@);
        }
        true
    }
}

} // verus!
