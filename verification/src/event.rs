//! Events: the vertices of the causal graph.
use vstd::prelude::*;
use vstd::string::StringSliceAdditionalSpecFns;
use crate::ids::EventId;
use crate::ids::NodeId;
use crate::ids::le_bytes_u64;
use crate::ids::push_le_u64;
use crate::ids::id_eq;
use crate::vector_clock::VectorClock;
use crate::crypto::append_bytes;
use crate::crypto::blake3_hash_domain;
use crate::crypto::domain_hash;

verus! {

/// Lifecycle status of an event.
#[derive(Debug, Clone, Copy, PartialEq, Eq, Structural)]
pub enum EventStatus {
    /// Created or received, not yet gossiped.
    Pending,
    /// Forwarded to peers.
    Gossiped,
    /// Final by consensus.
    Finalized,
}

/// An event in the causal graph.
pub struct Event {
    /// Content hash identifying the event.
    pub id: EventId,
    /// The node that created the event.
    pub creator: NodeId,
    /// Per-creator sequence number.
    pub sequence: u64,
    /// The creator's previous event.
    pub self_parent: Option<EventId>,
    /// An event from another node that this event acknowledges.
    pub other_parent: Option<EventId>,
    /// Vector clock at creation.
    pub vector_clock: VectorClock,
    /// Creation time (milliseconds since the UNIX epoch).
    pub timestamp: u64,
    /// Application payload.
    pub payload: Vec<u8>,
    /// Lifecycle status.
    pub status: EventStatus,
    /// Number of acknowledgments seen for the event.
    pub ack_count: u32,
}

/// The mathematical content of an event.
pub struct EventView {
    pub id: EventId,
    pub creator: NodeId,
    pub sequence: u64,
    pub self_parent: Option<EventId>,
    pub other_parent: Option<EventId>,
    pub clock: Map<NodeId, u64>,
    pub timestamp: u64,
    pub payload: Seq<u8>,
    pub status: EventStatus,
    pub ack_count: u32,
}

impl View for Event {
    type V = EventView;

    open spec fn view(&self) -> EventView {
        EventView {
            id: self.id,
            creator: self.creator,
            sequence: self.sequence,
            self_parent: self.self_parent,
            other_parent: self.other_parent,
            clock: self.vector_clock@,
            timestamp: self.timestamp,
            payload: self.payload@,
            status: self.status,
            ack_count: self.ack_count,
        }
    }
}

/// Encoding of an optional parent: a zero byte, or a one byte and the id.
pub open spec fn parent_encoding(p: Option<EventId>) -> Seq<u8> {
    match p {
        None => seq![0u8],
        Some(id) => seq![1u8] + id@,
    }
}

/// The bytes an event's id commits to.
pub open spec fn event_content(
    creator: NodeId,
    sequence: u64,
    self_parent: Option<EventId>,
    other_parent: Option<EventId>,
    timestamp: u64,
    payload: Seq<u8>,
) -> Seq<u8> {
    creator@ + le_bytes_u64(sequence) + parent_encoding(self_parent) + parent_encoding(other_parent)
        + le_bytes_u64(timestamp) + le_bytes_u64(payload.len() as u64) + payload
}

/// The domain tag of event ids.
pub open spec fn event_domain() -> Seq<u8> {
    "omnia-event".spec_bytes()
}

/// The id an event with this content must carry.
pub open spec fn event_hash(v: EventView) -> EventId {
    domain_hash(
        event_domain(),
        event_content(v.creator, v.sequence, v.self_parent, v.other_parent, v.timestamp, v.payload),
    )
}

fn push_parent(out: &mut Vec<u8>, p: &Option<EventId>)
    ensures
        final(out)@ == old(out)@ + parent_encoding(*p),
{
    match p {
        None => {
            out.push(0u8);
            proof {
                assert(final(out)@ =~= old(out)@ + parent_encoding(*p));
            }
        },
        Some(id) => {
            out.push(1u8);
            append_bytes(out, id);
            proof {
                assert(final(out)@ =~= old(out)@ + parent_encoding(*p));
            }
        },
    }
}

/// The content hash of an event with the given fields.
pub fn hash_event_content(
    creator: &NodeId,
    sequence: u64,
    self_parent: &Option<EventId>,
    other_parent: &Option<EventId>,
    timestamp: u64,
    payload: &Vec<u8>,
) -> (r: EventId)
    requires
        payload@.len() <= u64::MAX,
    ensures
        r == domain_hash(
            event_domain(),
            event_content(*creator, sequence, *self_parent, *other_parent, timestamp, payload@),
        ),
{
    let mut buf: Vec<u8> = Vec::new();
    append_bytes(&mut buf, creator);
    push_le_u64(&mut buf, sequence);
    push_parent(&mut buf, self_parent);
    push_parent(&mut buf, other_parent);
    push_le_u64(&mut buf, timestamp);
    push_le_u64(&mut buf, payload.len() as u64);
    append_bytes(&mut buf, payload.as_slice());
    proof {
        assert(buf@ =~= event_content(
            *creator,
            sequence,
            *self_parent,
            *other_parent,
            timestamp,
            payload@,
        ));
    }
    blake3_hash_domain("omnia-event".as_bytes(), buf.as_slice())
}

impl Event {
    /// Create an event; its id is the hash of its content. The status
    /// starts as `Pending` and the acknowledgment count at zero.
    pub fn new(
        creator: NodeId,
        sequence: u64,
        self_parent: Option<EventId>,
        other_parent: Option<EventId>,
        vector_clock: VectorClock,
        timestamp: u64,
        payload: Vec<u8>,
    ) -> (r: Event)
        requires
            payload@.len() <= u64::MAX,
        ensures
            r.creator == creator,
            r.sequence == sequence,
            r.self_parent == self_parent,
            r.other_parent == other_parent,
            r.vector_clock@ == vector_clock@,
            r.timestamp == timestamp,
            r.payload@ == payload@,
            r.status == EventStatus::Pending,
            r.ack_count == 0,
            r.id == event_hash(r@),
    {
        let id = hash_event_content(&creator, sequence, &self_parent, &other_parent, timestamp, &payload);
        Event {
            id,
            creator,
            sequence,
            self_parent,
            other_parent,
            vector_clock,
            timestamp,
            payload,
            status: EventStatus::Pending,
            ack_count: 0,
        }
    }

    /// A first event of `creator`: sequence 0, no parents, timestamp 0 and
    /// a vector clock with the creator at 1.
    pub fn genesis(creator: NodeId, payload: Vec<u8>) -> (r: Event)
        requires
            payload@.len() <= u64::MAX,
        ensures
            r.creator == creator,
            r.sequence == 0,
            r.self_parent.is_none(),
            r.other_parent.is_none(),
            r.vector_clock@ == Map::<NodeId, u64>::empty().insert(creator, 1u64),
            r.timestamp == 0,
            r.payload@ == payload@,
            r.status == EventStatus::Pending,
            r.ack_count == 0,
            r.id == event_hash(r@),
    {
        let mut vc = VectorClock::new();
        vc.set(creator, 1);
        Event::new(creator, 0, None, None, vc, 0, payload)
    }

    /// Recompute the content hash of this event.
    pub fn compute_hash(&self) -> (r: EventId)
        requires
            self.payload@.len() <= u64::MAX,
        ensures
            r == event_hash(self@),
    {
        hash_event_content(
            &self.creator,
            self.sequence,
            &self.self_parent,
            &self.other_parent,
            self.timestamp,
            &self.payload,
        )
    }

    /// Whether the event's id matches its content.
    pub fn verify_hash(&self) -> (r: bool)
        ensures
            r == (self.payload@.len() <= u64::MAX && self.id == event_hash(self@)),
    {
        if self.payload.len() as u64 as usize != self.payload.len() {
            return false;
        }
        let h = self.compute_hash();
        id_eq(&h, &self.id)
    }

    /// An event without parents.
    pub fn is_root(&self) -> (r: bool)
        ensures
            r == (self.self_parent.is_none() && self.other_parent.is_none()),
    {
        self.self_parent.is_none() && self.other_parent.is_none()
    }

    /// A copy of this event.
    pub fn duplicate(&self) -> (r: Event)
        ensures
            r@ == self@,
    {
        let mut payload: Vec<u8> = Vec::new();
        append_bytes(&mut payload, self.payload.as_slice());
        proof {
            assert(payload@ =~= self.payload@);
        }
        Event {
            id: self.id,
            creator: self.creator,
            sequence: self.sequence,
            self_parent: self.self_parent,
            other_parent: self.other_parent,
            vector_clock: self.vector_clock.clone_clock(),
            timestamp: self.timestamp,
            payload,
            status: self.status,
            ack_count: self.ack_count,
        }
    }
}

} // verus!
