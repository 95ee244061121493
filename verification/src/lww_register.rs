//! Last-write-wins register of a byte-string value.
//!
//! A write carries a timestamp, a version and the writing node. Merging keeps
//! the write with the larger stamp `(timestamp, version, writer)`, compared in
//! that order, so replicas that exchange state converge on the same write.
use vstd::prelude::*;
use crate::ids::NodeId;
use crate::ids::id_lt;
use crate::ids::id_less;
use crate::ids::lemma_id_order;
use crate::bytes_map::bytes_copy;

verus! {

/// The state of a register.
pub struct LwwView {
    /// The current value, if any write happened.
    pub value: Option<Seq<u8>>,
    /// Timestamp of the current write.
    pub timestamp: u64,
    /// Node of the current write.
    pub writer: NodeId,
    /// Version of the current write.
    pub version: u64,
}

/// `a`'s write is stamped later than `b`'s.
pub open spec fn stamp_later(a: LwwView, b: LwwView) -> bool {
    ||| a.timestamp > b.timestamp
    ||| a.timestamp == b.timestamp && a.version > b.version
    ||| a.timestamp == b.timestamp && a.version == b.version && id_lt(b.writer, a.writer)
}

/// `a`'s write replaces `b`'s in a merge.
pub open spec fn lww_wins(a: LwwView, b: LwwView) -> bool {
    a.value.is_some() && (b.value.is_none() || stamp_later(a, b))
}

/// The merge of two register states.
pub open spec fn lww_merge(a: LwwView, b: LwwView) -> LwwView {
    if lww_wins(b, a) {
        b
    } else {
        a
    }
}

/// The view of a stored value.
pub open spec fn value_view(v: Option<Vec<u8>>) -> Option<Seq<u8>> {
    match v {
        Some(x) => Some(x@),
        None => None,
    }
}

/// A last-write-wins register.
pub struct LwwRegister {
    value: Option<Vec<u8>>,
    timestamp: u64,
    writer: NodeId,
    version: u64,
}

impl View for LwwRegister {
    type V = LwwView;

    closed spec fn view(&self) -> LwwView {
        LwwView {
            value: value_view(self.value),
            timestamp: self.timestamp,
            writer: self.writer,
            version: self.version,
        }
    }
}

fn copy_value(v: &Option<Vec<u8>>) -> (r: Option<Vec<u8>>)
    ensures
        value_view(r) == value_view(*v),
{
    match v {
        Some(x) => Some(bytes_copy(x.as_slice())),
        None => None,
    }
}

impl LwwRegister {
    /// An empty register owned by `writer`.
    pub fn new(writer: NodeId) -> (r: Self)
        ensures
            r@ == (LwwView { value: None, timestamp: 0, writer, version: 0 }),
    {
        LwwRegister { value: None, timestamp: 0, writer, version: 0 }
    }

    /// Write `value` with the given stamp.
    pub fn set_with_meta(&mut self, value: Vec<u8>, timestamp: u64, node_id: NodeId, version: u64)
        ensures
            final(self)@ == (LwwView { value: Some(value@), timestamp, writer: node_id, version }),
    {
        self.value = Some(value);
        self.timestamp = timestamp;
        self.writer = node_id;
        self.version = version;
    }

    /// The current value.
    pub fn get(&self) -> (r: Option<&Vec<u8>>)
        ensures
            r.is_some() == self@.value.is_some(),
            r matches Some(v) ==> self@.value == Some(v@),
    {
        match &self.value {
            Some(v) => Some(v),
            None => None,
        }
    }

    /// The node of the current write.
    pub fn writer(&self) -> (r: NodeId)
        ensures
            r == self@.writer,
    {
        self.writer
    }

    /// The timestamp of the current write.
    pub fn timestamp(&self) -> (r: u64)
        ensures
            r == self@.timestamp,
    {
        self.timestamp
    }

    /// The version of the current write.
    pub fn version(&self) -> (r: u64)
        ensures
            r == self@.version,
    {
        self.version
    }

    /// Merge another replica's register: keep the later-stamped write.
    pub fn merge(&mut self, other: &Self)
        ensures
            final(self)@ == lww_merge(old(self)@, other@),
    {
        let later = self.timestamp < other.timestamp || (self.timestamp == other.timestamp
            && self.version < other.version) || (self.timestamp == other.timestamp && self.version
            == other.version && id_less(&self.writer, &other.writer));
        if other.value.is_some() && (self.value.is_none() || later) {
            self.value = copy_value(&other.value);
            self.timestamp = other.timestamp;
            self.writer = other.writer;
            self.version = other.version;
        }
    }
}

impl crate::crdt::CvRDT for LwwRegister {
    fn merge(&mut self, other: &Self)
        ensures
            final(self)@ == lww_merge(old(self)@, other@),
    {
        LwwRegister::merge(self, other)
    }
}

/// Merging a register with itself changes nothing.
pub proof fn lemma_lww_merge_idempotent(a: LwwView)
    ensures
        lww_merge(a, a) == a,
{
    lemma_id_order(a.writer, a.writer, a.writer);
}

/// Merging two written registers whose stamps differ gives the same
/// register in either order.
pub proof fn lemma_lww_merge_commutative(a: LwwView, b: LwwView)
    requires
        a.value.is_some(),
        b.value.is_some(),
        a.timestamp != b.timestamp || a.version != b.version || a.writer != b.writer,
    ensures
        lww_merge(a, b) == lww_merge(b, a),
{
    lemma_id_order(a.writer, b.writer, a.writer);
}

/// Merging written registers is associative.
pub proof fn lemma_lww_merge_associative(a: LwwView, b: LwwView, c: LwwView)
    requires
        a.value.is_some(),
        b.value.is_some(),
        c.value.is_some(),
    ensures
        lww_merge(lww_merge(a, b), c) == lww_merge(a, lww_merge(b, c)),
{
    lemma_id_order(a.writer, b.writer, c.writer);
    lemma_id_order(b.writer, c.writer, a.writer);
    lemma_id_order(c.writer, a.writer, b.writer);
    lemma_id_order(a.writer, c.writer, b.writer);
    lemma_id_order(b.writer, a.writer, c.writer);
    lemma_id_order(c.writer, b.writer, a.writer);
}

} // verus!
