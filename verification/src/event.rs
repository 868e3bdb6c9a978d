//! Persisted event records: one record per append, with a dense 1-based
//! version and a millisecond timestamp assigned by the engine.

use vstd::prelude::*;
use crate::ast::Value;

verus! {

/// One appended event in the log of a `(stream, key)` pair.
#[derive(Debug, PartialEq)]
pub struct Event {
    pub stream: String,
    pub key: String,
    pub event: String,
    pub version: u64,
    pub timestamp: u128,
    pub attributes: Vec<Attribute>,
}

/// A named attribute value carried by a record.
#[derive(Debug, PartialEq)]
pub struct Attribute {
    pub name: String,
    pub value: Value,
}

impl Clone for Attribute {
    fn clone(&self) -> (r: Self)
        ensures
            r == *self,
    {
        Attribute { name: self.name.clone(), value: self.value.clone() }
    }
}

impl Event {
    /// Field-for-field equality, with the attribute list compared as a
    /// sequence; this is what a clone of a record preserves.
    pub open spec fn eqv(&self, other: &Event) -> bool {
        &&& self.stream == other.stream
        &&& self.key == other.key
        &&& self.event == other.event
        &&& self.version == other.version
        &&& self.timestamp == other.timestamp
        &&& self.attributes@ == other.attributes@
    }

    pub fn new(
        stream: String,
        key: String,
        event: String,
        version: u64,
        timestamp: u128,
        attributes: Vec<Attribute>,
    ) -> (r: Self)
        ensures
            r == (Event { stream, key, event, version, timestamp, attributes }),
    {
        Event { stream, key, event, version, timestamp, attributes }
    }
}

impl Clone for Event {
    fn clone(&self) -> (r: Self)
        ensures
            r.eqv(self),
    {
        let attributes = self.attributes.clone();
        proof {
            assert(attributes@ =~= self.attributes@);
        }
        Event {
            stream: self.stream.clone(),
            key: self.key.clone(),
            event: self.event.clone(),
            version: self.version,
            timestamp: self.timestamp,
            attributes,
        }
    }
}

} // verus!
