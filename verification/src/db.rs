//! The engine: an in-memory store holding the schema catalog and the
//! per-(stream, key) append-only event logs.
//!
//! Its invariant `wf` carries the two log guarantees of the store: within
//! every `(stream, key)` sequence the versions are dense and 1-based
//! (`record[i].version == i + 1`) and the timestamps are non-decreasing.
//! Appends keep both: the version is assigned from the length of the log,
//! and a wall-clock reading that would move backwards is clamped to the
//! last record's timestamp.

use vstd::prelude::*;
use crate::ast::{AttributeValue, Value};
use crate::event::{Attribute, Event};
use crate::planner::{DataType, ExecutionPlan, Operation};
use crate::schema::{find_attr, lemma_coherence_frame, lemma_find_attr_some, Attribute as SchemaAttribute, AttributeName, Event as SchemaEvent, EventName, Schema, Stream, StreamName};

verus! {

/// The log of one `(stream, key)` pair, created lazily on first append.
#[derive(Debug)]
pub struct StreamLog {
    pub stream: String,
    pub key: String,
    pub events: Vec<Event>,
}

/// The engine's error taxonomy. The three `Missing` errors and the
/// conflict carry the names they are about.
#[derive(Debug, PartialEq)]
pub enum DBError {
    MissingStream(String),
    MissingEvent(String, String),
    MissingAttribute(String, String, String),
    AttributeConflict(String, String, String),
    TypeMismatch(String, String),
    VersionConflict,
    Unsupported,
    StatePoisoned,
    ClockError,
}

impl DBError {
    /// A short rendering of the error kind for the wire response.
    pub fn message(&self) -> String {
        match self {
            DBError::MissingStream(s) => join_text("missing stream: ", s.as_str()),
            DBError::MissingEvent(_, e) => join_text("missing event: ", e.as_str()),
            DBError::MissingAttribute(_, _, a) => join_text("missing attribute: ", a.as_str()),
            DBError::AttributeConflict(_, _, a) => join_text(
                "conflicting attribute type: ",
                a.as_str(),
            ),
            DBError::TypeMismatch(a, _) => join_text("value does not match type: ", a.as_str()),
            DBError::VersionConflict => "version is not serial".to_owned(),
            DBError::Unsupported => "unsupported operation".to_owned(),
            DBError::StatePoisoned => "engine state poisoned".to_owned(),
            DBError::ClockError => "unable to read the clock".to_owned(),
        }
    }
}

fn join_text(before: &str, subject: &str) -> (r: String) {
    let mut m = before.to_owned();
    m.append(subject);
    m
}

/// The engine. All state a process holds is here: the catalog and the logs.
#[derive(Debug)]
pub struct DB {
    pub streams: Vec<StreamLog>,
    pub schema: Schema,
}

/// Whether some log entry is keyed `(s, k)`.
pub open spec fn has_log_in(logs: Seq<StreamLog>, s: Seq<char>, k: Seq<char>) -> bool {
    exists|i: int| 0 <= i < logs.len() && logs[i].stream@ == s && logs[i].key@ == k
}

/// The position of the log entry keyed `(s, k)`; meaningful when the keys
/// are unique and the entry exists.
pub open spec fn log_idx(logs: Seq<StreamLog>, s: Seq<char>, k: Seq<char>) -> int {
    choose|i: int| 0 <= i < logs.len() && logs[i].stream@ == s && logs[i].key@ == k
}

/// The event sequence of `(s, k)`: the entry's records, or empty while no
/// append has created the entry.
pub open spec fn log_events_in(logs: Seq<StreamLog>, s: Seq<char>, k: Seq<char>) -> Seq<Event> {
    if has_log_in(logs, s, k) {
        logs[log_idx(logs, s, k)].events@
    } else {
        Seq::empty()
    }
}

/// The two guarantees of one log: dense 1-based versions, records that
/// carry their own `(stream, key)`, and non-decreasing timestamps.
pub open spec fn log_entry_wf(l: StreamLog) -> bool {
    &&& forall|i: int|
        0 <= i < l.events@.len() ==> (#[trigger] l.events@[i]).version as int == i + 1
            && l.events@[i].stream@ == l.stream@ && l.events@[i].key@ == l.key@
    &&& forall|i: int|
        0 <= i && i + 1 < l.events@.len() ==> (#[trigger] l.events@[i]).timestamp <= l.events@[i
            + 1].timestamp
}

impl DB {
    /// The engine invariant: a well-formed catalog, log entries with unique
    /// `(stream, key)` keys, and every log well-formed.
    pub open spec fn wf(&self) -> bool {
        &&& self.schema.wf()
        &&& forall|i: int, j: int|
            0 <= i < j < self.streams@.len() ==> !(self.streams@[i].stream@
                == self.streams@[j].stream@ && self.streams@[i].key@ == self.streams@[j].key@)
        &&& forall|i: int| 0 <= i < self.streams@.len() ==> log_entry_wf(#[trigger] self.streams@[i])
    }

    pub open spec fn has_log(&self, s: Seq<char>, k: Seq<char>) -> bool {
        has_log_in(self.streams@, s, k)
    }

    pub open spec fn log_events(&self, s: Seq<char>, k: Seq<char>) -> Seq<Event> {
        log_events_in(self.streams@, s, k)
    }

    /// A fresh engine, holding the given catalog or an empty one.
    pub fn new(base_schema: Option<Schema>) -> (r: DB)
        requires
            base_schema matches Some(s) ==> s.wf(),
        ensures
            r.wf(),
            r.streams@.len() == 0,
            base_schema matches Some(s) ==> r.schema == s,
            base_schema is None ==> r.schema.streams@.len() == 0 && r.schema.events@.len() == 0
                && r.schema.attributes@.len() == 0,
    {
        let schema = match base_schema {
            Some(s) => s,
            None => Schema::new(),
        };
        DB { streams: Vec::new(), schema }
    }

    /// Replaces the whole catalog; the logs are kept. A migration never
    /// fails.
    pub fn migrate(&mut self, schema: Schema) -> (r: Result<(), DBError>)
        requires
            old(self).wf(),
            schema.wf(),
        ensures
            final(self).wf(),
            r is Ok,
            final(self).schema == schema,
            final(self).streams == old(self).streams,
    {
        self.schema = schema;
        Ok(())
    }

    /// A copy of the catalog as the engine holds it now.
    pub fn get_schema(&self) -> (r: Result<Schema, DBError>)
        ensures
            r matches Ok(s) && s.streams@ == self.schema.streams@ && s.events@
                == self.schema.events@ && s.attributes@ == self.schema.attributes@,
    {
        Ok(self.schema.clone())
    }

    /// Succeeds exactly when the stream is in the catalog; the state is
    /// never touched.
    pub fn check_stream_exists(&self, stream: &StreamName) -> (r: Result<(), DBError>)
        ensures
            r is Ok <==> self.schema.has_stream(stream@),
            r is Err ==> r == (Err::<(), DBError>(DBError::MissingStream(stream.0))),
    {
        if self.schema.stream_exists(stream) {
            Ok(())
        } else {
            Err(DBError::MissingStream(stream.0.clone()))
        }
    }

    /// Succeeds exactly when the event is in the catalog.
    pub fn check_event_exists(&self, stream: &StreamName, event: &EventName) -> (r: Result<
        (),
        DBError,
    >)
        ensures
            r is Ok <==> self.schema.has_event(stream@, event@),
            r is Err ==> r == (Err::<(), DBError>(DBError::MissingEvent(stream.0, event.0))),
    {
        if self.schema.event_exists(stream, event) {
            Ok(())
        } else {
            Err(DBError::MissingEvent(stream.0.clone(), event.0.clone()))
        }
    }

    /// Succeeds exactly when the attribute is in the catalog.
    pub fn check_attribute_exists(
        &self,
        stream: &StreamName,
        event: &EventName,
        attribute: &AttributeName,
    ) -> (r: Result<(), DBError>)
        ensures
            r is Ok <==> self.schema.has_attribute(stream@, event@, attribute@),
            r is Err ==> r == (Err::<(), DBError>(DBError::MissingAttribute(
                stream.0,
                event.0,
                attribute.0,
            ))),
    {
        if self.schema.attribute_exists(stream, event, attribute) {
            Ok(())
        } else {
            Err(
                DBError::MissingAttribute(
                    stream.0.clone(),
                    event.0.clone(),
                    attribute.0.clone(),
                ),
            )
        }
    }

    /// Inserts the stream if it is absent; re-creating an existing stream
    /// succeeds with no change. Never fails.
    pub fn create_stream(&mut self, stream: &StreamName)
        requires
            old(self).wf(),
        ensures
            final(self).wf(),
            final(self).streams == old(self).streams,
            create_stream_post(old(self).schema, final(self).schema, stream@),
            final(self).schema.has_stream(stream@),
    {
        if !self.schema.stream_exists(stream) {
            let ghost pre = self.schema.streams@;
            self.schema.streams.push(Stream { name: stream.clone(), key: String::new() });
            proof {
                assert(self.schema.streams@.take(pre.len() as int) =~= pre);
                assert forall|i: int, j: int| 0 <= i < j < self.schema.streams@.len() implies
                    self.schema.streams@[i].name@ != self.schema.streams@[j].name@ by {
                    if j == pre.len() as int {
                        assert(!old(self).schema.has_stream(stream@));
                    }
                }
                let last = self.schema.streams@.len() - 1;
                assert(self.schema.streams@[last].name@ == stream@);
                lemma_coherence_frame(old(self).schema, self.schema);
            }
        }
    }

    /// Creates the event under an existing stream. Re-creating an existing
    /// event succeeds with no change; the attributes a preexisting event
    /// already has are never clobbered.
    pub fn create_event(&mut self, stream: &StreamName, event: &EventName) -> (r: Result<
        (),
        DBError,
    >)
        requires
            old(self).wf(),
        ensures
            final(self).wf(),
            final(self).streams == old(self).streams,
            r is Ok <==> old(self).schema.has_stream(stream@),
            r is Ok ==> create_event_post(old(self).schema, final(self).schema, stream@, event@)
                && final(self).schema.has_event(stream@, event@),
            r is Err ==> *final(self) == *old(self) && r == (Err::<(), DBError>(
                DBError::MissingStream(stream.0),
            )),
    {
        if !self.schema.stream_exists(stream) {
            return Err(DBError::MissingStream(stream.0.clone()));
        }
        if !self.schema.event_exists(stream, event) {
            let ghost pre = self.schema.events@;
            self.schema.events.push(
                SchemaEvent { name: event.clone(), stream_name: stream.clone() },
            );
            proof {
                assert(self.schema.events@.take(pre.len() as int) =~= pre);
                assert forall|i: int, j: int| 0 <= i < j < self.schema.events@.len() implies !(
                    self.schema.events@[i].stream_name@ == self.schema.events@[j].stream_name@
                        && self.schema.events@[i].name@ == self.schema.events@[j].name@) by {
                    if j == pre.len() as int {
                        assert(!old(self).schema.has_event(stream@, event@));
                    }
                }
                let last = self.schema.events@.len() - 1;
                assert(self.schema.events@[last].stream_name@ == stream@);
                assert(self.schema.events@[last].name@ == event@);
                assert(old(self).schema.has_stream(stream@));
                lemma_coherence_frame(old(self).schema, self.schema);
            }
        }
        Ok(())
    }

    /// Creates the attribute under an existing event. An entry that already
    /// exists with the same declared type is left as it is; one with a
    /// different declared type is a conflict.
    pub fn create_attribute(
        &mut self,
        stream: &StreamName,
        event: &EventName,
        attribute: &AttributeName,
        data_type: DataType,
    ) -> (r: Result<(), DBError>)
        requires
            old(self).wf(),
        ensures
            final(self).wf(),
            final(self).streams == old(self).streams,
            r is Ok <==> old(self).schema.has_event(stream@, event@) && match old(
                self,
            ).schema.spec_attribute_details(stream@, event@, attribute@) {
                Some(d) => d.attribute_type@ == dt_str(data_type),
                None => true,
            },
            r is Ok ==> create_attribute_post(
                old(self).schema,
                final(self).schema,
                stream@,
                event@,
                attribute@,
                data_type,
            ) && final(self).schema.has_attribute(stream@, event@, attribute@),
            r is Err ==> *final(self) == *old(self),
            !old(self).schema.has_event(stream@, event@) ==> r == (Err::<(), DBError>(
                DBError::MissingEvent(stream.0, event.0),
            )),
            old(self).schema.has_event(stream@, event@) && r is Err ==> r == (Err::<(), DBError>(
                DBError::AttributeConflict(stream.0, event.0, attribute.0),
            )),
    {
        if !self.schema.event_exists(stream, event) {
            return Err(DBError::MissingEvent(stream.0.clone(), event.0.clone()));
        }
        match self.schema.attribute_details(stream, event, attribute) {
            Some(details) => {
                if string_eq(&details.attribute_type, data_type_name(data_type).as_str()) {
                    proof {
                        lemma_find_attr_some(self.schema.attributes@, stream@, event@, attribute@);
                    }
                    Ok(())
                } else {
                    Err(
                        DBError::AttributeConflict(
                            stream.0.clone(),
                            event.0.clone(),
                            attribute.0.clone(),
                        ),
                    )
                }
            },
            None => {
                let ghost pre = self.schema.attributes@;
                proof {
                    lemma_find_attr_some(self.schema.attributes@, stream@, event@, attribute@);
                }
                self.schema.attributes.push(
                    SchemaAttribute {
                        name: attribute.clone(),
                        event_name: event.clone(),
                        stream_name: stream.clone(),
                        required: true,
                        attribute_type: data_type_name(data_type),
                    },
                );
                proof {
                    assert(self.schema.attributes@.take(pre.len() as int) =~= pre);
                    assert forall|i: int, j: int|
                        0 <= i < j < self.schema.attributes@.len() implies !(
                        self.schema.attributes@[i].stream_name@
                            == self.schema.attributes@[j].stream_name@
                            && self.schema.attributes@[i].event_name@
                            == self.schema.attributes@[j].event_name@
                            && self.schema.attributes@[i].name@
                            == self.schema.attributes@[j].name@) by {
                        if j == pre.len() as int {
                            assert(!old(self).schema.has_attribute(stream@, event@, attribute@));
                        }
                    }
                    let last = self.schema.attributes@.len() - 1;
                    assert(self.schema.attributes@[last].stream_name@ == stream@);
                    assert(self.schema.attributes@[last].event_name@ == event@);
                    assert(self.schema.attributes@[last].name@ == attribute@);
                    assert(old(self).schema.has_event(stream@, event@));
                    lemma_coherence_frame(old(self).schema, self.schema);
                }
                Ok(())
            },
        }
    }
    /// Inserts a stream entry, key name included, if no stream of that
    /// name exists; an existing stream is left exactly as it is.
    pub fn insert_stream(&mut self, stream: Stream) -> (r: Result<(), DBError>)
        requires
            old(self).wf(),
        ensures
            final(self).wf(),
            r is Ok,
            final(self).streams == old(self).streams,
            final(self).schema.events == old(self).schema.events,
            final(self).schema.attributes == old(self).schema.attributes,
            old(self).schema.has_stream(stream.name@) ==> final(self).schema == old(self).schema,
            !old(self).schema.has_stream(stream.name@) ==> final(self).schema.streams@ == old(
                self,
            ).schema.streams@.push(stream),
            final(self).schema.has_stream(stream.name@),
    {
        if !self.schema.stream_exists(&stream.name) {
            let ghost pre = self.schema.streams@;
            let ghost entry = stream;
            self.schema.streams.push(stream);
            proof {
                assert forall|i: int, j: int| 0 <= i < j < self.schema.streams@.len() implies
                    self.schema.streams@[i].name@ != self.schema.streams@[j].name@ by {
                    if j == pre.len() as int {
                        assert(!old(self).schema.has_stream(entry.name@));
                    }
                }
                let last = self.schema.streams@.len() - 1;
                assert(self.schema.streams@[last].name@ == entry.name@);
                lemma_coherence_frame(old(self).schema, self.schema);
            }
        }
        Ok(())
    }

    /// Inserts an attribute entry under an existing event. An entry that
    /// already exists with the same declared type name is left as it is;
    /// one with a different declared type is a conflict.
    pub fn insert_attribute(&mut self, attr: SchemaAttribute) -> (r: Result<(), DBError>)
        requires
            old(self).wf(),
        ensures
            final(self).wf(),
            final(self).streams == old(self).streams,
            r is Ok <==> old(self).schema.has_event(attr.stream_name@, attr.event_name@) && match
                old(self).schema.spec_attribute_details(
                attr.stream_name@,
                attr.event_name@,
                attr.name@,
            ) {
                Some(d) => d.attribute_type@ == attr.attribute_type@,
                None => true,
            },
            r is Err ==> *final(self) == *old(self),
            r is Ok ==> {
                &&& final(self).schema.streams == old(self).schema.streams
                &&& final(self).schema.events == old(self).schema.events
                &&& final(self).schema.has_attribute(attr.stream_name@, attr.event_name@, attr.name@)
                &&& (old(self).schema.has_attribute(attr.stream_name@, attr.event_name@, attr.name@)
                    ==> final(self).schema.attributes == old(self).schema.attributes)
                &&& (!old(self).schema.has_attribute(
                    attr.stream_name@,
                    attr.event_name@,
                    attr.name@,
                ) ==> final(self).schema.attributes@ == old(self).schema.attributes@.push(attr))
            },
    {
        if !self.schema.event_exists(&attr.stream_name, &attr.event_name) {
            return Err(
                DBError::MissingEvent(attr.stream_name.0.clone(), attr.event_name.0.clone()),
            );
        }
        match self.schema.attribute_details(&attr.stream_name, &attr.event_name, &attr.name) {
            Some(details) => {
                proof {
                    lemma_find_attr_some(
                        self.schema.attributes@,
                        attr.stream_name@,
                        attr.event_name@,
                        attr.name@,
                    );
                }
                if details.attribute_type == attr.attribute_type {
                    Ok(())
                } else {
                    Err(
                        DBError::AttributeConflict(
                            attr.stream_name.0.clone(),
                            attr.event_name.0.clone(),
                            attr.name.0.clone(),
                        ),
                    )
                }
            },
            None => {
                let ghost pre = self.schema.attributes@;
                let ghost entry = attr;
                proof {
                    lemma_find_attr_some(
                        self.schema.attributes@,
                        attr.stream_name@,
                        attr.event_name@,
                        attr.name@,
                    );
                }
                self.schema.attributes.push(attr);
                proof {
                    assert forall|i: int, j: int|
                        0 <= i < j < self.schema.attributes@.len() implies !(
                        self.schema.attributes@[i].stream_name@
                            == self.schema.attributes@[j].stream_name@
                            && self.schema.attributes@[i].event_name@
                            == self.schema.attributes@[j].event_name@
                            && self.schema.attributes@[i].name@
                            == self.schema.attributes@[j].name@) by {
                        if j == pre.len() as int {
                            assert(!old(self).schema.has_attribute(
                                entry.stream_name@,
                                entry.event_name@,
                                entry.name@,
                            ));
                        }
                    }
                    let last = self.schema.attributes@.len() - 1;
                    assert(self.schema.attributes@[last].stream_name@ == entry.stream_name@);
                    assert(self.schema.attributes@[last].event_name@ == entry.event_name@);
                    assert(self.schema.attributes@[last].name@ == entry.name@);
                    assert(old(self).schema.has_event(entry.stream_name@, entry.event_name@));
                    lemma_coherence_frame(old(self).schema, self.schema);
                }
                Ok(())
            },
        }
    }

    /// Appends a record whose version the caller has chosen. The append
    /// succeeds exactly when that version is the next serial one for the
    /// record's `(stream, key)` log, that is, the current length plus one;
    /// the stored timestamp is clamped so it never falls below the last
    /// record's. No other log and no part of the catalog is touched.
    #[verifier::rlimit(100)]
    pub fn add_event(&mut self, event: Event) -> (r: Result<(), DBError>)
        requires
            old(self).wf(),
        ensures
            final(self).wf(),
            final(self).schema == old(self).schema,
            ({
                let base = old(self).log_events(event.stream@, event.key@);
                if event.version as int == base.len() + 1 {
                    &&& r is Ok
                    &&& final(self).has_log(event.stream@, event.key@)
                    &&& final(self).log_events(event.stream@, event.key@) == base.push(
                        (Event {
                            stream: event.stream,
                            key: event.key,
                            event: event.event,
                            version: event.version,
                            timestamp: clamped_ts(base, event.timestamp),
                            attributes: event.attributes,
                        }),
                    )
                } else {
                    &&& r == (Err::<(), DBError>(DBError::VersionConflict))
                    &&& *final(self) == *old(self)
                }
            }),
            forall|s2: Seq<char>, k2: Seq<char>|
                !(s2 == event.stream@ && k2 == event.key@) ==> #[trigger] final(self).log_events(
                    s2,
                    k2,
                ) == old(self).log_events(s2, k2),
            forall|s2: Seq<char>, k2: Seq<char>|
                !(s2 == event.stream@ && k2 == event.key@) ==> #[trigger] final(self).has_log(
                    s2,
                    k2,
                ) == old(self).has_log(s2, k2),
    {
        let ghost pre_logs = self.streams@;
        let ghost s = event.stream@;
        let ghost k = event.key@;
        match position_of(&self.streams, &event.stream, &event.key) {
            Some(idx) => {
                proof {
                    assert(log_idx(pre_logs, s, k) == idx);
                }
                let len = self.streams[idx].events.len();
                if (event.version as u128) != (len as u128) + 1 {
                    proof {
                        assert(old(self).log_events(s, k) == pre_logs[idx as int].events@);
                    }
                    return Err(DBError::VersionConflict);
                }
                let mut entry = self.streams.remove(idx);
                let mut ev = event;
                if entry.events.len() > 0 {
                    let last_ts = entry.events[entry.events.len() - 1].timestamp;
                    if ev.timestamp < last_ts {
                        ev.timestamp = last_ts;
                    }
                }
                entry.events.push(ev);
                self.streams.insert(idx, entry);
                proof {
                    assert(self.streams@.len() == pre_logs.len());
                    assert(forall|i: int|
                        0 <= i < pre_logs.len() && i != idx ==> self.streams@[i] == pre_logs[i]);
                    assert(log_entry_wf(self.streams@[idx as int])) by {
                        assert(log_entry_wf(pre_logs[idx as int]));
                        let evs = self.streams@[idx as int].events@;
                        assert(evs.take(evs.len() - 1) =~= pre_logs[idx as int].events@);
                        assert(forall|i: int|
                            0 <= i < evs.len() - 1 ==> evs[i] == pre_logs[idx as int].events@[i]);
                    }
                    lemma_log_update(pre_logs, self.streams@, idx as int);
                    assert(self.log_events(s, k) == old(self).log_events(s, k).push(
                        (Event {
                            stream: event.stream,
                            key: event.key,
                            event: event.event,
                            version: event.version,
                            timestamp: clamped_ts(old(self).log_events(s, k), event.timestamp),
                            attributes: event.attributes,
                        }),
                    )) by {
                        let base = pre_logs[idx as int].events@;
                        assert(old(self).log_events(s, k) == base);
                        let evs = self.streams@[idx as int].events@;
                        assert(evs =~= base.push(evs.last()));
                    }
                }
                Ok(())
            },
            None => {
                proof {
                    assert(old(self).log_events(s, k) =~= Seq::<Event>::empty());
                }
                if event.version != 1 {
                    return Err(DBError::VersionConflict);
                }
                let mut events: Vec<Event> = Vec::new();
                let stream_name = event.stream.clone();
                let key_name = event.key.clone();
                events.push(event);
                let entry = StreamLog { stream: stream_name, key: key_name, events };
                self.streams.push(entry);
                proof {
                    assert(self.streams@.len() == pre_logs.len() + 1);
                    assert(forall|i: int|
                        0 <= i < pre_logs.len() ==> self.streams@[i] == pre_logs[i]);
                    assert(self.streams@.last().stream@ == s);
                    assert(self.streams@.last().key@ == k);
                    assert(log_entry_wf(self.streams@.last())) by {
                        let evs = self.streams@.last().events@;
                        assert(evs =~= seq![event]);
                        assert(evs[0] == event);
                        assert(event.version == 1);
                    }
                    lemma_log_push(pre_logs, self.streams@);
                    assert(self.log_events(s, k) =~= Seq::<Event>::empty().push(
                        (Event {
                            stream: event.stream,
                            key: event.key,
                            event: event.event,
                            version: event.version,
                            timestamp: clamped_ts(Seq::<Event>::empty(), event.timestamp),
                            attributes: event.attributes,
                        }),
                    ));
                }
                Ok(())
            },
        }
    }

    /// Appends one event for `(stream, key)`, assigning the version and the
    /// timestamp internally: the version is the log length plus one, the
    /// timestamp a clock reading clamped to the last record's. Before
    /// touching the log, every attribute value is held against the catalog:
    /// an undeclared attribute or a literal that does not match its
    /// declared type rejects the append, and the first offender is
    /// reported. Only a failed clock reading can fail an append that
    /// passed those checks (or a log grown past the version range).
    #[verifier::rlimit(100)]
    pub fn append_event(
        &mut self,
        stream: &StreamName,
        key: &String,
        event: &EventName,
        attr_values: &Vec<AttributeValue>,
    ) -> (r: Result<(), DBError>)
        requires
            old(self).wf(),
        ensures
            final(self).wf(),
            final(self).schema == old(self).schema,
            r is Err ==> *final(self) == *old(self),
            (exists|j: int|
                0 <= j < attr_values@.len() && !attr_ok(old(self).schema, stream@, event@, attr_values@[j]))
                ==> r is Err && (exists|j: int|
                {
                    &&& 0 <= j < attr_values@.len()
                    &&& !attr_ok(old(self).schema, stream@, event@, attr_values@[j])
                    &&& (forall|t: int|
                        0 <= t < j ==> attr_ok(old(self).schema, stream@, event@, attr_values@[t]))
                    &&& r == (match find_attr(
                        old(self).schema.attributes@,
                        stream@,
                        event@,
                        attr_values@[j].name@,
                    ) {
                        None => Err::<(), DBError>(DBError::MissingAttribute(
                            stream.0,
                            event.0,
                            attr_values@[j].name,
                        )),
                        Some(a) => Err::<(), DBError>(DBError::TypeMismatch(
                            attr_values@[j].name,
                            a.attribute_type,
                        )),
                    })
                }),
            (forall|j: int|
                0 <= j < attr_values@.len() ==> attr_ok(old(self).schema, stream@, event@, attr_values@[j]))
                && old(self).log_events(stream@, key@).len() + 1 <= u64::MAX ==> (r is Ok || r
                == (Err::<(), DBError>(DBError::ClockError))),
            r is Ok ==> ({
                let base = old(self).log_events(stream@, key@);
                let post = final(self).log_events(stream@, key@);
                &&& (forall|j: int|
                    0 <= j < attr_values@.len() ==> attr_ok(
                        old(self).schema,
                        stream@,
                        event@,
                        attr_values@[j],
                    ))
                &&& final(self).has_log(stream@, key@)
                &&& post.len() == base.len() + 1
                &&& post.take(base.len() as int) == base
                &&& post.last().stream@ == stream@
                &&& post.last().key@ == key@
                &&& post.last().event@ == event@
                &&& post.last().version as int == base.len() + 1
                &&& (base.len() > 0 ==> post.last().timestamp >= base.last().timestamp)
                &&& post.last().attributes@.len() == attr_values@.len()
                &&& (forall|j: int|
                    0 <= j < attr_values@.len() ==> (#[trigger] post.last().attributes@[j])
                        == (Attribute {
                        name: attr_values@[j].name,
                        value: attr_values@[j].value,
                    }))
            }),
            forall|s2: Seq<char>, k2: Seq<char>|
                !(s2 == stream@ && k2 == key@) ==> #[trigger] final(self).log_events(s2, k2) == old(
                    self,
                ).log_events(s2, k2),
            forall|s2: Seq<char>, k2: Seq<char>|
                !(s2 == stream@ && k2 == key@) ==> #[trigger] final(self).has_log(s2, k2) == old(
                    self,
                ).has_log(s2, k2),
    {
        let mut j: usize = 0;
        while j < attr_values.len()
            invariant
                j <= attr_values@.len(),
                *self == *old(self),
                old(self).wf(),
                forall|t: int| 0 <= t < j ==> attr_ok(self.schema, stream@, event@, attr_values@[t]),
            decreases attr_values@.len() - j,
        {
            let name = AttributeName::new(attr_values[j].name.clone());
            match self.schema.attribute_details(stream, event, &name) {
                None => {
                    proof {
                        assert(!attr_ok(self.schema, stream@, event@, attr_values@[j as int]));
                    }
                    return Err(
                        DBError::MissingAttribute(
                            stream.0.clone(),
                            event.0.clone(),
                            attr_values[j].name.clone(),
                        ),
                    );
                },
                Some(details) => {
                    if !value_compatible(&attr_values[j].value, &details.attribute_type) {
                        proof {
                            assert(!attr_ok(self.schema, stream@, event@, attr_values@[j as int]));
                        }
                        return Err(
                            DBError::TypeMismatch(
                                attr_values[j].name.clone(),
                                details.attribute_type,
                            ),
                        );
                    }
                },
            }
            j += 1;
        }

        let ghost base = self.log_events(stream@, key@);
        let len: u64 = match position_of(&self.streams, &stream.0, key) {
            Some(idx) => {
                proof {
                    assert(log_idx(self.streams@, stream@, key@) == idx);
                }
                self.streams[idx].events.len() as u64
            },
            None => 0,
        };
        proof {
            assert(len as int == base.len());
        }
        if len == u64::MAX {
            return Err(DBError::ClockError);
        }
        let timestamp = match read_clock() {
            Some(t) => t,
            None => {
                return Err(DBError::ClockError);
            },
        };

        let mut attributes: Vec<Attribute> = Vec::new();
        let mut t: usize = 0;
        while t < attr_values.len()
            invariant
                t <= attr_values@.len(),
                attributes@.len() == t,
                forall|i: int|
                    0 <= i < t ==> (#[trigger] attributes@[i]) == (Attribute {
                        name: attr_values@[i].name,
                        value: attr_values@[i].value,
                    }),
            decreases attr_values@.len() - t,
        {
            attributes.push(
                Attribute {
                    name: attr_values[t].name.clone(),
                    value: attr_values[t].value.clone(),
                },
            );
            t += 1;
        }

        let record = Event {
            stream: stream.0.clone(),
            key: key.clone(),
            event: event.0.clone(),
            version: len + 1,
            timestamp,
            attributes,
        };
        let r = self.add_event(record);
        proof {
            assert(r is Ok);
            assert(self.log_events(stream@, key@).take(base.len() as int) =~= base);
        }
        r
    }

    /// Runs the plan's operations strictly in order, stopping at the first
    /// operation that fails; earlier effects stay applied (there is no
    /// rollback). The outcome and the reached state are exactly a run of
    /// `plan_rel` over the operation list; the returned text is a summary
    /// for the client.
    pub fn exec(&mut self, plan: &ExecutionPlan) -> (r: Result<String, DBError>)
        requires
            old(self).wf(),
        ensures
            final(self).wf(),
            r matches Ok(_) ==> plan_rel(*old(self), plan.operations@, *final(self), Ok(())),
            r matches Err(e) ==> plan_rel(
                *old(self),
                plan.operations@,
                *final(self),
                Err::<(), DBError>(e),
            ),
    {
        let ghost ops = plan.operations@;
        let mut output = "ok".to_owned();
        let mut i: usize = 0;
        proof {
            assert(ops.take(0) =~= Seq::<Operation>::empty());
        }
        while i < plan.operations.len()
            invariant
                old(self).wf(),
                self.wf(),
                i <= ops.len(),
                ops == plan.operations@,
                plan_rel(*old(self), ops.take(i as int), *self, Ok(())),
            decreases ops.len() - i,
        {
            let ghost prev = *self;
            let ghost op = ops[i as int];
            let step: Result<(), DBError> = match &plan.operations[i] {
                Operation::CheckStreamExists { stream } => self.check_stream_exists(stream),
                Operation::CheckEventExists { stream, event } => self.check_event_exists(
                    stream,
                    event,
                ),
                Operation::CheckAttributeExists { stream, event, attribute } => self
                    .check_attribute_exists(stream, event, attribute),
                Operation::CreateStream { stream } => {
                    self.create_stream(stream);
                    output = "created stream".to_owned();
                    Ok(())
                },
                Operation::CreateEvent { stream, event } => {
                    let r = self.create_event(stream, event);
                    if r.is_ok() {
                        output = "created event".to_owned();
                    }
                    r
                },
                Operation::CreateAttribute { stream, event, attribute, data_type } => {
                    let r = self.create_attribute(stream, event, attribute, *data_type);
                    if r.is_ok() {
                        output = "created attribute".to_owned();
                    }
                    r
                },
                Operation::AppendEvent { stream, key, event, attr_values } => {
                    let r = self.append_event(stream, key, event, attr_values);
                    if r.is_ok() {
                        output = "added event".to_owned();
                    }
                    r
                },
                Operation::ShowSchema => {
                    output = self.render_schema();
                    Ok(())
                },
                Operation::Query { .. } => Err(DBError::Unsupported),
            };
            match step {
                Ok(_) => {
                    proof {
                        assert(step_rel(prev, op, *self, Ok(())));
                        lemma_plan_rel_push_ok(*old(self), ops.take(i as int), prev, op, *self);
                        assert(ops.take(i as int).push(op) =~= ops.take(i as int + 1));
                    }
                },
                Err(e) => {
                    proof {
                        assert(step_rel(prev, op, *self, Err(e)));
                        lemma_plan_rel_extend_err(
                            *old(self),
                            ops,
                            i as int,
                            prev,
                            *self,
                            e,
                        );
                    }
                    return Err(e);
                },
            }
            i += 1;
        }
        proof {
            assert(ops.take(ops.len() as int) =~= ops);
        }
        Ok(output)
    }

    /// A textual rendering of the catalog, in the same block form the
    /// schema text parser reads: one line per stream, event and attribute.
    /// The text is a function of the catalog alone.
    pub fn render_schema(&self) -> (r: String)
        ensures
            r@ == schema_text(self.schema),
    {
        let mut out = String::new();
        let mut i: usize = 0;
        proof {
            assert(self.schema.streams@.take(0) =~= Seq::<Stream>::empty());
        }
        while i < self.schema.streams.len()
            invariant
                i <= self.schema.streams@.len(),
                out@ == streams_text(self.schema.streams@.take(i as int)),
            decreases self.schema.streams@.len() - i,
        {
            out.append("stream(");
            out.append(self.schema.streams[i].name.0.as_str());
            out.append(", ");
            out.append(self.schema.streams[i].key.as_str());
            out.append(");\n");
            proof {
                let pre = self.schema.streams@.take(i as int);
                let cur = self.schema.streams@.take(i + 1);
                assert(cur.drop_last() =~= pre);
                assert(cur.last() == self.schema.streams@[i as int]);
            }
            i += 1;
        }
        proof {
            assert(self.schema.streams@.take(self.schema.streams@.len() as int)
                =~= self.schema.streams@);
        }
        let ghost base1 = out@;
        let mut i: usize = 0;
        proof {
            assert(self.schema.events@.take(0) =~= Seq::<SchemaEvent>::empty());
        }
        while i < self.schema.events.len()
            invariant
                i <= self.schema.events@.len(),
                base1 == streams_text(self.schema.streams@),
                out@ == base1 + events_text(self.schema.events@.take(i as int)),
            decreases self.schema.events@.len() - i,
        {
            out.append("event(");
            out.append(self.schema.events[i].stream_name.0.as_str());
            out.append(", ");
            out.append(self.schema.events[i].name.0.as_str());
            out.append(");\n");
            proof {
                let pre = self.schema.events@.take(i as int);
                let cur = self.schema.events@.take(i + 1);
                assert(cur.drop_last() =~= pre);
                assert(cur.last() == self.schema.events@[i as int]);
            }
            i += 1;
        }
        proof {
            assert(self.schema.events@.take(self.schema.events@.len() as int)
                =~= self.schema.events@);
        }
        let ghost base2 = out@;
        let mut i: usize = 0;
        proof {
            assert(self.schema.attributes@.take(0) =~= Seq::<SchemaAttribute>::empty());
        }
        while i < self.schema.attributes.len()
            invariant
                i <= self.schema.attributes@.len(),
                base2 == streams_text(self.schema.streams@) + events_text(self.schema.events@),
                out@ == base2 + attrs_text(self.schema.attributes@.take(i as int)),
            decreases self.schema.attributes@.len() - i,
        {
            out.append("attribute(");
            out.append(self.schema.attributes[i].stream_name.0.as_str());
            out.append(", ");
            out.append(self.schema.attributes[i].event_name.0.as_str());
            out.append(", ");
            out.append(self.schema.attributes[i].name.0.as_str());
            out.append(", ");
            if self.schema.attributes[i].required {
                out.append("true");
            } else {
                out.append("false");
            }
            out.append(", ");
            out.append(self.schema.attributes[i].attribute_type.as_str());
            out.append(");\n");
            proof {
                let pre = self.schema.attributes@.take(i as int);
                let cur = self.schema.attributes@.take(i + 1);
                assert(cur.drop_last() =~= pre);
                assert(cur.last() == self.schema.attributes@[i as int]);
            }
            i += 1;
        }
        proof {
            assert(self.schema.attributes@.take(self.schema.attributes@.len() as int)
                =~= self.schema.attributes@);
        }
        out
    }

    /// A copy of the records of `(stream_name, key)`: `Some` exactly when
    /// an append has created that log, and then record for record equal to
    /// what the engine holds.
    #[verifier::rlimit(100)]
    pub fn get_events(&self, stream_name: String, key: String) -> (r: Result<
        Option<Vec<Event>>,
        DBError,
    >)
        requires
            self.wf(),
        ensures
            r is Ok,
            r matches Ok(Some(v)) ==> self.has_log(stream_name@, key@) && v@.len()
                == self.log_events(stream_name@, key@).len() && (forall|i: int|
                0 <= i < v@.len() ==> (#[trigger] v@[i]).eqv(&self.log_events(stream_name@, key@)[i])),
            r matches Ok(None) ==> !self.has_log(stream_name@, key@),
    {
        match position_of(&self.streams, &stream_name, &key) {
            Some(idx) => {
                proof {
                    assert(log_idx(self.streams@, stream_name@, key@) == idx);
                }
                let v = self.streams[idx].events.clone();
                proof {
                    assert forall|i: int| 0 <= i < v@.len() implies (#[trigger] v@[i]).eqv(
                        &self.log_events(stream_name@, key@)[i],
                    ) by {
                        let orig = self.streams@[idx as int].events@[i];
                        assert(cloned::<Event>(orig, v@[i]));
                    }
                }
                Ok(Some(v))
            },
            None => Ok(None),
        }
    }
}

/// What `CreateStream` does to the catalog: appends the stream if absent,
/// with an empty key name; nothing otherwise.
pub open spec fn create_stream_post(pre: Schema, post: Schema, s: Seq<char>) -> bool {
    &&& post.events@ == pre.events@
    &&& post.attributes@ == pre.attributes@
    &&& if pre.has_stream(s) {
        post.streams@ == pre.streams@
    } else {
        &&& post.streams@.len() == pre.streams@.len() + 1
        &&& post.streams@.take(pre.streams@.len() as int) == pre.streams@
        &&& post.streams@.last().name@ == s
        &&& post.streams@.last().key@ == Seq::<char>::empty()
    }
}

/// What `CreateEvent` does to the catalog once its stream exists.
pub open spec fn create_event_post(pre: Schema, post: Schema, s: Seq<char>, e: Seq<char>) -> bool {
    &&& post.streams@ == pre.streams@
    &&& post.attributes@ == pre.attributes@
    &&& if pre.has_event(s, e) {
        post.events@ == pre.events@
    } else {
        &&& post.events@.len() == pre.events@.len() + 1
        &&& post.events@.take(pre.events@.len() as int) == pre.events@
        &&& post.events@.last().stream_name@ == s
        &&& post.events@.last().name@ == e
    }
}

/// What a successful `CreateAttribute` does to the catalog.
pub open spec fn create_attribute_post(
    pre: Schema,
    post: Schema,
    s: Seq<char>,
    e: Seq<char>,
    a: Seq<char>,
    dt: DataType,
) -> bool {
    &&& post.streams@ == pre.streams@
    &&& post.events@ == pre.events@
    &&& if pre.has_attribute(s, e, a) {
        post.attributes@ == pre.attributes@
    } else {
        &&& post.attributes@.len() == pre.attributes@.len() + 1
        &&& post.attributes@.take(pre.attributes@.len() as int) == pre.attributes@
        &&& post.attributes@.last().stream_name@ == s
        &&& post.attributes@.last().event_name@ == e
        &&& post.attributes@.last().name@ == a
        &&& post.attributes@.last().required == true
        &&& post.attributes@.last().attribute_type@ == dt_str(dt)
    }
}

/// The text of the stream lines of a rendering, in catalog order.
pub open spec fn streams_text(ss: Seq<Stream>) -> Seq<char>
    decreases ss.len(),
{
    if ss.len() == 0 {
        Seq::empty()
    } else {
        streams_text(ss.drop_last()) + "stream("@ + ss.last().name@ + ", "@ + ss.last().key@
            + ");\n"@
    }
}

/// The text of the event lines of a rendering.
pub open spec fn events_text(es: Seq<SchemaEvent>) -> Seq<char>
    decreases es.len(),
{
    if es.len() == 0 {
        Seq::empty()
    } else {
        events_text(es.drop_last()) + "event("@ + es.last().stream_name@ + ", "@ + es.last().name@
            + ");\n"@
    }
}

/// The text of the attribute lines of a rendering.
pub open spec fn attrs_text(ats: Seq<SchemaAttribute>) -> Seq<char>
    decreases ats.len(),
{
    if ats.len() == 0 {
        Seq::empty()
    } else {
        attrs_text(ats.drop_last()) + "attribute("@ + ats.last().stream_name@ + ", "@
            + ats.last().event_name@ + ", "@ + ats.last().name@ + ", "@ + (if ats.last().required {
            "true"@
        } else {
            "false"@
        }) + ", "@ + ats.last().attribute_type@ + ");\n"@
    }
}

/// The whole catalog rendering: stream lines, then event lines, then
/// attribute lines, each in catalog order. The text is a function of the
/// catalog alone, so a rendering is deterministic for a given state.
pub open spec fn schema_text(schema: Schema) -> Seq<char> {
    streams_text(schema.streams@) + events_text(schema.events@) + attrs_text(schema.attributes@)
}

/// The canonical type name the catalog stores for a `DataType`.
pub open spec fn dt_str(dt: DataType) -> Seq<char> {
    match dt {
        DataType::String => "string"@,
        DataType::Int => "int"@,
        DataType::Float => "float"@,
        DataType::Bool => "bool"@,
    }
}

/// The canonical type name, as a string.
pub fn data_type_name(dt: DataType) -> (r: String)
    ensures
        r@ == dt_str(dt),
{
    match dt {
        DataType::String => "string".to_owned(),
        DataType::Int => "int".to_owned(),
        DataType::Float => "float".to_owned(),
        DataType::Bool => "bool".to_owned(),
    }
}

/// What one `AppendEvent` operation may do: exactly the guarantees of
/// `DB::append_event`, stated between a pre- and a post-state. The stored
/// timestamp comes from the clock, so an append that passed its checks may
/// still fail with `ClockError`, and the record's timestamp is only
/// bounded from below.
pub open spec fn append_step(
    pre: DB,
    post: DB,
    stream: StreamName,
    key: String,
    event: EventName,
    vals: Seq<AttributeValue>,
    r: Result<(), DBError>,
) -> bool {
    &&& post.schema == pre.schema
    &&& (r is Err ==> post == pre)
    &&& ((exists|j: int| 0 <= j < vals.len() && !attr_ok(pre.schema, stream@, event@, vals[j]))
        ==> r is Err && (exists|j: int|
        {
            &&& 0 <= j < vals.len()
            &&& !attr_ok(pre.schema, stream@, event@, vals[j])
            &&& (forall|t: int| 0 <= t < j ==> attr_ok(pre.schema, stream@, event@, vals[t]))
            &&& r == (match find_attr(pre.schema.attributes@, stream@, event@, vals[j].name@) {
                None => Err::<(), DBError>(DBError::MissingAttribute(
                    stream.0,
                    event.0,
                    vals[j].name,
                )),
                Some(a) => Err::<(), DBError>(DBError::TypeMismatch(vals[j].name, a.attribute_type)),
            })
        }))
    &&& ((forall|j: int| 0 <= j < vals.len() ==> attr_ok(pre.schema, stream@, event@, vals[j]))
        && pre.log_events(stream@, key@).len() + 1 <= u64::MAX ==> (r is Ok || r == (Err::<
        (),
        DBError,
    >(DBError::ClockError))))
    &&& (r is Ok ==> ({
        let base = pre.log_events(stream@, key@);
        let post_log = post.log_events(stream@, key@);
        &&& (forall|j: int| 0 <= j < vals.len() ==> attr_ok(pre.schema, stream@, event@, vals[j]))
        &&& post.has_log(stream@, key@)
        &&& post_log.len() == base.len() + 1
        &&& post_log.take(base.len() as int) == base
        &&& post_log.last().stream@ == stream@
        &&& post_log.last().key@ == key@
        &&& post_log.last().event@ == event@
        &&& post_log.last().version as int == base.len() + 1
        &&& (base.len() > 0 ==> post_log.last().timestamp >= base.last().timestamp)
        &&& post_log.last().attributes@.len() == vals.len()
        &&& (forall|j: int|
            0 <= j < vals.len() ==> (#[trigger] post_log.last().attributes@[j]) == (Attribute {
                name: vals[j].name,
                value: vals[j].value,
            }))
    }))
    &&& (forall|s2: Seq<char>, k2: Seq<char>|
        !(s2 == stream@ && k2 == key@) ==> #[trigger] post.log_events(s2, k2) == pre.log_events(
            s2,
            k2,
        ))
    &&& (forall|s2: Seq<char>, k2: Seq<char>|
        !(s2 == stream@ && k2 == key@) ==> #[trigger] post.has_log(s2, k2) == pre.has_log(s2, k2))
}

/// What a single operation does to the engine: which state it may leave
/// behind and exactly when it succeeds, with `r` the outcome. Check
/// operations and failed operations leave the state untouched.
pub open spec fn step_rel(pre: DB, op: Operation, post: DB, r: Result<(), DBError>) -> bool {
    match op {
        Operation::CheckStreamExists { stream } => post == pre && if pre.schema.has_stream(
            stream@,
        ) {
            r is Ok
        } else {
            r == (Err::<(), DBError>(DBError::MissingStream(stream.0)))
        },
        Operation::CheckEventExists { stream, event } => post == pre && if pre.schema.has_event(
            stream@,
            event@,
        ) {
            r is Ok
        } else {
            r == (Err::<(), DBError>(DBError::MissingEvent(stream.0, event.0)))
        },
        Operation::CheckAttributeExists { stream, event, attribute } => post == pre
            && if pre.schema.has_attribute(stream@, event@, attribute@) {
            r is Ok
        } else {
            r == (Err::<(), DBError>(DBError::MissingAttribute(stream.0, event.0, attribute.0)))
        },
        Operation::CreateStream { stream } => r is Ok && post.streams == pre.streams
            && create_stream_post(pre.schema, post.schema, stream@),
        Operation::CreateEvent { stream, event } => post.streams == pre.streams
            && if pre.schema.has_stream(stream@) {
            r is Ok && create_event_post(pre.schema, post.schema, stream@, event@)
        } else {
            r == (Err::<(), DBError>(DBError::MissingStream(stream.0))) && post == pre
        },
        Operation::CreateAttribute { stream, event, attribute, data_type } => {
            &&& post.streams == pre.streams
            &&& (r is Ok <==> pre.schema.has_event(stream@, event@) && match pre
                .schema
                .spec_attribute_details(stream@, event@, attribute@) {
                Some(d) => d.attribute_type@ == dt_str(data_type),
                None => true,
            })
            &&& (r is Ok ==> create_attribute_post(
                pre.schema,
                post.schema,
                stream@,
                event@,
                attribute@,
                data_type,
            ))
            &&& (r is Err ==> post == pre)
            &&& (!pre.schema.has_event(stream@, event@) ==> r == (Err::<(), DBError>(
                DBError::MissingEvent(stream.0, event.0),
            )))
            &&& (pre.schema.has_event(stream@, event@) && r is Err ==> r == (Err::<(), DBError>(
                DBError::AttributeConflict(stream.0, event.0, attribute.0),
            )))
        },
        Operation::AppendEvent { stream, key, event, attr_values } => append_step(
            pre,
            post,
            stream,
            key,
            event,
            attr_values@,
            r,
        ),
        Operation::ShowSchema => post == pre && r is Ok,
        Operation::Query { .. } => post == pre && r == (Err::<(), DBError>(DBError::Unsupported)),
    }
}

/// Running a list of operations in order: succeeds when every operation
/// does; stops at the first failure, which leaves that operation's
/// pre-state behind and reports its error. Operations after the failure
/// are never looked at.
pub open spec fn plan_rel(pre: DB, ops: Seq<Operation>, post: DB, r: Result<(), DBError>) -> bool
    decreases ops.len(),
{
    if ops.len() == 0 {
        post == pre && r is Ok
    } else {
        exists|mid: DB, sr: Result<(), DBError>|
            {
                &&& #[trigger] step_rel(pre, ops[0], mid, sr)
                &&& match sr {
                    Ok(_) => plan_rel(mid, ops.drop_first(), post, r),
                    Err(e) => post == mid && r == (Err::<(), DBError>(e)),
                }
            }
    }
}

/// An executed prefix extends by one more successful operation.
proof fn lemma_plan_rel_push_ok(pre: DB, ops: Seq<Operation>, mid: DB, op: Operation, post: DB)
    requires
        plan_rel(pre, ops, mid, Ok(())),
        step_rel(mid, op, post, Ok(())),
    ensures
        plan_rel(pre, ops.push(op), post, Ok(())),
    decreases ops.len(),
{
    if ops.len() == 0 {
        assert(mid == pre);
        assert(ops.push(op)[0] == op);
        assert(ops.push(op).drop_first() =~= Seq::<Operation>::empty());
        assert(step_rel(pre, ops.push(op)[0], post, Ok(())));
        assert(plan_rel(post, ops.push(op).drop_first(), post, Ok::<(), DBError>(())));
    } else {
        let (mid1, sr1): (DB, Result<(), DBError>) = choose|mid1: DB, sr1: Result<(), DBError>|
            {
                &&& #[trigger] step_rel(pre, ops[0], mid1, sr1)
                &&& match sr1 {
                    Ok(_) => plan_rel(mid1, ops.drop_first(), mid, Ok(())),
                    Err(e) => mid == mid1 && Ok::<(), DBError>(()) == (Err::<(), DBError>(e)),
                }
            };
        assert(sr1 is Ok);
        lemma_plan_rel_push_ok(mid1, ops.drop_first(), mid, op, post);
        assert(ops.push(op).drop_first() =~= ops.drop_first().push(op));
        assert(ops.push(op)[0] == ops[0]);
        assert(step_rel(pre, ops.push(op)[0], mid1, sr1));
    }
}

/// An executed prefix, one failing operation, and whatever follows it make
/// a failed run of the whole list.
proof fn lemma_plan_rel_extend_err(
    pre: DB,
    ops: Seq<Operation>,
    i: int,
    mid: DB,
    post: DB,
    e: DBError,
)
    requires
        0 <= i < ops.len(),
        plan_rel(pre, ops.take(i), mid, Ok(())),
        step_rel(mid, ops[i], post, Err(e)),
    ensures
        plan_rel(pre, ops, post, Err(e)),
    decreases i,
{
    if i == 0 {
        assert(ops.take(0) =~= Seq::<Operation>::empty());
        assert(mid == pre);
        assert(step_rel(pre, ops[0], post, Err(e)));
    } else {
        let prefix = ops.take(i);
        let (mid1, sr1): (DB, Result<(), DBError>) = choose|mid1: DB, sr1: Result<(), DBError>|
            {
                &&& #[trigger] step_rel(pre, prefix[0], mid1, sr1)
                &&& match sr1 {
                    Ok(_) => plan_rel(mid1, prefix.drop_first(), mid, Ok(())),
                    Err(e2) => mid == mid1 && Ok::<(), DBError>(()) == (Err::<(), DBError>(e2)),
                }
            };
        assert(sr1 is Ok);
        assert(prefix.drop_first() =~= ops.drop_first().take(i - 1));
        assert(ops.drop_first()[i - 1] == ops[i]);
        lemma_plan_rel_extend_err(mid1, ops.drop_first(), i - 1, mid, post, e);
        assert(prefix[0] == ops[0]);
        assert(step_rel(pre, ops[0], mid1, sr1));
    }
}

/// Version density: in a valid engine, every `(stream, key)` log of
/// length n carries the versions exactly 1 through n, in order. So after
/// n successful appends for a pair, the versions read 1..=n.
pub proof fn lemma_version_density(db: DB, s: Seq<char>, k: Seq<char>)
    requires
        db.wf(),
    ensures
        forall|i: int|
            0 <= i < db.log_events(s, k).len() ==> (#[trigger] db.log_events(s, k)[i]).version
                as int == i + 1,
{
    if db.has_log(s, k) {
        let idx = log_idx(db.streams@, s, k);
        assert(log_entry_wf(db.streams@[idx]));
    }
}

/// Monotone timestamps: in a valid engine, within any `(stream, key)`
/// log, a record never carries a timestamp below an earlier record's.
pub proof fn lemma_timestamps_monotone(db: DB, s: Seq<char>, k: Seq<char>)
    requires
        db.wf(),
    ensures
        forall|i: int, j: int|
            0 <= i <= j < db.log_events(s, k).len() ==> (#[trigger] db.log_events(s, k)[i]).timestamp
                <= (#[trigger] db.log_events(s, k)[j]).timestamp,
{
    if db.has_log(s, k) {
        let idx = log_idx(db.streams@, s, k);
        assert(log_entry_wf(db.streams@[idx]));
        let l = db.log_events(s, k);
        assert forall|i: int, j: int| 0 <= i <= j < l.len() implies (#[trigger] l[i]).timestamp <= (
        #[trigger] l[j]).timestamp by {
            lemma_ts_chain(db.streams@[idx], i, j);
        }
    }
}

/// Transitivity of the consecutive timestamp bound along one log.
proof fn lemma_ts_chain(l: StreamLog, i: int, j: int)
    requires
        log_entry_wf(l),
        0 <= i <= j < l.events@.len(),
    ensures
        l.events@[i].timestamp <= l.events@[j].timestamp,
    decreases j - i,
{
    if i < j {
        lemma_ts_chain(l, i, j - 1);
    }
}

/// Serialization: appends for one `(stream, key)` pair are serialized by
/// the engine, so when m of them have succeeded the pair's log holds
/// exactly m records whose versions are exactly 1 through m, in order,
/// whatever ran in between.
pub proof fn lemma_append_serialization(db: DB, s: Seq<char>, k: Seq<char>, m: int)
    requires
        db.wf(),
        db.log_events(s, k).len() == m,
    ensures
        forall|i: int|
            0 <= i < m ==> (#[trigger] db.log_events(s, k)[i]).version as int == i + 1,
{
    lemma_version_density(db, s, k);
}

/// Idempotent create: creating a stream that a first create has already
/// put in the catalog changes nothing, and the catalog holds exactly one
/// entry under that name.
pub proof fn lemma_idempotent_create_stream(s1: Schema, s2: Schema, s3: Schema, name: Seq<char>)
    requires
        s1.wf(),
        s2.wf(),
        create_stream_post(s1, s2, name),
        create_stream_post(s2, s3, name),
    ensures
        s3.streams@ == s2.streams@,
        s2.has_stream(name),
        forall|i: int, j: int|
            0 <= i < s2.streams@.len() && 0 <= j < s2.streams@.len() && s2.streams@[i].name@ == name
                && s2.streams@[j].name@ == name ==> i == j,
{
    if s1.has_stream(name) {
        let w = choose|i: int| 0 <= i < s1.streams@.len() && s1.streams@[i].name@ == name;
        assert(s2.streams@[w].name@ == name);
    } else {
        let last = s2.streams@.len() - 1;
        assert(s2.streams@[last].name@ == name);
    }
    assert forall|i: int, j: int|
        0 <= i < s2.streams@.len() && 0 <= j < s2.streams@.len() && s2.streams@[i].name@ == name
            && s2.streams@[j].name@ == name implies i == j by {
        if i != j {
            assert(s2.streams@[i].name@ != s2.streams@[j].name@);
        }
    }
}

/// Independence: an append for one `(stream, key)` pair, successful or
/// not, leaves every other pair's log exactly as it was; and whether it
/// succeeds depends only on the catalog, the clock and that pair's own
/// log, never on another pair's.
pub proof fn lemma_append_independence(
    pre: DB,
    post: DB,
    stream: StreamName,
    key: String,
    event: EventName,
    vals: Seq<AttributeValue>,
    r: Result<(), DBError>,
    s2: Seq<char>,
    k2: Seq<char>,
)
    requires
        append_step(pre, post, stream, key, event, vals, r),
        !(s2 == stream@ && k2 == key@),
    ensures
        post.log_events(s2, k2) == pre.log_events(s2, k2),
        post.has_log(s2, k2) == pre.has_log(s2, k2),
{
}

/// String comparison with the spec of character-sequence equality.
fn string_eq(a: &String, b: &str) -> (r: bool)
    ensures
        r == (a@ == b@),
{
    *a == b.to_owned()
}

/// Whether a literal value is acceptable for an attribute declared with
/// the given type name: `string`, `int`, `float` and `bool` take their own
/// literals, and `float` also takes an int, which promotes. There is no
/// other coercion.
pub open spec fn compatible(v: Value, t: Seq<char>) -> bool {
    match v {
        Value::String(_) => t == "string"@,
        Value::Int(_) => t == "int"@ || t == "float"@,
        Value::Float(_) => t == "float"@,
        Value::Bool(_) => t == "bool"@,
    }
}

/// Runs the compatibility rule.
pub fn value_compatible(v: &Value, t: &String) -> (r: bool)
    ensures
        r == compatible(*v, t@),
{
    match v {
        Value::String(_) => string_eq(t, "string"),
        Value::Int(_) => string_eq(t, "int") || string_eq(t, "float"),
        Value::Float(_) => string_eq(t, "float"),
        Value::Bool(_) => string_eq(t, "bool"),
    }
}

/// Whether one attribute value of an `add` passes against the catalog:
/// the attribute exists and the literal matches its declared type.
pub open spec fn attr_ok(schema: Schema, s: Seq<char>, e: Seq<char>, v: AttributeValue) -> bool {
    match find_attr(schema.attributes@, s, e, v.name@) {
        Some(a) => compatible(v.value, a.attribute_type@),
        None => false,
    }
}

/// The timestamp actually stored for an append: the given clock reading,
/// clamped so that it never falls below the last record's timestamp.
pub open spec fn clamped_ts(base: Seq<Event>, t: u128) -> u128 {
    if base.len() > 0 && base.last().timestamp > t {
        base.last().timestamp
    } else {
        t
    }
}

/// Relies on std::time::SystemTime::now: the wall clock, read as
/// milliseconds since the Unix epoch; `None` when the clock reads earlier
/// than the epoch. Nothing can be promised of the reading itself.
#[verifier::external_body]
pub(crate) fn read_clock() -> (r: Option<u128>) {
    match std::time::SystemTime::now().duration_since(std::time::UNIX_EPOCH) {
        Ok(d) => Some(d.as_millis()),
        Err(_) => None,
    }
}

/// The position of the log entry keyed by the two names, if any.
fn position_of(logs: &Vec<StreamLog>, stream: &String, key: &String) -> (r: Option<usize>)
    ensures
        r matches Some(i) ==> i < logs@.len() && logs@[i as int].stream@ == stream@ && logs@[i
            as int].key@ == key@,
        r is None ==> !has_log_in(logs@, stream@, key@),
        r is Some <==> has_log_in(logs@, stream@, key@),
{
    let mut i: usize = 0;
    while i < logs.len()
        invariant
            i <= logs@.len(),
            forall|j: int| 0 <= j < i ==> !(logs@[j].stream@ == stream@ && logs@[j].key@ == key@),
        decreases logs@.len() - i,
    {
        if logs[i].stream == *stream && logs[i].key == *key {
            return Some(i);
        }
        i += 1;
    }
    None
}

/// When an entry keyed `(s, k)` is replaced in place by one with the same
/// key, every other key's log is untouched, and `(s, k)` reads the new
/// entry.
proof fn lemma_log_update(pre: Seq<StreamLog>, post: Seq<StreamLog>, idx: int)
    requires
        0 <= idx < pre.len(),
        post.len() == pre.len(),
        post[idx].stream@ == pre[idx].stream@,
        post[idx].key@ == pre[idx].key@,
        forall|i: int| 0 <= i < pre.len() && i != idx ==> post[i] == pre[i],
        forall|i: int, j: int|
            0 <= i < j < pre.len() ==> !(pre[i].stream@ == pre[j].stream@ && pre[i].key@
                == pre[j].key@),
    ensures
        forall|i: int, j: int|
            0 <= i < j < post.len() ==> !(post[i].stream@ == post[j].stream@ && post[i].key@
                == post[j].key@),
        log_events_in(pre, pre[idx].stream@, pre[idx].key@) == pre[idx].events@,
        log_events_in(post, pre[idx].stream@, pre[idx].key@) == post[idx].events@,
        has_log_in(post, pre[idx].stream@, pre[idx].key@),
        forall|s2: Seq<char>, k2: Seq<char>|
            !(s2 == pre[idx].stream@ && k2 == pre[idx].key@) ==> #[trigger] log_events_in(
                post,
                s2,
                k2,
            ) == log_events_in(pre, s2, k2),
        forall|s2: Seq<char>, k2: Seq<char>|
            !(s2 == pre[idx].stream@ && k2 == pre[idx].key@) ==> #[trigger] has_log_in(
                post,
                s2,
                k2,
            ) == has_log_in(pre, s2, k2),
{
    let s = pre[idx].stream@;
    let k = pre[idx].key@;
    assert forall|i: int, j: int| 0 <= i < j < post.len() implies !(post[i].stream@
        == post[j].stream@ && post[i].key@ == post[j].key@) by {
        assert(pre[i].stream@ == post[i].stream@ && pre[i].key@ == post[i].key@);
        assert(pre[j].stream@ == post[j].stream@ && pre[j].key@ == post[j].key@);
    }
    assert(has_log_in(pre, s, k));
    let pi = log_idx(pre, s, k);
    assert(pi == idx);
    assert(has_log_in(post, s, k));
    let qi = log_idx(post, s, k);
    assert(qi == idx);
    assert forall|s2: Seq<char>, k2: Seq<char>| !(s2 == s && k2 == k) implies #[trigger]
        log_events_in(post, s2, k2) == log_events_in(pre, s2, k2) && has_log_in(post, s2, k2)
        == has_log_in(pre, s2, k2) by {
        if has_log_in(pre, s2, k2) {
            let i = log_idx(pre, s2, k2);
            assert(i != idx);
            assert(post[i] == pre[i]);
            assert(has_log_in(post, s2, k2));
        }
        if has_log_in(post, s2, k2) {
            let i = log_idx(post, s2, k2);
            assert(i != idx);
            assert(post[i] == pre[i]);
            assert(has_log_in(pre, s2, k2));
        }
        if has_log_in(pre, s2, k2) && has_log_in(post, s2, k2) {
            let i = log_idx(pre, s2, k2);
            let j = log_idx(post, s2, k2);
            assert(i != idx && j != idx);
            assert(post[j] == pre[j]);
            if i != j {
                assert(!(pre[i].stream@ == pre[j].stream@ && pre[i].key@ == pre[j].key@));
            }
        }
    }
}

/// When a fresh entry keyed `(s, k)` is pushed at the end, every other
/// key's log is untouched, and `(s, k)` reads the new entry.
proof fn lemma_log_push(pre: Seq<StreamLog>, post: Seq<StreamLog>)
    requires
        post.len() == pre.len() + 1,
        forall|i: int| 0 <= i < pre.len() ==> post[i] == pre[i],
        !has_log_in(pre, post.last().stream@, post.last().key@),
        forall|i: int, j: int|
            0 <= i < j < pre.len() ==> !(pre[i].stream@ == pre[j].stream@ && pre[i].key@
                == pre[j].key@),
    ensures
        forall|i: int, j: int|
            0 <= i < j < post.len() ==> !(post[i].stream@ == post[j].stream@ && post[i].key@
                == post[j].key@),
        log_events_in(pre, post.last().stream@, post.last().key@) == Seq::<Event>::empty(),
        log_events_in(post, post.last().stream@, post.last().key@) == post.last().events@,
        has_log_in(post, post.last().stream@, post.last().key@),
        forall|s2: Seq<char>, k2: Seq<char>|
            !(s2 == post.last().stream@ && k2 == post.last().key@) ==> #[trigger] log_events_in(
                post,
                s2,
                k2,
            ) == log_events_in(pre, s2, k2),
        forall|s2: Seq<char>, k2: Seq<char>|
            !(s2 == post.last().stream@ && k2 == post.last().key@) ==> #[trigger] has_log_in(
                post,
                s2,
                k2,
            ) == has_log_in(pre, s2, k2),
{
    let s = post.last().stream@;
    let k = post.last().key@;
    let n = pre.len() as int;
    assert forall|i: int, j: int| 0 <= i < j < post.len() implies !(post[i].stream@
        == post[j].stream@ && post[i].key@ == post[j].key@) by {
        if j < n {
            assert(post[i] == pre[i] && post[j] == pre[j]);
        } else {
            assert(post[j] == post.last());
            if post[i].stream@ == s && post[i].key@ == k {
                assert(pre[i] == post[i]);
                assert(has_log_in(pre, s, k));
            }
        }
    }
    assert(has_log_in(post, s, k)) by {
        assert(post[n].stream@ == s && post[n].key@ == k);
    }
    let qi = log_idx(post, s, k);
    assert(qi == n) by {
        if qi < n {
            assert(pre[qi] == post[qi]);
            assert(has_log_in(pre, s, k));
        }
    }
    assert forall|s2: Seq<char>, k2: Seq<char>| !(s2 == s && k2 == k) implies #[trigger]
        log_events_in(post, s2, k2) == log_events_in(pre, s2, k2) && has_log_in(post, s2, k2)
        == has_log_in(pre, s2, k2) by {
        if has_log_in(pre, s2, k2) {
            let i = log_idx(pre, s2, k2);
            assert(post[i] == pre[i]);
            assert(has_log_in(post, s2, k2));
        }
        if has_log_in(post, s2, k2) {
            let i = log_idx(post, s2, k2);
            assert(i != n);
            assert(post[i] == pre[i]);
            assert(has_log_in(pre, s2, k2));
        }
        if has_log_in(pre, s2, k2) && has_log_in(post, s2, k2) {
            let i = log_idx(pre, s2, k2);
            let j = log_idx(post, s2, k2);
            assert(j != n);
            assert(post[j] == pre[j]);
            if i != j {
                assert(!(pre[i].stream@ == pre[j].stream@ && pre[i].key@ == pre[j].key@));
            }
        }
    }
}

} // verus!
