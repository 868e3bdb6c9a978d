//! The `add` operation of the string-command surface: parses a body of
//! the form `Event(name="value", ...)->stream:key`, validates it against
//! the catalog and appends one record.

use vstd::prelude::*;
use crate::db::{DBError, DB};
use crate::event::{Attribute, Event};
use crate::ast::Value;
use crate::schema::{AttributeName, EventName, StreamName};
use crate::text::{
    assign_pairs, find_char, find_two, idx_of, idx_of2, lemma_idx_of, lemma_idx_of2, skip_chars,
    split_assigns, str_to_chars, subrange_chars, trim, trim_chars,
};
use super::general::Operation;

verus! {

#[derive(Debug)]
pub enum AddError {
    AddError(String),
    ValidationError(String),
    ParseError(String),
}

impl AddError {
    /// The text of the error.
    pub fn message(&self) -> &str {
        match self {
            AddError::AddError(m) => m.as_str(),
            AddError::ValidationError(m) => m.as_str(),
            AddError::ParseError(m) => m.as_str(),
        }
    }
}

/// A parsed `add` body: which event to append, where, and its values.
#[derive(Debug, Clone, PartialEq)]
pub struct AddEvent {
    pub stream: String,
    pub key: String,
    pub event: String,
    pub attributes: Vec<AddEventAttribute>,
}

#[derive(Debug, Clone, PartialEq)]
pub struct AddEventAttribute {
    pub name: String,
    pub value: String,
}

/// What `parse` reads from a body `Event(assigns)->stream:key`: the event
/// name before the first `(`, the stream and key around the `:` after the
/// single `->`, and the assignment list between the parentheses. `None`
/// when the `(`, the `)`, exactly one `->` or the `:` is missing, or an
/// assignment has no `=`.
pub open spec fn spec_parse_add(s: Seq<char>) -> Option<
    (Seq<char>, Seq<char>, Seq<char>, Seq<(Seq<char>, Seq<char>)>),
> {
    let op = idx_of(s, '(');
    if op >= s.len() {
        None
    } else {
        let ev = trim(s.take(op));
        let arrow = idx_of2(s, '-', '>');
        if arrow + 2 > s.len() {
            None
        } else {
            let tail = s.skip(arrow + 2);
            if idx_of2(tail, '-', '>') < tail.len() {
                None
            } else {
                let after = trim(tail);
                let colon = idx_of(after, ':');
                if colon >= after.len() {
                    None
                } else {
                    let stream = trim(after.take(colon));
                    let key = trim(after.skip(colon + 1));
                    let cl = idx_of(s, ')');
                    if cl >= s.len() || cl < op + 1 {
                        None
                    } else {
                        match assign_pairs(s.subrange(op + 1, cl)) {
                            None => None,
                            Some(attrs) => Some((ev, stream, key, attrs)),
                        }
                    }
                }
            }
        }
    }
}

/// Parses an `add` body, exactly as `spec_parse_add` says.
pub fn parse(input: &str) -> (r: Result<AddEvent, AddError>)
    ensures
        r matches Ok(a) ==> spec_parse_add(input@) matches Some(t) && a.event@ == t.0 && a.stream@
            == t.1 && a.key@ == t.2 && a.attributes@.len() == t.3.len() && (forall|i: int|
            0 <= i < t.3.len() ==> (#[trigger] a.attributes@[i]).name@ == t.3[i].0
                && a.attributes@[i].value@ == t.3[i].1),
        r is Err <==> spec_parse_add(input@) is None,
        r matches Err(e) ==> e is ParseError,
{
    let chars = str_to_chars(input);
    proof {
        lemma_idx_of(chars@, '(');
        lemma_idx_of(chars@, ')');
        lemma_idx_of2(chars@, '-', '>');
    }
    let op = find_char(&chars, '(');
    if op == chars.len() {
        return Err(AddError::ParseError("missing fields".to_owned()));
    }
    let ev_raw = subrange_chars(&chars, 0, op);
    let ev = trim_chars(&ev_raw);
    proof {
        assert(ev_raw@ =~= chars@.take(op as int));
    }
    let arrow = find_two(&chars, '-', '>');
    if chars.len() < 2 || arrow > chars.len() - 2 {
        return Err(AddError::ParseError("missing stream indicator".to_owned()));
    }
    let tail = skip_chars(&chars, arrow + 2);
    proof {
        lemma_idx_of2(tail@, '-', '>');
    }
    let second = find_two(&tail, '-', '>');
    if second < tail.len() {
        return Err(AddError::ParseError("missing stream indicator".to_owned()));
    }
    let after = trim_chars(&tail);
    proof {
        lemma_idx_of(after@, ':');
    }
    let colon = find_char(&after, ':');
    if colon == after.len() {
        return Err(AddError::ParseError("missing stream and key pair".to_owned()));
    }
    let stream_raw = subrange_chars(&after, 0, colon);
    let stream = trim_chars(&stream_raw);
    let key_raw = skip_chars(&after, colon + 1);
    let key = trim_chars(&key_raw);
    proof {
        assert(stream_raw@ =~= after@.take(colon as int));
        assert(key_raw@ =~= after@.skip(colon + 1));
    }
    let cl = find_char(&chars, ')');
    if cl == chars.len() || cl < op + 1 {
        return Err(AddError::ParseError("missing or invalid fields clause".to_owned()));
    }
    let inner = subrange_chars(&chars, op + 1, cl);
    let pairs = match split_assigns(&inner) {
        None => {
            return Err(AddError::ParseError("unable to parse field value".to_owned()));
        },
        Some(ps) => ps,
    };
    let mut attributes: Vec<AddEventAttribute> = Vec::new();
    let mut i: usize = 0;
    while i < pairs.len()
        invariant
            i <= pairs@.len(),
            attributes@.len() == i,
            forall|j: int|
                0 <= j < i ==> (#[trigger] attributes@[j]).name@ == pairs@[j].0@
                    && attributes@[j].value@ == pairs@[j].1@,
        decreases pairs@.len() - i,
    {
        attributes.push(
            AddEventAttribute { name: pairs[i].0.clone(), value: pairs[i].1.clone() },
        );
        i += 1;
    }
    Ok(
        AddEvent {
            stream: crate::text::chars_to_string(&stream),
            key: crate::text::chars_to_string(&key),
            event: crate::text::chars_to_string(&ev),
            attributes,
        },
    )
}

/// Parses the body, validates the event against the catalog, and appends
/// one record for `(stream, key)` with the values as strings. A body
/// that does not parse is a parse error; a missing stream, event or
/// attribute is a validation error; when everything is present, only a
/// failed clock reading or a log grown past the version range can still
/// refuse, each with its own message. On success the record's version is
/// the old log length plus one, its attributes are the parsed values,
/// and no other log is touched; every failure leaves the engine exactly
/// as it was.
#[verifier::rlimit(100)]
pub fn add(op: Operation, db: &mut DB) -> (r: Result<String, AddError>)
    requires
        old(db).wf(),
    ensures
        final(db).wf(),
        final(db).schema == old(db).schema,
        r is Err ==> *final(db) == *old(db),
        spec_parse_add(op.body@) is None <==> r matches Err(AddError::ParseError(_)),
        spec_parse_add(op.body@) matches Some(t) ==> {
            &&& (r matches Err(AddError::ValidationError(_)) <==> !old(db).schema.has_stream(t.1)
                || !old(db).schema.has_event(t.1, t.0) || (exists|i: int|
                0 <= i < t.3.len() && !old(db).schema.has_attribute(t.1, t.0, t.3[i].0)))
            &&& (old(db).schema.has_stream(t.1) && old(db).schema.has_event(t.1, t.0) && (forall|
                i: int,
            |
                0 <= i < t.3.len() ==> old(db).schema.has_attribute(t.1, t.0, t.3[i].0)) && old(
                db,
            ).log_events(t.1, t.2).len() + 1 <= u64::MAX ==> (r is Ok || (r matches Err(
                AddError::AddError(m),
            ) && m@ == "unable to create timestamp"@)))
            &&& (r is Ok ==> {
                let base = old(db).log_events(t.1, t.2);
                let post = final(db).log_events(t.1, t.2);
                &&& post.len() == base.len() + 1
                &&& post.take(base.len() as int) == base
                &&& post.last().event@ == t.0
                &&& post.last().stream@ == t.1
                &&& post.last().key@ == t.2
                &&& post.last().version as int == base.len() + 1
                &&& post.last().attributes@.len() == t.3.len()
                &&& (forall|i: int|
                    0 <= i < t.3.len() ==> (#[trigger] post.last().attributes@[i]).name@
                        == t.3[i].0 && (post.last().attributes@[i].value matches Value::String(sv)
                        && sv@ == t.3[i].1))
            })
            &&& (r is Ok ==> forall|s2: Seq<char>, k2: Seq<char>|
                !(s2 == t.1 && k2 == t.2) ==> #[trigger] final(db).log_events(s2, k2) == old(
                    db,
                ).log_events(s2, k2))
        },
{
    let parsed = match parse(op.body.as_str()) {
        Ok(p) => p,
        Err(e) => {
            return Err(e);
        },
    };
    let stream_name = StreamName::new(parsed.stream.clone());
    let event_name = EventName::new(parsed.event.clone());
    if !db.schema.stream_exists(&stream_name) {
        return Err(AddError::ValidationError("stream not found".to_owned()));
    }
    if !db.schema.event_exists(&stream_name, &event_name) {
        return Err(AddError::ValidationError("event not found".to_owned()));
    }
    let mut i: usize = 0;
    while i < parsed.attributes.len()
        invariant
            i <= parsed.attributes@.len(),
            *db == *old(db),
            old(db).wf(),
            stream_name@ == parsed.stream@,
            event_name@ == parsed.event@,
            (spec_parse_add(op.body@) matches Some(t2) && parsed.stream@ == t2.1
                && parsed.event@ == t2.0 && parsed.attributes@.len() == t2.3.len() && (forall|
                j: int,
            |
                0 <= j < t2.3.len() ==> (#[trigger] parsed.attributes@[j]).name@ == t2.3[j].0)),
            forall|j: int|
                0 <= j < i ==> old(db).schema.has_attribute(
                    stream_name@,
                    event_name@,
                    (#[trigger] parsed.attributes@[j]).name@,
                ),
        decreases parsed.attributes@.len() - i,
    {
        let attr_name = AttributeName::new(parsed.attributes[i].name.clone());
        if !db.schema.attribute_exists(&stream_name, &event_name, &attr_name) {
            proof {
                let t2 = spec_parse_add(op.body@).unwrap();
                assert(!old(db).schema.has_attribute(t2.1, t2.0, t2.3[i as int].0));
            }
            return Err(AddError::ValidationError("attribute not found".to_owned()));
        }
        i += 1;
    }
    proof {
        let t = spec_parse_add(op.body@).unwrap();
        assert forall|i2: int| 0 <= i2 < t.3.len() implies old(db).schema.has_attribute(
            t.1,
            t.0,
            (#[trigger] t.3[i2]).0,
        ) by {
            assert(old(db).schema.has_attribute(
                stream_name@,
                event_name@,
                parsed.attributes@[i2].name@,
            ));
        }
    }
    let ghost base = db.log_events(parsed.stream@, parsed.key@);
    let len: u64 = match db.get_events(parsed.stream.clone(), parsed.key.clone()) {
        Ok(Some(events)) => events.len() as u64,
        Ok(None) => 0,
        Err(_) => {
            return Err(AddError::AddError("unable to read the log".to_owned()));
        },
    };
    proof {
        assert(len as int == base.len());
    }
    if len == u64::MAX {
        return Err(AddError::AddError("log is full".to_owned()));
    }
    let timestamp = match crate::db::read_clock() {
        Some(t) => t,
        None => {
            return Err(AddError::AddError("unable to create timestamp".to_owned()));
        },
    };
    let mut attributes: Vec<Attribute> = Vec::new();
    let mut i: usize = 0;
    while i < parsed.attributes.len()
        invariant
            i <= parsed.attributes@.len(),
            attributes@.len() == i,
            forall|j: int|
                0 <= j < i ==> (#[trigger] attributes@[j]).name@ == parsed.attributes@[j].name@
                    && (attributes@[j].value matches Value::String(sv) && sv@
                    == parsed.attributes@[j].value@),
        decreases parsed.attributes@.len() - i,
    {
        attributes.push(
            Attribute {
                name: parsed.attributes[i].name.clone(),
                value: Value::String(parsed.attributes[i].value.clone()),
            },
        );
        i += 1;
    }
    let record = Event::new(
        parsed.stream,
        parsed.key,
        parsed.event,
        len + 1,
        timestamp,
        attributes,
    );
    let res = db.add_event(record);
    proof {
        assert(res is Ok);
        assert(db.log_events(parsed.stream@, parsed.key@).take(base.len() as int) =~= base);
    }
    match res {
        Ok(_) => Ok("added event".to_owned()),
        Err(e) => Err(AddError::AddError(e.message())),
    }
}

} // verus!
