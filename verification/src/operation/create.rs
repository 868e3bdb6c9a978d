//! The `create` operation of the string-command surface: a body of the
//! form `stream(name, key)`, `event(stream, name)` or
//! `attribute(stream, event, name, required, type)`, applied to the
//! catalog.

use vstd::prelude::*;
use crate::db::{DBError, DB};
use crate::schema::{
    Attribute as SchemaAttribute, AttributeName, Event as SchemaEvent, EventName, Schema, Stream,
    StreamName,
};
use crate::text::{
    chars_eq_str, chars_to_string, idx_of, lemma_idx_of, skip_chars, split_commas,
    split_commas_chars, str_to_chars, subrange_chars, to_lower, trim, trim_chars,
};

verus! {

#[derive(Debug)]
pub struct CreateError {
    message: String,
}

impl CreateError {
    pub fn new(message: &str) -> (r: Self) {
        CreateError { message: message.to_owned() }
    }

    /// The text of the error.
    pub fn message(&self) -> &str {
        self.message.as_str()
    }
}

/// A parsed `create` body: which kind of catalog entry to make.
#[derive(Debug, Clone, PartialEq)]
pub enum CreateOperation {
    CreateStream(Stream),
    CreateEvent(SchemaEvent),
    CreateAttribute(SchemaAttribute),
}

/// The lower-cased word before the single `(` of the body, or `None`
/// when the body has no `(` or more than one.
pub open spec fn spec_block_type(s: Seq<char>) -> Option<Seq<char>> {
    let n = idx_of(s, '(');
    if n >= s.len() {
        None
    } else if idx_of(s.skip(n + 1), '(') < s.len() - n - 1 {
        None
    } else {
        Some(to_lower(s.take(n)))
    }
}

/// The comma-separated fields between the `(` and the final character of
/// the body (which the shape `kind(...)` puts at the closing `)`), or
/// `None` when the body has no `(` or ends before it.
pub open spec fn spec_fields(s: Seq<char>) -> Option<Seq<Seq<char>>> {
    let n = idx_of(s, '(');
    if n >= s.len() || s.len() - 1 < n + 1 {
        None
    } else {
        Some(split_commas(s.subrange(n + 1, s.len() - 1)))
    }
}

/// Extracts the block type, exactly as `spec_block_type` says.
pub fn extract_block_type(input: &str) -> (r: Result<String, CreateError>)
    ensures
        r matches Ok(t) ==> spec_block_type(input@) == Some(t@),
        r is Err <==> spec_block_type(input@) is None,
{
    let chars = str_to_chars(input);
    proof {
        lemma_idx_of(chars@, '(');
    }
    let n = crate::text::find_char(&chars, '(');
    if n == chars.len() {
        return Err(CreateError::new("unable to extract type"));
    }
    let rest = skip_chars(&chars, n + 1);
    proof {
        lemma_idx_of(rest@, '(');
    }
    let second = crate::text::find_char(&rest, '(');
    if second < rest.len() {
        return Err(CreateError::new("unable to extract type"));
    }
    let head = subrange_chars(&chars, 0, n);
    proof {
        assert(head@ =~= chars@.take(n as int));
    }
    let lowered = crate::text::lower_chars(&head);
    Ok(chars_to_string(&lowered))
}

/// Extracts the fields, exactly as `spec_fields` says.
pub fn extract_fields(input: &str) -> (r: Result<Vec<String>, CreateError>)
    ensures
        r matches Ok(fs) ==> spec_fields(input@) matches Some(gs) && fs@.len() == gs.len() && (
        forall|i: int| 0 <= i < gs.len() ==> (#[trigger] fs@[i])@ == gs[i]),
        r is Err <==> spec_fields(input@) is None,
{
    let chars = str_to_chars(input);
    proof {
        lemma_idx_of(chars@, '(');
    }
    let n = crate::text::find_char(&chars, '(');
    if n == chars.len() || chars.len() - 1 < n + 1 {
        return Err(CreateError::new("unable to extract fields"));
    }
    let inner = subrange_chars(&chars, n + 1, chars.len() - 1);
    let segs = split_commas_chars(&inner);
    let mut out: Vec<String> = Vec::new();
    let mut i: usize = 0;
    while i < segs.len()
        invariant
            i <= segs@.len(),
            out@.len() == i,
            forall|j: int| 0 <= j < i ==> (#[trigger] out@[j])@ == segs@[j]@,
        decreases segs@.len() - i,
    {
        out.push(chars_to_string(&segs[i]));
        i += 1;
    }
    proof {
        let gs = split_commas(inner@);
        assert(segs@.map_values(|sg: Vec<char>| sg@) == gs);
        assert forall|j: int| 0 <= j < gs.len() implies (#[trigger] out@[j])@ == gs[j] by {
            assert(segs@.map_values(|sg: Vec<char>| sg@)[j] == segs@[j]@);
        }
    }
    Ok(out)
}

/// A trimmed, non-empty field, or `None`.
fn trimmed_field(f: &String) -> (r: Option<String>)
    ensures
        r matches Some(t) ==> t@ == trim(f@) && trim(f@).len() > 0,
        r is None <==> trim(f@).len() == 0,
{
    let chars = str_to_chars(f.as_str());
    let t = trim_chars(&chars);
    if t.len() == 0 {
        None
    } else {
        Some(chars_to_string(&t))
    }
}

/// The entry described by the fields of a `stream(name, key)` block:
/// exactly two fields, both non-empty after trimming.
pub open spec fn spec_stream_fields(fs: Seq<Seq<char>>) -> Option<(Seq<char>, Seq<char>)> {
    if fs.len() != 2 {
        None
    } else if trim(fs[0]).len() == 0 || trim(fs[1]).len() == 0 {
        None
    } else {
        Some((trim(fs[0]), trim(fs[1])))
    }
}

fn create_stream(values: &Vec<String>) -> (r: Result<Stream, CreateError>)
    ensures
        r matches Ok(s) ==> spec_stream_fields(values@.map_values(|f: String| f@)) matches Some(p)
            && s.name@ == p.0 && s.key@ == p.1,
        r is Err <==> spec_stream_fields(values@.map_values(|f: String| f@)) is None,
{
    if values.len() != 2 {
        return Err(CreateError::new("unable to create stream"));
    }
    let name = match trimmed_field(&values[0]) {
        Some(t) => t,
        None => {
            return Err(CreateError::new("stream name is empty"));
        },
    };
    let key = match trimmed_field(&values[1]) {
        Some(t) => t,
        None => {
            return Err(CreateError::new("stream key is empty"));
        },
    };
    Ok(Stream { name: StreamName::new(name), key })
}

/// The entry described by the fields of an `event(stream, name)` block.
pub open spec fn spec_event_fields(fs: Seq<Seq<char>>) -> Option<(Seq<char>, Seq<char>)> {
    if fs.len() != 2 {
        None
    } else if trim(fs[0]).len() == 0 || trim(fs[1]).len() == 0 {
        None
    } else {
        Some((trim(fs[0]), trim(fs[1])))
    }
}

fn create_event(values: &Vec<String>) -> (r: Result<SchemaEvent, CreateError>)
    ensures
        r matches Ok(e) ==> spec_event_fields(values@.map_values(|f: String| f@)) matches Some(p)
            && e.stream_name@ == p.0 && e.name@ == p.1,
        r is Err <==> spec_event_fields(values@.map_values(|f: String| f@)) is None,
{
    if values.len() != 2 {
        return Err(CreateError::new("unable to create event"));
    }
    let stream_name = match trimmed_field(&values[0]) {
        Some(t) => t,
        None => {
            return Err(CreateError::new("stream name is empty"));
        },
    };
    let name = match trimmed_field(&values[1]) {
        Some(t) => t,
        None => {
            return Err(CreateError::new("event name is empty"));
        },
    };
    Ok(SchemaEvent { name: EventName::new(name), stream_name: StreamName::new(stream_name) })
}

/// The entry described by the fields of an
/// `attribute(stream, event, name, required, type)` block: five fields,
/// non-empty after trimming, the fourth exactly `true` or `false`.
pub open spec fn spec_attribute_fields(fs: Seq<Seq<char>>) -> Option<
    (Seq<char>, Seq<char>, Seq<char>, bool, Seq<char>),
> {
    if fs.len() != 5 {
        None
    } else if trim(fs[0]).len() == 0 || trim(fs[1]).len() == 0 || trim(fs[2]).len() == 0 || trim(
        fs[3],
    ).len() == 0 || trim(fs[4]).len() == 0 {
        None
    } else if trim(fs[3]) == "true"@ {
        Some((trim(fs[0]), trim(fs[1]), trim(fs[2]), true, trim(fs[4])))
    } else if trim(fs[3]) == "false"@ {
        Some((trim(fs[0]), trim(fs[1]), trim(fs[2]), false, trim(fs[4])))
    } else {
        None
    }
}

pub fn create_attribute(values: &Vec<String>) -> (r: Result<SchemaAttribute, CreateError>)
    ensures
        r matches Ok(a) ==> spec_attribute_fields(values@.map_values(|f: String| f@)) matches Some(
            p,
        ) && a.stream_name@ == p.0 && a.event_name@ == p.1 && a.name@ == p.2 && a.required == p.3
            && a.attribute_type@ == p.4,
        r is Err <==> spec_attribute_fields(values@.map_values(|f: String| f@)) is None,
{
    if values.len() != 5 {
        return Err(CreateError::new("attribute is missing fields"));
    }
    let stream_name = match trimmed_field(&values[0]) {
        Some(t) => t,
        None => {
            return Err(CreateError::new("stream name is empty"));
        },
    };
    let event_name = match trimmed_field(&values[1]) {
        Some(t) => t,
        None => {
            return Err(CreateError::new("event name is empty"));
        },
    };
    let name = match trimmed_field(&values[2]) {
        Some(t) => t,
        None => {
            return Err(CreateError::new("name is empty"));
        },
    };
    let required_value = match trimmed_field(&values[3]) {
        Some(t) => t,
        None => {
            return Err(CreateError::new("required is empty"));
        },
    };
    let required_chars = str_to_chars(required_value.as_str());
    let required = if chars_eq_str(&required_chars, "true") {
        true
    } else if chars_eq_str(&required_chars, "false") {
        false
    } else {
        return Err(CreateError::new("required field value is not true or false"));
    };
    let attribute_type = match trimmed_field(&values[4]) {
        Some(t) => t,
        None => {
            return Err(CreateError::new("type is empty"));
        },
    };
    Ok(
        SchemaAttribute {
            stream_name: StreamName::new(stream_name),
            event_name: EventName::new(event_name),
            name: AttributeName::new(name),
            required,
            attribute_type,
        },
    )
}

/// Whether a `create` body parses: its block type is one of the three
/// kinds and the fields fit that kind.
pub open spec fn spec_create_parses(s: Seq<char>) -> bool {
    match (spec_block_type(s), spec_fields(s)) {
        (Some(t), Some(fs)) => if t == "stream"@ {
            spec_stream_fields(fs) is Some
        } else if t == "event"@ {
            spec_event_fields(fs) is Some
        } else if t == "attribute"@ {
            spec_attribute_fields(fs) is Some
        } else {
            false
        },
        _ => false,
    }
}

/// Whether the parsed entry can be applied to the catalog: a stream
/// always (creation is idempotent), an event when its stream exists, an
/// attribute when its event exists and any entry already declared under
/// that name carries the same type.
pub open spec fn create_applies(schema: Schema, s: Seq<char>) -> bool {
    let t = spec_block_type(s).unwrap();
    let fs = spec_fields(s).unwrap();
    if t == "stream"@ {
        true
    } else if t == "event"@ {
        schema.has_stream(spec_event_fields(fs).unwrap().0)
    } else {
        let p = spec_attribute_fields(fs).unwrap();
        schema.has_event(p.0, p.1) && match schema.spec_attribute_details(p.0, p.1, p.2) {
            Some(d) => d.attribute_type@ == p.4,
            None => true,
        }
    }
}

/// Parses a `create` body into the catalog entry it describes. The
/// returned entry's names are pinned by the field specs; parsing fails
/// exactly when `spec_parse_create` has nothing.
pub fn parse(input: &str) -> (r: Result<CreateOperation, CreateError>)
    ensures
        r is Err <==> !spec_create_parses(input@),
        r matches Ok(o) ==> {
            let t = spec_block_type(input@).unwrap();
            let fs = spec_fields(input@).unwrap();
            &&& (t == "stream"@ ==> (o matches CreateOperation::CreateStream(s) && ({
                let p = spec_stream_fields(fs).unwrap();
                s.name@ == p.0 && s.key@ == p.1
            })))
            &&& (t == "event"@ ==> (o matches CreateOperation::CreateEvent(e) && ({
                let p = spec_event_fields(fs).unwrap();
                e.stream_name@ == p.0 && e.name@ == p.1
            })))
            &&& (t == "attribute"@ ==> (o matches CreateOperation::CreateAttribute(a) && ({
                let p = spec_attribute_fields(fs).unwrap();
                a.stream_name@ == p.0 && a.event_name@ == p.1 && a.name@ == p.2 && a.required
                    == p.3 && a.attribute_type@ == p.4
            })))
        },
{
    let block_kind = extract_block_type(input)?;
    let values = extract_fields(input)?;
    proof {
        assert(values@.map_values(|f: String| f@) =~= spec_fields(input@).unwrap());
        reveal_strlit("stream");
        reveal_strlit("event");
        reveal_strlit("attribute");
        assert("stream"@.len() == 6);
        assert("event"@.len() == 5);
        assert("attribute"@.len() == 9);
        assert("stream"@ != "event"@);
        assert("stream"@ != "attribute"@);
        assert("event"@ != "attribute"@);
    }
    let type_chars = str_to_chars(block_kind.as_str());
    if chars_eq_str(&type_chars, "stream") {
        Ok(CreateOperation::CreateStream(create_stream(&values)?))
    } else if chars_eq_str(&type_chars, "event") {
        Ok(CreateOperation::CreateEvent(create_event(&values)?))
    } else if chars_eq_str(&type_chars, "attribute") {
        Ok(CreateOperation::CreateAttribute(create_attribute(&values)?))
    } else {
        Err(CreateError::new("unsupported type"))
    }
}

/// Parses the body and applies it: a stream is inserted if new, an event
/// must name an existing stream, and an attribute must name an existing
/// event and not conflict with one already declared. The logs are never
/// touched, and a failure leaves the whole engine as it was.
#[verifier::rlimit(100)]
pub fn create(op: super::general::Operation, db: &mut DB) -> (r: Result<String, CreateError>)
    requires
        old(db).wf(),
    ensures
        final(db).wf(),
        final(db).streams == old(db).streams,
        r is Err ==> *final(db) == *old(db),
        r is Ok <==> spec_create_parses(op.body@) && create_applies(old(db).schema, op.body@),
        r is Ok ==> {
            let t = spec_block_type(op.body@).unwrap();
            let fs = spec_fields(op.body@).unwrap();
            let pre = old(db).schema;
            let post = final(db).schema;
            &&& (t == "stream"@ ==> {
                let p = spec_stream_fields(fs).unwrap();
                &&& post.has_stream(p.0)
                &&& post.events == pre.events
                &&& post.attributes == pre.attributes
                &&& (pre.has_stream(p.0) ==> post == pre)
                &&& (!pre.has_stream(p.0) ==> post.streams@.len() == pre.streams@.len() + 1
                    && post.streams@.take(pre.streams@.len() as int) == pre.streams@
                    && post.streams@.last().name@ == p.0 && post.streams@.last().key@ == p.1)
            })
            &&& (t == "event"@ ==> {
                let p = spec_event_fields(fs).unwrap();
                &&& crate::db::create_event_post(pre, post, p.0, p.1)
                &&& post.has_event(p.0, p.1)
            })
            &&& (t == "attribute"@ ==> {
                let p = spec_attribute_fields(fs).unwrap();
                &&& post.streams == pre.streams
                &&& post.events == pre.events
                &&& post.has_attribute(p.0, p.1, p.2)
                &&& (pre.has_attribute(p.0, p.1, p.2) ==> post.attributes == pre.attributes)
                &&& (!pre.has_attribute(p.0, p.1, p.2) ==> post.attributes@.len()
                    == pre.attributes@.len() + 1 && post.attributes@.take(
                    pre.attributes@.len() as int,
                ) == pre.attributes@ && post.attributes@.last().stream_name@ == p.0
                    && post.attributes@.last().event_name@ == p.1
                    && post.attributes@.last().name@ == p.2 && post.attributes@.last().required
                    == p.3 && post.attributes@.last().attribute_type@ == p.4)
            })
        },
{
    let parsed = parse(op.body.as_str())?;
    proof {
        reveal_strlit("stream");
        reveal_strlit("event");
        reveal_strlit("attribute");
        assert("stream"@.len() == 6 && "event"@.len() == 5 && "attribute"@.len() == 9);
        assert("stream"@ != "event"@ && "stream"@ != "attribute"@ && "event"@ != "attribute"@);
    }
    match parsed {
        CreateOperation::CreateStream(stream) => {
            proof {
                assert(spec_block_type(op.body@).unwrap() == "stream"@);
            }
            let ghost entry = stream;
            let res = db.insert_stream(stream);
            proof {
                assert(res is Ok);
                if !old(db).schema.has_stream(entry.name@) {
                    assert(db.schema.streams@.last() == entry);
                }
            }
            Ok("created entry".to_owned())
        },
        CreateOperation::CreateEvent(event) => {
            proof {
                assert(spec_block_type(op.body@).unwrap() == "event"@);
            }
            match db.create_event(&event.stream_name, &event.name) {
                Ok(_) => Ok("created entry".to_owned()),
                Err(_) => Err(CreateError::new("unable to apply create")),
            }
        },
        CreateOperation::CreateAttribute(attr) => {
            proof {
                assert(spec_block_type(op.body@).unwrap() == "attribute"@);
            }
            let ghost entry = attr;
            match db.insert_attribute(attr) {
                Ok(_) => {
                    proof {
                        if !old(db).schema.has_attribute(
                            entry.stream_name@,
                            entry.event_name@,
                            entry.name@,
                        ) {
                            assert(db.schema.attributes@.last() == entry);
                        }
                    }
                    Ok("created entry".to_owned())
                },
                Err(_) => Err(CreateError::new("unable to apply create")),
            }
        },
    }
}

} // verus!
