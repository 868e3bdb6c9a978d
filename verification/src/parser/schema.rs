//! The schema text parser: a catalog written as `stream(...)`,
//! `event(...)` and `attribute(...)` blocks, one per line, each ended by
//! `;`, with `//` comment lines. An event must name a stream declared
//! above it, and an attribute an event declared above it; a block that
//! redeclares a key replaces the earlier entry, so the parsed catalog
//! always has unique keys.

use vstd::prelude::*;
use crate::operation::create::create_attribute;
use crate::schema::{
    lemma_coherence_frame, Attribute as SchemaAttribute, AttributeName, Event as SchemaEvent,
    EventName, Schema, Stream, StreamName,
};
use crate::operation::create::{
    spec_attribute_fields, spec_block_type, spec_event_fields, spec_fields, spec_stream_fields,
};
use crate::text::{
    before_char, chars_eq_str, chars_to_string, filter_seq, idx_of, is_ws, lemma_idx_of,
    lemma_idx_of_at, starts_with, str_to_chars, subrange_chars, trim, trim_chars,
};

verus! {

/// The mathematical model of a parsed catalog: stream entries as
/// (name, key), event entries as (stream, name), attribute entries as
/// (stream, event, name, required, type).
pub struct SchemaModel {
    pub streams: Seq<(Seq<char>, Seq<char>)>,
    pub events: Seq<(Seq<char>, Seq<char>)>,
    pub attributes: Seq<(Seq<char>, Seq<char>, Seq<char>, bool, Seq<char>)>,
}

/// The model a catalog value denotes.
pub open spec fn model_of(schema: Schema) -> SchemaModel {
    SchemaModel {
        streams: schema.streams@.map_values(|s: Stream| (s.name@, s.key@)),
        events: schema.events@.map_values(|e: SchemaEvent| (e.stream_name@, e.name@)),
        attributes: schema.attributes@.map_values(
            |a: SchemaAttribute| (a.stream_name@, a.event_name@, a.name@, a.required, a.attribute_type@),
        ),
    }
}

pub open spec fn model_has_stream(m: SchemaModel, x: Seq<char>) -> bool {
    exists|j: int| 0 <= j < m.streams.len() && (#[trigger] m.streams[j]).0 == x
}

pub open spec fn model_has_event(m: SchemaModel, x: Seq<char>, y: Seq<char>) -> bool {
    exists|j: int| 0 <= j < m.events.len() && (#[trigger] m.events[j]).0 == x && m.events[j].1 == y
}

/// First-match replacement, else an append at the end: what redeclaring
/// a stream name does.
pub open spec fn model_upsert_stream(
    ss: Seq<(Seq<char>, Seq<char>)>,
    e: (Seq<char>, Seq<char>),
) -> Seq<(Seq<char>, Seq<char>)>
    decreases ss.len(),
{
    if ss.len() == 0 {
        seq![e]
    } else if ss[0].0 == e.0 {
        seq![e] + ss.drop_first()
    } else {
        seq![ss[0]] + model_upsert_stream(ss.drop_first(), e)
    }
}

/// The same, keyed by the (stream, name) pair.
pub open spec fn model_upsert_event(
    es: Seq<(Seq<char>, Seq<char>)>,
    e: (Seq<char>, Seq<char>),
) -> Seq<(Seq<char>, Seq<char>)>
    decreases es.len(),
{
    if es.len() == 0 {
        seq![e]
    } else if es[0].0 == e.0 && es[0].1 == e.1 {
        seq![e] + es.drop_first()
    } else {
        seq![es[0]] + model_upsert_event(es.drop_first(), e)
    }
}

/// The same, keyed by the (stream, event, name) triple.
pub open spec fn model_upsert_attribute(
    ats: Seq<(Seq<char>, Seq<char>, Seq<char>, bool, Seq<char>)>,
    e: (Seq<char>, Seq<char>, Seq<char>, bool, Seq<char>),
) -> Seq<(Seq<char>, Seq<char>, Seq<char>, bool, Seq<char>)>
    decreases ats.len(),
{
    if ats.len() == 0 {
        seq![e]
    } else if ats[0].0 == e.0 && ats[0].1 == e.1 && ats[0].2 == e.2 {
        seq![e] + ats.drop_first()
    } else {
        seq![ats[0]] + model_upsert_attribute(ats.drop_first(), e)
    }
}

/// A first-match position pins `model_upsert_stream` to an update there,
/// or to an append when there is no match.
proof fn lemma_model_upsert_stream_at(ss: Seq<(Seq<char>, Seq<char>)>, e: (Seq<char>, Seq<char>), k: int)
    requires
        0 <= k <= ss.len(),
        forall|j: int| 0 <= j < k ==> (#[trigger] ss[j]).0 != e.0,
        k == ss.len() || ss[k].0 == e.0,
    ensures
        k < ss.len() ==> model_upsert_stream(ss, e) =~= ss.update(k, e),
        k == ss.len() ==> model_upsert_stream(ss, e) =~= ss.push(e),
    decreases k,
{
    if k == 0 {
        if ss.len() == 0 {
        } else if ss[0].0 == e.0 {
            assert(seq![e] + ss.drop_first() =~= ss.update(0, e));
        }
    } else {
        lemma_model_upsert_stream_at(ss.drop_first(), e, k - 1);
        assert(forall|j: int| 0 <= j < k - 1 ==> (#[trigger] ss.drop_first()[j]).0 == ss[j + 1].0);
        if k < ss.len() {
            assert(ss.drop_first().update(k - 1, e) =~= ss.update(k, e).drop_first());
            assert(seq![ss[0]] + ss.update(k, e).drop_first() =~= ss.update(k, e));
        } else {
            assert(seq![ss[0]] + ss.drop_first().push(e) =~= ss.push(e));
        }
    }
}

proof fn lemma_model_upsert_event_at(es: Seq<(Seq<char>, Seq<char>)>, e: (Seq<char>, Seq<char>), k: int)
    requires
        0 <= k <= es.len(),
        forall|j: int| 0 <= j < k ==> !((#[trigger] es[j]).0 == e.0 && es[j].1 == e.1),
        k == es.len() || (es[k].0 == e.0 && es[k].1 == e.1),
    ensures
        k < es.len() ==> model_upsert_event(es, e) =~= es.update(k, e),
        k == es.len() ==> model_upsert_event(es, e) =~= es.push(e),
    decreases k,
{
    if k == 0 {
        if es.len() == 0 {
        } else if es[0].0 == e.0 && es[0].1 == e.1 {
            assert(seq![e] + es.drop_first() =~= es.update(0, e));
        }
    } else {
        lemma_model_upsert_event_at(es.drop_first(), e, k - 1);
        assert(forall|j: int| 0 <= j < k - 1 ==> (#[trigger] es.drop_first()[j]) == es[j + 1]);
        if k < es.len() {
            assert(es.drop_first().update(k - 1, e) =~= es.update(k, e).drop_first());
            assert(seq![es[0]] + es.update(k, e).drop_first() =~= es.update(k, e));
        } else {
            assert(seq![es[0]] + es.drop_first().push(e) =~= es.push(e));
        }
    }
}

proof fn lemma_model_upsert_attribute_at(
    ats: Seq<(Seq<char>, Seq<char>, Seq<char>, bool, Seq<char>)>,
    e: (Seq<char>, Seq<char>, Seq<char>, bool, Seq<char>),
    k: int,
)
    requires
        0 <= k <= ats.len(),
        forall|j: int|
            0 <= j < k ==> !((#[trigger] ats[j]).0 == e.0 && ats[j].1 == e.1 && ats[j].2 == e.2),
        k == ats.len() || (ats[k].0 == e.0 && ats[k].1 == e.1 && ats[k].2 == e.2),
    ensures
        k < ats.len() ==> model_upsert_attribute(ats, e) =~= ats.update(k, e),
        k == ats.len() ==> model_upsert_attribute(ats, e) =~= ats.push(e),
    decreases k,
{
    if k == 0 {
        if ats.len() == 0 {
        } else if ats[0].0 == e.0 && ats[0].1 == e.1 && ats[0].2 == e.2 {
            assert(seq![e] + ats.drop_first() =~= ats.update(0, e));
        }
    } else {
        lemma_model_upsert_attribute_at(ats.drop_first(), e, k - 1);
        assert(forall|j: int| 0 <= j < k - 1 ==> (#[trigger] ats.drop_first()[j]) == ats[j + 1]);
        if k < ats.len() {
            assert(ats.drop_first().update(k - 1, e) =~= ats.update(k, e).drop_first());
            assert(seq![ats[0]] + ats.update(k, e).drop_first() =~= ats.update(k, e));
        } else {
            assert(seq![ats[0]] + ats.drop_first().push(e) =~= ats.push(e));
        }
    }
}

#[derive(Debug)]
pub enum SchemaParserError {
    InvalidBlock(String),
    CreateStreamError(String),
    CreateEventError(String),
    CreateAttributeError(String),
}

impl SchemaParserError {
    /// The text of the error.
    pub fn message(&self) -> &str {
        match self {
            SchemaParserError::InvalidBlock(m) => m.as_str(),
            SchemaParserError::CreateStreamError(m) => m.as_str(),
            SchemaParserError::CreateEventError(m) => m.as_str(),
            SchemaParserError::CreateAttributeError(m) => m.as_str(),
        }
    }
}

/// One block applied to the model: the entry it adds or replaces, or
/// the error it is. A block of an unknown kind is passed over.
pub enum SchemaStep {
    Good(SchemaModel),
    BadBlock,
    BadStream,
    BadEvent,
    BadAttribute,
}

pub open spec fn apply_block(m: SchemaModel, b: Seq<char>) -> SchemaStep {
    match (spec_block_type(b), spec_fields(b)) {
        (Some(t), Some(fs)) => if t == "stream"@ {
            match spec_stream_fields(fs) {
                Some(p) => SchemaStep::Good(
                    SchemaModel {
                        streams: model_upsert_stream(m.streams, p),
                        events: m.events,
                        attributes: m.attributes,
                    },
                ),
                None => SchemaStep::BadStream,
            }
        } else if t == "event"@ {
            match spec_event_fields(fs) {
                Some(p) => if model_has_stream(m, p.0) {
                    SchemaStep::Good(
                        SchemaModel {
                            streams: m.streams,
                            events: model_upsert_event(m.events, p),
                            attributes: m.attributes,
                        },
                    )
                } else {
                    SchemaStep::BadEvent
                },
                None => SchemaStep::BadEvent,
            }
        } else if t == "attribute"@ {
            match spec_attribute_fields(fs) {
                Some(p) => if model_has_event(m, p.0, p.1) {
                    SchemaStep::Good(
                        SchemaModel {
                            streams: m.streams,
                            events: m.events,
                            attributes: model_upsert_attribute(m.attributes, p),
                        },
                    )
                } else {
                    SchemaStep::BadAttribute
                },
                None => SchemaStep::BadAttribute,
            }
        } else {
            SchemaStep::Good(m)
        },
        _ => SchemaStep::BadBlock,
    }
}

/// The block text one line contributes: trimmed, cut at its first `;`,
/// with all whitespace removed.
pub open spec fn line_block(line: Seq<char>) -> Seq<char> {
    filter_seq(trim(line).take(idx_of(trim(line), ';')), |c: char| !is_ws(c))
}

/// The whole text folded line by line over a starting model: empty
/// blocks and comment blocks are passed over, every other block must
/// apply.
pub open spec fn spec_fold_schema(s: Seq<char>, m: SchemaModel) -> SchemaStep
    decreases s.len(),
    via spec_fold_schema_dec
{
    if s.len() == 0 {
        SchemaStep::Good(m)
    } else {
        let n = idx_of(s, '\n');
        let block = line_block(s.take(n));
        let step = if block.len() == 0 || starts_with(block, "//"@) {
            SchemaStep::Good(m)
        } else {
            apply_block(m, block)
        };
        match step {
            SchemaStep::Good(m2) => if n < s.len() {
                spec_fold_schema(s.skip(n + 1), m2)
            } else {
                SchemaStep::Good(m2)
            },
            SchemaStep::BadBlock => SchemaStep::BadBlock,
            SchemaStep::BadStream => SchemaStep::BadStream,
            SchemaStep::BadEvent => SchemaStep::BadEvent,
            SchemaStep::BadAttribute => SchemaStep::BadAttribute,
        }
    }
}

#[via_fn]
proof fn spec_fold_schema_dec(s: Seq<char>, m: SchemaModel) {
    lemma_idx_of(s, '\n');
}

pub open spec fn empty_model() -> SchemaModel {
    SchemaModel { streams: Seq::empty(), events: Seq::empty(), attributes: Seq::empty() }
}

/// What a whole schema text denotes: the catalog model it folds to, or
/// the error of its first bad block.
pub open spec fn spec_parse_schema(s: Seq<char>) -> SchemaStep {
    spec_fold_schema(s, empty_model())
}

/// Replaces the entry of the same name, or appends; the catalog's keys
/// stay unique.
fn upsert_stream(schema: &mut Schema, entry: Stream)
    requires
        old(schema).wf(),
    ensures
        final(schema).wf(),
        final(schema).events == old(schema).events,
        final(schema).attributes == old(schema).attributes,
        final(schema).has_stream(entry.name@),
        forall|x: Seq<char>|
            #[trigger] final(schema).has_stream(x) == (old(schema).has_stream(x) || x
                == entry.name@),
        model_of(*final(schema)).streams == model_upsert_stream(
            model_of(*old(schema)).streams,
            (entry.name@, entry.key@),
        ),
{
    let ghost pre = schema.streams@;
    let mut i: usize = 0;
    while i < schema.streams.len()
        invariant
            i <= schema.streams@.len(),
            old(schema).wf(),
            *schema == *old(schema),
            pre == old(schema).streams@,
            forall|j: int| 0 <= j < i ==> pre[j].name@ != entry.name@,
        decreases schema.streams@.len() - i,
    {
        if schema.streams[i].name == entry.name {
            let ghost nm = entry.name@;
            schema.streams.remove(i);
            schema.streams.insert(i, entry);
            proof {
                assert(schema.streams@ =~= pre.update(i as int, entry));
                assert forall|a: int, b: int| 0 <= a < b < schema.streams@.len() implies
                    schema.streams@[a].name@ != schema.streams@[b].name@ by {
                    if a != i as int && b != i as int {
                        assert(schema.streams@[a] == pre[a] && schema.streams@[b] == pre[b]);
                    } else if a == i as int {
                        assert(schema.streams@[b] == pre[b]);
                        assert(pre[b].name@ != pre[i as int].name@);
                    } else {
                        assert(schema.streams@[a] == pre[a]);
                        assert(pre[a].name@ != pre[i as int].name@);
                    }
                }
                assert forall|x: Seq<char>| #[trigger]
                    schema.has_stream(x) == (old(schema).has_stream(x) || x == nm) by {
                    if schema.has_stream(x) {
                        let w = choose|k: int|
                            0 <= k < schema.streams@.len() && schema.streams@[k].name@ == x;
                        if w != i {
                            assert(pre[w].name@ == x);
                        }
                    }
                    if old(schema).has_stream(x) {
                        let w = choose|k: int| 0 <= k < pre.len() && pre[k].name@ == x;
                        if w != i {
                            assert(schema.streams@[w].name@ == x);
                        } else {
                            assert(schema.streams@[w].name@ == nm);
                        }
                    }
                    if x == nm {
                        assert(schema.streams@[i as int].name@ == x);
                    }
                }
                lemma_coherence_frame(*old(schema), *schema);
                let pm = model_of(*old(schema)).streams;
                let em = (entry.name@, entry.key@);
                assert(forall|j: int| 0 <= j < pm.len() ==> (#[trigger] pm[j]).0 == pre[j].name@);
                assert(pm[i as int].0 == entry.name@);
                lemma_model_upsert_stream_at(pm, em, i as int);
                assert(model_of(*schema).streams =~= pm.update(i as int, em));
            }
            return ;
        }
        i += 1;
    }
    let ghost nm = entry.name@;
    schema.streams.push(entry);
    proof {
        assert forall|a: int, b: int| 0 <= a < b < schema.streams@.len() implies
            schema.streams@[a].name@ != schema.streams@[b].name@ by {
            if b == pre.len() as int {
                assert(pre[a].name@ != nm);
            }
        }
        assert(schema.streams@[pre.len() as int].name@ == nm);
        assert forall|x: Seq<char>| #[trigger]
            schema.has_stream(x) == (old(schema).has_stream(x) || x == nm) by {
            if schema.has_stream(x) {
                let w = choose|k: int|
                    0 <= k < schema.streams@.len() && schema.streams@[k].name@ == x;
                if w < pre.len() {
                    assert(pre[w].name@ == x);
                }
            }
            if old(schema).has_stream(x) {
                let w = choose|k: int| 0 <= k < pre.len() && pre[k].name@ == x;
                assert(schema.streams@[w].name@ == x);
            }
        }
        lemma_coherence_frame(*old(schema), *schema);
        let pm = model_of(*old(schema)).streams;
        let em = (entry.name@, entry.key@);
        assert(forall|j: int| 0 <= j < pm.len() ==> (#[trigger] pm[j]).0 == pre[j].name@);
        lemma_model_upsert_stream_at(pm, em, pre.len() as int);
        assert(model_of(*schema).streams =~= pm.push(em));
    }
}

/// Replaces the entry of the same key, or appends.
fn upsert_event(schema: &mut Schema, entry: SchemaEvent)
    requires
        old(schema).wf(),
        old(schema).has_stream(entry.stream_name@),
    ensures
        final(schema).wf(),
        final(schema).streams == old(schema).streams,
        final(schema).attributes == old(schema).attributes,
        final(schema).has_event(entry.stream_name@, entry.name@),
        model_of(*final(schema)).events == model_upsert_event(
            model_of(*old(schema)).events,
            (entry.stream_name@, entry.name@),
        ),
        model_of(*final(schema)).streams == model_of(*old(schema)).streams,
        model_of(*final(schema)).attributes == model_of(*old(schema)).attributes,
{
    let ghost pre = schema.events@;
    let mut i: usize = 0;
    while i < schema.events.len()
        invariant
            i <= schema.events@.len(),
            old(schema).wf(),
            *schema == *old(schema),
            pre == old(schema).events@,
            forall|j: int|
                0 <= j < i ==> !(pre[j].stream_name@ == entry.stream_name@ && pre[j].name@
                    == entry.name@),
        decreases schema.events@.len() - i,
    {
        if schema.events[i].stream_name == entry.stream_name && schema.events[i].name
            == entry.name {
            let ghost key = (entry.stream_name@, entry.name@);
            schema.events.remove(i);
            schema.events.insert(i, entry);
            proof {
                assert(schema.events@ =~= pre.update(i as int, entry));
                assert forall|a: int, b: int| 0 <= a < b < schema.events@.len() implies !(
                schema.events@[a].stream_name@ == schema.events@[b].stream_name@
                    && schema.events@[a].name@ == schema.events@[b].name@) by {
                    if a != i as int && b != i as int {
                        assert(schema.events@[a] == pre[a] && schema.events@[b] == pre[b]);
                    } else if a == i as int {
                        assert(schema.events@[b] == pre[b]);
                        assert(!(pre[b].stream_name@ == pre[i as int].stream_name@
                            && pre[b].name@ == pre[i as int].name@));
                        assert(pre[i as int].stream_name@ == key.0 && pre[i as int].name@
                            == key.1);
                    } else {
                        assert(schema.events@[a] == pre[a]);
                        assert(!(pre[a].stream_name@ == pre[i as int].stream_name@
                            && pre[a].name@ == pre[i as int].name@));
                        assert(pre[i as int].stream_name@ == key.0 && pre[i as int].name@
                            == key.1);
                    }
                }
                assert(schema.events@[i as int].stream_name@ == key.0);
                assert(schema.events@[i as int].name@ == key.1);
                lemma_coherence_frame(*old(schema), *schema);
                let pm = model_of(*old(schema)).events;
                let em = (entry.stream_name@, entry.name@);
                assert(forall|j: int|
                    0 <= j < pm.len() ==> (#[trigger] pm[j]) == (pre[j].stream_name@,
                    pre[j].name@));
                assert(pm[i as int].0 == entry.stream_name@ && pm[i as int].1 == entry.name@);
                lemma_model_upsert_event_at(pm, em, i as int);
                assert(model_of(*schema).events =~= pm.update(i as int, em));
                assert(model_of(*schema).streams =~= model_of(*old(schema)).streams);
                assert(model_of(*schema).attributes =~= model_of(*old(schema)).attributes);
            }
            return ;
        }
        i += 1;
    }
    let ghost key = (entry.stream_name@, entry.name@);
    schema.events.push(entry);
    proof {
        assert forall|a: int, b: int| 0 <= a < b < schema.events@.len() implies !(
        schema.events@[a].stream_name@ == schema.events@[b].stream_name@ && schema.events@[a].name@
            == schema.events@[b].name@) by {
            if b == pre.len() as int {
                assert(!(pre[a].stream_name@ == key.0 && pre[a].name@ == key.1));
            }
        }
        assert(schema.events@[pre.len() as int].stream_name@ == key.0);
        assert(schema.events@[pre.len() as int].name@ == key.1);
        lemma_coherence_frame(*old(schema), *schema);
        let pm = model_of(*old(schema)).events;
        let em = (entry.stream_name@, entry.name@);
        assert(forall|j: int|
            0 <= j < pm.len() ==> (#[trigger] pm[j]) == (pre[j].stream_name@, pre[j].name@));
        lemma_model_upsert_event_at(pm, em, pre.len() as int);
        assert(model_of(*schema).events =~= pm.push(em));
        assert(model_of(*schema).streams =~= model_of(*old(schema)).streams);
        assert(model_of(*schema).attributes =~= model_of(*old(schema)).attributes);
    }
}

/// Replaces the entry of the same key, or appends.
fn upsert_attribute(schema: &mut Schema, entry: SchemaAttribute)
    requires
        old(schema).wf(),
        old(schema).has_event(entry.stream_name@, entry.event_name@),
    ensures
        final(schema).wf(),
        final(schema).streams == old(schema).streams,
        final(schema).events == old(schema).events,
        final(schema).has_attribute(entry.stream_name@, entry.event_name@, entry.name@),
        model_of(*final(schema)).attributes == model_upsert_attribute(
            model_of(*old(schema)).attributes,
            (entry.stream_name@, entry.event_name@, entry.name@, entry.required,
            entry.attribute_type@),
        ),
        model_of(*final(schema)).streams == model_of(*old(schema)).streams,
        model_of(*final(schema)).events == model_of(*old(schema)).events,
{
    let ghost pre = schema.attributes@;
    let mut i: usize = 0;
    while i < schema.attributes.len()
        invariant
            i <= schema.attributes@.len(),
            old(schema).wf(),
            *schema == *old(schema),
            pre == old(schema).attributes@,
            forall|j: int|
                0 <= j < i ==> !(pre[j].stream_name@ == entry.stream_name@ && pre[j].event_name@
                    == entry.event_name@ && pre[j].name@ == entry.name@),
        decreases schema.attributes@.len() - i,
    {
        if schema.attributes[i].stream_name == entry.stream_name && schema.attributes[i].event_name
            == entry.event_name && schema.attributes[i].name == entry.name {
            let ghost key = (entry.stream_name@, entry.event_name@, entry.name@);
            schema.attributes.remove(i);
            schema.attributes.insert(i, entry);
            proof {
                assert(schema.attributes@ =~= pre.update(i as int, entry));
                assert forall|a: int, b: int| 0 <= a < b < schema.attributes@.len() implies !(
                schema.attributes@[a].stream_name@ == schema.attributes@[b].stream_name@
                    && schema.attributes@[a].event_name@ == schema.attributes@[b].event_name@
                    && schema.attributes@[a].name@ == schema.attributes@[b].name@) by {
                    let p = pre[i as int];
                    assert(p.stream_name@ == key.0 && p.event_name@ == key.1 && p.name@ == key.2);
                    if a != i as int && b != i as int {
                        assert(schema.attributes@[a] == pre[a] && schema.attributes@[b] == pre[b]);
                    } else if a == i as int {
                        assert(schema.attributes@[b] == pre[b]);
                        assert(!(pre[b].stream_name@ == p.stream_name@ && pre[b].event_name@
                            == p.event_name@ && pre[b].name@ == p.name@));
                    } else {
                        assert(schema.attributes@[a] == pre[a]);
                        assert(!(pre[a].stream_name@ == p.stream_name@ && pre[a].event_name@
                            == p.event_name@ && pre[a].name@ == p.name@));
                    }
                }
                assert(schema.attributes@[i as int].stream_name@ == key.0);
                assert(schema.attributes@[i as int].event_name@ == key.1);
                assert(schema.attributes@[i as int].name@ == key.2);
                lemma_coherence_frame(*old(schema), *schema);
                let pm = model_of(*old(schema)).attributes;
                let em = (entry.stream_name@, entry.event_name@, entry.name@, entry.required,
                entry.attribute_type@);
                assert(forall|j: int|
                    0 <= j < pm.len() ==> (#[trigger] pm[j]) == (pre[j].stream_name@,
                    pre[j].event_name@, pre[j].name@, pre[j].required, pre[j].attribute_type@));
                assert(pm[i as int].0 == entry.stream_name@ && pm[i as int].1
                    == entry.event_name@ && pm[i as int].2 == entry.name@);
                lemma_model_upsert_attribute_at(pm, em, i as int);
                assert(model_of(*schema).attributes =~= pm.update(i as int, em));
                assert(model_of(*schema).streams =~= model_of(*old(schema)).streams);
                assert(model_of(*schema).events =~= model_of(*old(schema)).events);
            }
            return ;
        }
        i += 1;
    }
    let ghost key = (entry.stream_name@, entry.event_name@, entry.name@);
    schema.attributes.push(entry);
    proof {
        assert forall|a: int, b: int| 0 <= a < b < schema.attributes@.len() implies !(
        schema.attributes@[a].stream_name@ == schema.attributes@[b].stream_name@
            && schema.attributes@[a].event_name@ == schema.attributes@[b].event_name@
            && schema.attributes@[a].name@ == schema.attributes@[b].name@) by {
            if b == pre.len() as int {
                assert(!(pre[a].stream_name@ == key.0 && pre[a].event_name@ == key.1
                    && pre[a].name@ == key.2));
            }
        }
        assert(schema.attributes@[pre.len() as int].stream_name@ == key.0);
        assert(schema.attributes@[pre.len() as int].event_name@ == key.1);
        assert(schema.attributes@[pre.len() as int].name@ == key.2);
        lemma_coherence_frame(*old(schema), *schema);
        let pm = model_of(*old(schema)).attributes;
        let em = (entry.stream_name@, entry.event_name@, entry.name@, entry.required,
        entry.attribute_type@);
        assert(forall|j: int|
            0 <= j < pm.len() ==> (#[trigger] pm[j]) == (pre[j].stream_name@, pre[j].event_name@,
            pre[j].name@, pre[j].required, pre[j].attribute_type@));
        lemma_model_upsert_attribute_at(pm, em, pre.len() as int);
        assert(model_of(*schema).attributes =~= pm.push(em));
        assert(model_of(*schema).streams =~= model_of(*old(schema)).streams);
        assert(model_of(*schema).events =~= model_of(*old(schema)).events);
    }
}

/// Two trimmed, non-empty fields, exactly as `spec_stream_fields` (and
/// the identically-shaped `spec_event_fields`) read them, or `None`.
fn two_fields(values: &Vec<String>) -> (r: Option<(String, String)>)
    ensures
        r matches Some(p) ==> spec_stream_fields(values@.map_values(|f: String| f@)) matches Some(
            q,
        ) && p.0@ == q.0 && p.1@ == q.1,
        r is None <==> spec_stream_fields(values@.map_values(|f: String| f@)) is None,
{
    proof {
        let fs = values@.map_values(|f: String| f@);
        if values@.len() > 1 {
            assert(fs[0] == values@[0]@);
            assert(fs[1] == values@[1]@);
        }
    }
    if values.len() != 2 {
        return None;
    }
    let a = str_to_chars(values[0].as_str());
    let ta = trim_chars(&a);
    let b = str_to_chars(values[1].as_str());
    let tb = trim_chars(&b);
    if ta.len() == 0 || tb.len() == 0 {
        return None;
    }
    Some((chars_to_string(&ta), chars_to_string(&tb)))
}

/// Parses a whole schema text. The result is always a well-formed
/// catalog: unique keys in all three collections. The error mirrors the
/// failing block: a malformed block, an event naming an unknown stream,
/// or an attribute naming an unknown event.
pub fn parse(input: &str) -> (r: Result<Schema, SchemaParserError>)
    ensures
        r matches Ok(s) ==> s.wf() && (spec_parse_schema(input@) matches SchemaStep::Good(m)
            && model_of(s) == m),
        r matches Err(SchemaParserError::InvalidBlock(_)) <==> spec_parse_schema(input@)
            is BadBlock,
        r matches Err(SchemaParserError::CreateStreamError(_)) <==> spec_parse_schema(input@)
            is BadStream,
        r matches Err(SchemaParserError::CreateEventError(_)) <==> spec_parse_schema(input@)
            is BadEvent,
        r matches Err(SchemaParserError::CreateAttributeError(_)) <==> spec_parse_schema(input@)
            is BadAttribute,
{
    let chars = str_to_chars(input);
    let mut schema = Schema::new();
    let mut pos: usize = 0;
    proof {
        assert(chars@.skip(0) =~= chars@);
        assert(model_of(schema).streams =~= empty_model().streams);
        assert(model_of(schema).events =~= empty_model().events);
        assert(model_of(schema).attributes =~= empty_model().attributes);
    }
    while pos < chars.len()
        invariant
            pos <= chars@.len(),
            chars@ == input@,
            schema.wf(),
            spec_parse_schema(input@) == spec_fold_schema(
                chars@.skip(pos as int),
                model_of(schema),
            ),
        decreases chars@.len() - pos,
    {
        let ghost rest = chars@.skip(pos as int);
        let ghost model_before = model_of(schema);
        let mut e: usize = pos;
        while e < chars.len() && chars[e] != '\n'
            invariant
                pos <= e <= chars@.len(),
                forall|j: int| pos <= j < e ==> chars@[j] != '\n',
            decreases chars@.len() - e,
        {
            e += 1;
        }
        let line = subrange_chars(&chars, pos, e);
        proof {
            assert forall|j: int| 0 <= j < e - pos implies rest[j] != '\n' by {
                assert(rest[j] == chars@[pos + j]);
            }
            if e < chars@.len() {
                assert(rest[e - pos] == chars@[e as int]);
            }
            lemma_idx_of_at(rest, '\n', e - pos as int);
            assert(line@ =~= rest.take(e - pos as int));
        }
        let t = trim_chars(&line);
        proof {
            lemma_idx_of(t@, ';');
        }
        let block_raw = before_char(&t, ';');
        let block = squeeze(&block_raw);
        proof {
            assert(block@ == line_block(line@));
            if e < chars@.len() {
                assert(rest.skip(e - pos + 1) =~= chars@.skip(e + 1));
            } else {
                assert(chars@.skip(chars@.len() as int) =~= Seq::<char>::empty());
            }
        }
        let is_comment = crate::text::opens_comment_exact(&block);
        if block.len() > 0 && !is_comment {
            let block_str = chars_to_string(&block);
            proof {
                reveal_strlit("stream");
                reveal_strlit("event");
                reveal_strlit("attribute");
                assert("stream"@.len() == 6 && "event"@.len() == 5 && "attribute"@.len() == 9);
                assert("stream"@ != "event"@ && "stream"@ != "attribute"@ && "event"@
                    != "attribute"@);
            }
            let kind = match crate::operation::create::extract_block_type(block_str.as_str()) {
                Ok(k) => k,
                Err(_) => {
                    proof {
                        assert(apply_block(model_before, block@) is BadBlock);
                    }
                    return Err(
                        SchemaParserError::InvalidBlock("unable to extract type".to_owned()),
                    );
                },
            };
            let values = match crate::operation::create::extract_fields(block_str.as_str()) {
                Ok(v) => v,
                Err(_) => {
                    proof {
                        assert(apply_block(model_before, block@) is BadBlock);
                    }
                    return Err(
                        SchemaParserError::InvalidBlock("unable to extract fields".to_owned()),
                    );
                },
            };
            proof {
                assert(values@.map_values(|f: String| f@) =~= spec_fields(block@).unwrap());
            }
            let kind_chars = str_to_chars(kind.as_str());
            if chars_eq_str(&kind_chars, "stream") {
                let (name, key) = match two_fields(&values) {
                    Some(p) => p,
                    None => {
                        proof {
                            assert(apply_block(model_before, block@) is BadStream);
                        }
                        return Err(
                            SchemaParserError::CreateStreamError(
                                "unable to create stream".to_owned(),
                            ),
                        );
                    },
                };
                upsert_stream(&mut schema, Stream { name: StreamName::new(name), key });
                proof {
                    assert(apply_block(model_before, block@) == SchemaStep::Good(
                        model_of(schema),
                    )) by {
                        let p = spec_stream_fields(spec_fields(block@).unwrap()).unwrap();
                        assert(model_of(schema).streams == model_upsert_stream(
                            model_before.streams,
                            p,
                        ));
                        assert(model_of(schema).events =~= model_before.events);
                        assert(model_of(schema).attributes =~= model_before.attributes);
                    }
                }
            } else if chars_eq_str(&kind_chars, "event") {
                let (stream_name, name) = match two_fields(&values) {
                    Some(p) => p,
                    None => {
                        proof {
                            assert(spec_event_fields(spec_fields(block@).unwrap())
                                == spec_stream_fields(spec_fields(block@).unwrap()));
                            assert(apply_block(model_before, block@) is BadEvent);
                        }
                        return Err(
                            SchemaParserError::CreateEventError(
                                "unable to create event".to_owned(),
                            ),
                        );
                    },
                };
                let entry = SchemaEvent {
                    name: EventName::new(name),
                    stream_name: StreamName::new(stream_name),
                };
                proof {
                    assert(spec_event_fields(spec_fields(block@).unwrap()) == spec_stream_fields(
                        spec_fields(block@).unwrap(),
                    ));
                    let p = spec_event_fields(spec_fields(block@).unwrap()).unwrap();
                    assert(entry.stream_name@ == p.0 && entry.name@ == p.1);
                    assert forall|x: Seq<char>| #[trigger]
                        schema.has_stream(x) == model_has_stream(model_before, x) by {
                        if schema.has_stream(x) {
                            let w = choose|k: int|
                                0 <= k < schema.streams@.len() && schema.streams@[k].name@ == x;
                            assert(model_before.streams[w].0 == x);
                        }
                        if model_has_stream(model_before, x) {
                            let w = choose|k: int|
                                0 <= k < model_before.streams.len()
                                    && (#[trigger] model_before.streams[k]).0 == x;
                            assert(schema.streams@[w].name@ == x);
                        }
                    }
                }
                if !schema.stream_exists(&entry.stream_name) {
                    proof {
                        assert(apply_block(model_before, block@) is BadEvent);
                    }
                    return Err(
                        SchemaParserError::CreateEventError("stream does not exist".to_owned()),
                    );
                }
                upsert_event(&mut schema, entry);
                proof {
                    assert(apply_block(model_before, block@) == SchemaStep::Good(
                        model_of(schema),
                    )) by {
                        let p = spec_event_fields(spec_fields(block@).unwrap()).unwrap();
                        assert(model_of(schema).events == model_upsert_event(
                            model_before.events,
                            p,
                        ));
                    }
                }
            } else if chars_eq_str(&kind_chars, "attribute") {
                let entry = match create_attribute(&values) {
                    Ok(a) => a,
                    Err(_) => {
                        proof {
                            assert(apply_block(model_before, block@) is BadAttribute);
                        }
                        return Err(
                            SchemaParserError::CreateAttributeError(
                                "unable to create attribute".to_owned(),
                            ),
                        );
                    },
                };
                proof {
                    let p = spec_attribute_fields(spec_fields(block@).unwrap()).unwrap();
                    assert(entry.stream_name@ == p.0 && entry.event_name@ == p.1 && entry.name@
                        == p.2 && entry.required == p.3 && entry.attribute_type@ == p.4);
                    assert forall|x: Seq<char>, y: Seq<char>| #[trigger]
                        schema.has_event(x, y) == model_has_event(model_before, x, y) by {
                        if schema.has_event(x, y) {
                            let w = choose|k: int|
                                0 <= k < schema.events@.len() && schema.events@[k].stream_name@
                                    == x && schema.events@[k].name@ == y;
                            assert(model_before.events[w].0 == x && model_before.events[w].1 == y);
                        }
                        if model_has_event(model_before, x, y) {
                            let w = choose|k: int|
                                0 <= k < model_before.events.len()
                                    && (#[trigger] model_before.events[k]).0 == x
                                    && model_before.events[k].1 == y;
                            assert(schema.events@[w].stream_name@ == x && schema.events@[w].name@
                                == y);
                        }
                    }
                }
                if !schema.event_exists(&entry.stream_name, &entry.event_name) {
                    proof {
                        assert(apply_block(model_before, block@) is BadAttribute);
                    }
                    return Err(
                        SchemaParserError::CreateAttributeError(
                            "stream and event do not exist".to_owned(),
                        ),
                    );
                }
                upsert_attribute(&mut schema, entry);
                proof {
                    assert(apply_block(model_before, block@) == SchemaStep::Good(
                        model_of(schema),
                    )) by {
                        let p = spec_attribute_fields(spec_fields(block@).unwrap()).unwrap();
                        assert(model_of(schema).attributes == model_upsert_attribute(
                            model_before.attributes,
                            p,
                        ));
                    }
                }
            } else {
                proof {
                    assert(apply_block(model_before, block@) == SchemaStep::Good(model_before));
                }
            }
        }
        if e < chars.len() {
            pos = e + 1;
        } else {
            pos = e;
        }
    }
    proof {
        assert(chars@.skip(pos as int) =~= Seq::<char>::empty());
    }
    Ok(schema)
}

/// The characters with all whitespace removed.
fn squeeze(v: &Vec<char>) -> (r: Vec<char>)
    ensures
        r@ == filter_seq(v@, |c: char| !is_ws(c)),
{
    let mut r: Vec<char> = Vec::new();
    let mut i: usize = 0;
    proof {
        assert(v@.take(0) =~= Seq::<char>::empty());
    }
    while i < v.len()
        invariant
            i <= v@.len(),
            r@ == filter_seq(v@.take(i as int), |c: char| !is_ws(c)),
        decreases v@.len() - i,
    {
        if !crate::text::char_is_ws(v[i]) {
            r.push(v[i]);
        }
        proof {
            assert(v@.take(i + 1).drop_last() =~= v@.take(i as int));
            assert(v@.take(i + 1).last() == v@[i as int]);
        }
        i += 1;
    }
    proof {
        assert(v@.take(v@.len() as int) =~= v@);
    }
    r
}

} // verus!
