//! Mutation: parse every `ADD` line of an input and append each mutation
//! in order, validating each against the catalog first.

use vstd::prelude::*;
use crate::ast::Value;
use crate::db::DB;
use crate::event::{Attribute, Event};
use crate::mutation_parser;
use crate::mutation_parser::{mutation_view, spec_parse_mutation};
use crate::mutation::AddEventMutation;
use crate::schema::Schema;

verus! {

/// Whether the catalog can take one parsed mutation: its stream, its
/// event, and every named attribute exist.
pub open spec fn mutation_ok(
    schema: Schema,
    t: (Seq<char>, Seq<char>, Seq<char>, Seq<(Seq<char>, Seq<char>)>),
) -> bool {
    &&& schema.has_stream(t.1)
    &&& schema.has_event(t.1, t.0)
    &&& forall|j: int| 0 <= j < t.3.len() ==> schema.has_attribute(t.1, t.0, (#[trigger] t.3[j]).0)
}

/// Parses the mutations and appends them one after the other: each is
/// first held against the catalog by `is_mutation_possible`, then
/// appended with the next serial version for its `(stream, key)` log, the
/// values as strings. The catalog is never touched. A parse failure or a
/// failing mutation stops the run and reports; mutations already applied
/// stay applied (there is no rollback). When every mutation passes the
/// catalog check, only a failed clock reading or a log grown past the
/// version range can still refuse, each with its own message.
pub fn mutate(input: &str, db: &mut DB) -> (r: Result<(), String>)
    requires
        old(db).wf(),
    ensures
        final(db).wf(),
        final(db).schema == old(db).schema,
        spec_parse_mutation(input@) is None ==> (r matches Err(m) && m@
            == "failed to parse mutation"@) && *final(db) == *old(db),
        spec_parse_mutation(input@) matches Some(ts) && (forall|k: int|
            0 <= k < ts.len() ==> mutation_ok(old(db).schema, #[trigger] ts[k])) ==> (r is Ok || (
        r matches Err(m) && (m@ == "unable to create timestamp"@ || m@ == "log is full"@))),
{
    let mutations = match mutation_parser::parse_mutation(input) {
        Ok(ms) => ms,
        Err(_) => {
            return Err("failed to parse mutation".to_owned());
        },
    };
    let mut i: usize = 0;
    while i < mutations.len()
        invariant
            i <= mutations@.len(),
            db.wf(),
            db.schema == old(db).schema,
            spec_parse_mutation(input@) == Some(
                mutations@.map_values(|m2: AddEventMutation| mutation_view(m2)),
            ),
        decreases mutations@.len() - i,
    {
        let m = &mutations[i];
        match db.schema.is_mutation_possible(m) {
            Ok(_) => {},
            Err(e) => {
                proof {
                    let ts = spec_parse_mutation(input@).unwrap();
                    let t = ts[i as int];
                    assert(t == mutation_view(mutations@[i as int]));
                    if db.schema.has_stream(m.stream@) && db.schema.has_event(
                        m.stream@,
                        m.event@,
                    ) {
                        let j = choose|j: int|
                            0 <= j < m.attributes@.len() && !db.schema.has_attribute(
                                m.stream@,
                                m.event@,
                                m.attributes@[j].name@,
                            );
                        assert(t.3[j].0 == m.attributes@[j].name@);
                        assert(!old(db).schema.has_attribute(t.1, t.0, t.3[j].0));
                    }
                    assert(!mutation_ok(old(db).schema, t));
                }
                return Err(e);
            },
        }
        let len: u64 = match db.get_events(m.stream.clone(), m.key.clone()) {
            Ok(Some(events)) => events.len() as u64,
            Ok(None) => 0,
            Err(e) => {
                return Err(e.message());
            },
        };
        if len == u64::MAX {
            return Err("log is full".to_owned());
        }
        let timestamp = match crate::db::read_clock() {
            Some(t) => t,
            None => {
                return Err("unable to create timestamp".to_owned());
            },
        };
        let mut attributes: Vec<Attribute> = Vec::new();
        let mut j: usize = 0;
        while j < m.attributes.len()
            invariant
                j <= m.attributes@.len(),
            decreases m.attributes@.len() - j,
        {
            attributes.push(
                Attribute {
                    name: m.attributes[j].name.clone(),
                    value: Value::String(m.attributes[j].value.clone()),
                },
            );
            j += 1;
        }
        let record = Event::new(
            m.stream.clone(),
            m.key.clone(),
            m.event.clone(),
            len + 1,
            timestamp,
            attributes,
        );
        match db.add_event(record) {
            Ok(_) => {},
            Err(e) => {
                return Err(e.message());
            },
        }
        i += 1;
    }
    Ok(())
}

} // verus!
