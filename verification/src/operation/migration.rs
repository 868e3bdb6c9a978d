//! Migration: parse a whole schema text and replace the engine's catalog
//! with it. The logs are kept.

use vstd::prelude::*;
use crate::db::DB;
use crate::parser::schema;
use crate::parser::schema::{model_of, spec_parse_schema, SchemaStep};

verus! {

/// Parses the schema text and installs it: exactly when the text folds
/// to a catalog, that catalog replaces the old one entirely; the logs
/// are untouched either way, and a rejected text changes nothing.
pub fn migrate(input: &str, db: &mut DB) -> (r: Result<(), String>)
    requires
        old(db).wf(),
    ensures
        final(db).wf(),
        final(db).streams == old(db).streams,
        r is Err ==> *final(db) == *old(db),
        r is Ok <==> spec_parse_schema(input@) is Good,
        r is Ok ==> (spec_parse_schema(input@) matches SchemaStep::Good(m) && model_of(
            final(db).schema,
        ) == m),
{
    let parsed = match schema::parse(input) {
        Ok(s) => s,
        Err(e) => {
            let mut m = "failed to parse schema: ".to_owned();
            m.append(e.message());
            return Err(m);
        },
    };
    match db.migrate(parsed) {
        Ok(_) => Ok(()),
        Err(e) => Err(e.message()),
    }
}

} // verus!
