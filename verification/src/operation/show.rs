//! The `show` operation of the string-command surface: only the schema
//! can be shown, and the answer is the engine's catalog rendering.

use vstd::prelude::*;
use crate::db::{schema_text, DB};
use crate::text::{chars_eq_str, lower_chars, str_to_chars, to_lower, trim, trim_chars};
use super::general::Operation;

verus! {

#[derive(Debug)]
pub enum ShowError {
    ShowError(String),
}

impl ShowError {
    /// The text of the error.
    pub fn message(&self) -> &str {
        match self {
            ShowError::ShowError(m) => m.as_str(),
        }
    }
}

/// Succeeds exactly when the body names the schema (case-insensitively,
/// after trimming), and then answers exactly the catalog rendering.
pub fn show(op: Operation, db: &DB) -> (r: Result<String, ShowError>)
    ensures
        r is Ok <==> to_lower(trim(op.body@)) == "schema"@,
        r matches Ok(t) ==> t@ == schema_text(db.schema),
{
    let chars = str_to_chars(op.body.as_str());
    let t = trim_chars(&chars);
    let lowered = lower_chars(&t);
    if !chars_eq_str(&lowered, "schema") {
        return Err(ShowError::ShowError("entity does not exist".to_owned()));
    }
    Ok(db.render_schema())
}

} // verus!
