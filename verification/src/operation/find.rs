//! The `find` operation of the string-command surface. Query execution is
//! a declared non-goal at this revision: a query is rejected with the
//! unsupported-operation error, exactly as the engine rejects a `Query`
//! operation, and nothing is touched.

use vstd::prelude::*;
use crate::db::DB;
use super::general::Operation;

verus! {

#[derive(Debug)]
pub struct FindError {
    message: String,
}

impl View for FindError {
    type V = Seq<char>;

    closed spec fn view(&self) -> Seq<char> {
        self.message@
    }
}

impl FindError {
    pub fn new(message: &str) -> (r: Self)
        ensures
            r@ == message@,
    {
        FindError { message: message.to_owned() }
    }

    /// The text of the error.
    pub fn message(&self) -> (r: &str)
        ensures
            r@ == self@,
    {
        self.message.as_str()
    }
}

/// Always refuses with the unsupported-operation error; the engine is
/// borrowed immutably and so provably untouched.
pub fn find(op: Operation, db: &DB) -> (r: Result<String, FindError>)
    ensures
        r matches Err(e) && e@ == "unsupported operation"@,
{
    let _ = op;
    let _ = db;
    Err(FindError::new("unsupported operation"))
}

} // verus!
