//! The lines that a program reports about what the store answered.

use vstd::prelude::*;
use crate::db::crud::{DatabaseError, DatabaseResult};

verus! {

/// The line for an answer of the store.
pub open spec fn verdict(result: Result<DatabaseResult, DatabaseError>) -> Seq<char> {
    match result {
        Ok(_) => "success"@,
        Err(e) => e.text(),
    }
}

/// The line to report for `result`: `success`, or what went wrong.
pub fn watch(result: &Result<DatabaseResult, DatabaseError>) -> (line: String)
    ensures
        line@ == verdict(*result),
{
    match result {
        Ok(_) => "success".to_string(),
        Err(e) => e.to_string(),
    }
}

} // verus!
