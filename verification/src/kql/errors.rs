//! Errors of the query parser and how they are shown to users.

use vstd::prelude::*;

use super::arithmetic::QueryLocation;
use crate::text;

verus! {

/// Why a query could not be parsed.
#[derive(Debug)]
pub enum ParserError {
    /// A name is not known.
    KeyNotFound { location: QueryLocation, key: String },
    /// A message in the terms of the query language.
    QueryLanguageDiagnostic {
        location: QueryLocation,
        diagnostic_id: &'static str,
        message: String,
    },
    /// A limit on the work of the parser was reached.
    BudgetExceeded(String),
}

/// The message for a name that is not known.
pub open spec fn unknown_name_message(key: Seq<char>) -> Seq<char> {
    "The name '"@ + key + "' does not refer to any known column, table, variable or function"@
}

/// Turns an unknown name into the diagnostic of the query language; other errors stay.
pub fn map_kql_errors(error: ParserError) -> (r: ParserError)
    ensures
        match error {
            ParserError::KeyNotFound { location, key } => match r {
                ParserError::QueryLanguageDiagnostic { location: at, diagnostic_id, message } => {
                    &&& at == location
                    &&& diagnostic_id@ == "KS142"@
                    &&& message@ == unknown_name_message(key@)
                },
                _ => false,
            },
            e => r == e,
        },
{
    match error {
        ParserError::KeyNotFound { location, key } => ParserError::QueryLanguageDiagnostic {
            location,
            diagnostic_id: "KS142",
            message: text::joined3(
                "The name '",
                key.as_str(),
                "' does not refer to any known column, table, variable or function",
            ),
        },
        e => e,
    }
}

} // verus!
