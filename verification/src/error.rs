//! What can go wrong in the storage core.

use vstd::prelude::*;

verus! {

/// Bytes read back from a log or a segment do not form a record.
#[derive(Debug, Clone, Copy, PartialEq, Eq, Structural)]
pub struct MalformedRecord;

impl MalformedRecord {
    /// The text under which the error is reported.
    pub fn message(&self) -> (text: String)
        ensures
            text@ == "malformed record"@,
    {
        "malformed record".to_owned()
    }
}

} // verus!
