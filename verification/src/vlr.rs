//! Variable length records.

use vstd::prelude::*;

verus! {

/// What a variable length record holds.
pub struct VlrData {
    /// Who defined the record.
    pub user_id: String,
    /// Which of that user's records it is.
    pub record_id: u16,
    /// The payload.
    pub data: Vec<u8>,
}

} // verus!
