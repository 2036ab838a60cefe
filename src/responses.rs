//! The API's usual reply: a status, a message and optional data.
use vstd::prelude::*;

verus! {

/// The HTTP status of a successful reply.
pub const STATUS_OK: u16 = 200;

/// A reply of the API: status, message about the operation, and the data asked for, if any.
pub struct BasicResponse<T> {
    /// HTTP status code.
    pub status: u16,
    /// What was done.
    pub message: String,
    /// The data asked for, if any.
    pub data: Option<T>,
}

impl<T> BasicResponse<T> {
    /// A successful reply with `message` and `data`.
    pub fn new(message: String, data: Option<T>) -> (r: BasicResponse<T>)
        ensures
            r.status == STATUS_OK,
            r.message@ == message@,
            r.data == data,
    {
        BasicResponse { status: STATUS_OK, message, data }
    }
}

} // verus!
