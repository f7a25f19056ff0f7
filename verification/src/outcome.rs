//! The value every kernel returns: a buffer on success, a message on failure.

use vstd::prelude::*;

verus! {

/// Outcome of one kernel call.
///
/// On success `data` holds the output buffer and `error` is empty; on failure
/// `error` holds the message and `data` is empty.
pub struct ProcessResult {
    success: bool,
    error: String,
    data: Vec<u8>,
}

impl ProcessResult {
    /// Whether the call succeeded.
    pub closed spec fn succeeded(&self) -> bool {
        self.success
    }

    /// The failure message, as a sequence of characters.
    pub closed spec fn message(&self) -> Seq<char> {
        self.error@
    }

    /// The output buffer, as a sequence of samples.
    pub closed spec fn bytes(&self) -> Seq<u8> {
        self.data@
    }

    /// At most one of the message and the buffer is populated, the one that
    /// the success flag selects.
    pub open spec fn well_formed(&self) -> bool {
        &&& self.succeeded() ==> self.message().len() == 0
        &&& !self.succeeded() ==> self.bytes().len() == 0
    }

    /// A successful outcome that owns `data`.
    pub fn ok(data: Vec<u8>) -> (r: ProcessResult)
        ensures
            r.succeeded(),
            r.bytes() == data@,
            r.message() == Seq::<char>::empty(),
            r.well_formed(),
    {
        ProcessResult { success: true, error: String::new(), data }
    }

    /// A failed outcome that carries `message` and no data.
    pub fn fail(message: String) -> (r: ProcessResult)
        ensures
            !r.succeeded(),
            r.message() == message@,
            r.bytes() == Seq::<u8>::empty(),
            r.well_formed(),
    {
        ProcessResult { success: false, error: message, data: Vec::new() }
    }

    /// The success flag.
    pub fn success(&self) -> (r: bool)
        ensures
            r == self.succeeded(),
    {
        self.success
    }

    /// A copy of the failure message; empty on success.
    pub fn error(&self) -> (r: String)
        ensures
            r@ == self.message(),
    {
        self.error.clone()
    }

    /// A copy of the output buffer; empty on failure.
    pub fn data(&self) -> (r: Vec<u8>)
        ensures
            r@ == self.bytes(),
    {
        self.data.clone()
    }
}

} // verus!
