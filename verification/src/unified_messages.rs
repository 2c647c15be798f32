//! The decisions a unified-messages call takes while it waits on Steam: what
//! each report of the client means, and when to stop asking.

use vstd::prelude::*;

verus! {

/// `k_EResultOK`.
pub const RESULT_OK: i32 = 1;
/// The handle Steam gives back for a call it did not accept.
pub const INVALID_UNIFIED_MESSAGE_HANDLE: u64 = 0;
/// The largest answer body read.
pub const MAX_RESPONSE_BYTES: u32 = 16 * 1024 * 1024;
/// No call waits longer than this for its answer.
pub const RESPONSE_TIMEOUT_SECS: u64 = 15;
/// How long to sleep between two questions to the client.
pub const POLL_INTERVAL_MILLIS: u64 = 25;

/// Why a call gave no body back.
#[derive(Debug, Clone, Copy, PartialEq, Eq, Structural)]
pub enum CallFailure {
    /// The client's interface has no function table.
    NullVtable,
    /// The method name cannot be handed to the client (it holds a NUL).
    InvalidMethodName,
    /// Steam answered with this `EResult`.
    ResultFailed(i32),
    /// Steam did not accept the call.
    NotAccepted,
    /// The answer announced this many bytes, more than are read.
    TooLarge(u32),
    /// The announced body could not be read.
    NothingRead,
    /// No answer came before the deadline.
    TimedOut,
}

/// What to do after asking the client whether the answer has come.
#[derive(Debug, Clone, Copy, PartialEq, Eq, Structural)]
pub enum ResponseStep {
    /// Stop: the call failed.
    Fail(CallFailure),
    /// Stop: the answer is an empty body.
    Empty,
    /// Read a body of this many bytes.
    Read(u32),
    /// Sleep a poll interval and ask again.
    Wait,
}

/// The step for a report: `info` is the answer's size and `EResult` where the
/// client had one, and `past_deadline` whether the deadline has passed.
pub open spec fn response_step_of(info: Option<(u32, i32)>, past_deadline: bool) -> ResponseStep {
    match info {
        Some((size, result)) => if result != RESULT_OK {
            ResponseStep::Fail(CallFailure::ResultFailed(result))
        } else if size == 0 {
            ResponseStep::Empty
        } else if size > MAX_RESPONSE_BYTES {
            ResponseStep::Fail(CallFailure::TooLarge(size))
        } else {
            ResponseStep::Read(size)
        },
        None => if past_deadline {
            ResponseStep::Fail(CallFailure::TimedOut)
        } else {
            ResponseStep::Wait
        },
    }
}

/// Decides what a report of the client means.
pub fn response_step(info: Option<(u32, i32)>, past_deadline: bool) -> (step: ResponseStep)
    ensures
        step == response_step_of(info, past_deadline),
{
    match info {
        Some((size, result)) => {
            if result != RESULT_OK {
                ResponseStep::Fail(CallFailure::ResultFailed(result))
            } else if size == 0 {
                ResponseStep::Empty
            } else if size > MAX_RESPONSE_BYTES {
                ResponseStep::Fail(CallFailure::TooLarge(size))
            } else {
                ResponseStep::Read(size)
            }
        },
        None => {
            if past_deadline {
                ResponseStep::Fail(CallFailure::TimedOut)
            } else {
                ResponseStep::Wait
            }
        },
    }
}

/// The handle of a sent call, or the failure where Steam did not accept it.
pub fn sent_handle(handle: u64) -> (r: Result<u64, CallFailure>)
    ensures
        handle == INVALID_UNIFIED_MESSAGE_HANDLE ==> r == Err::<u64, CallFailure>(CallFailure::NotAccepted),
        handle != INVALID_UNIFIED_MESSAGE_HANDLE ==> r == Ok::<u64, CallFailure>(handle),
{
    if handle == INVALID_UNIFIED_MESSAGE_HANDLE {
        Err(CallFailure::NotAccepted)
    } else {
        Ok(handle)
    }
}

/// The body read for an announced answer, or the failure where the client
/// could not hand it over.
pub fn read_body(read: bool, body: Vec<u8>) -> (r: Result<Vec<u8>, CallFailure>)
    ensures
        read ==> r is Ok && r.unwrap()@ == body@,
        !read ==> r == Err::<Vec<u8>, CallFailure>(CallFailure::NothingRead),
{
    if read {
        Ok(body)
    } else {
        Err(CallFailure::NothingRead)
    }
}

/// A body is read only where the client announced one of a size the library
/// reads, and never without its `EResult` being OK.
pub proof fn only_announced_bodies_are_read(info: Option<(u32, i32)>, past_deadline: bool)
    ensures
        response_step_of(info, past_deadline) matches ResponseStep::Read(n) ==> {
            &&& info == Some((n, RESULT_OK))
            &&& 0 < n <= MAX_RESPONSE_BYTES
        },
{
}

/// Once the client reports, the call stops waiting; without a report it waits
/// only until the deadline.
pub proof fn waiting_ends(info: Option<(u32, i32)>, past_deadline: bool)
    ensures
        (response_step_of(info, past_deadline) == ResponseStep::Wait) <==> (info is None && !past_deadline),
{
}

} // verus!
