//! The command poller. On a fixed interval the supervisor asks the child
//! process's command endpoint for a pending control command; one tick's
//! outcome is decoded here. A transport failure, a non-success status or a
//! malformed body yields "no command" for that tick — never an error.

use vstd::prelude::*;
use crate::command::{decode_command_spec, decode_command, ControlCommand};

verus! {

/// Milliseconds between two polls of the command endpoint.
pub const POLL_INTERVAL_MILLIS: u64 = 100;

/// Whether an HTTP status reports success.
pub open spec fn is_success_status(status: u16) -> bool {
    200 <= status < 300
}

/// Decodes one tick's response from the command endpoint, given as the
/// status and body of the response, or nothing when the transport failed.
/// Yields the pending command, or nothing — never an error — when the
/// transport failed, the status reports no success, or the body is
/// malformed.
pub fn poll_once(response: Option<(u16, &str)>) -> (r: Option<ControlCommand>)
    ensures
        match response {
            None => r is None,
            Some(p) => if is_success_status(p.0) {
                r == decode_command_spec(p.1@)
            } else {
                r is None
            },
        },
{
    match response {
        None => None,
        Some((status, body)) => {
            if 200 <= status && status < 300 {
                decode_command(body)
            } else {
                None
            }
        },
    }
}

} // verus!
