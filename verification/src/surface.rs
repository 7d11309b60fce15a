//! The shell command surface: the outcomes of the play-trigger and
//! video-path operations, computed from what came back over the wire. Each
//! returns a value or a descriptive failure text, never a structured error
//! code, and none of them can panic — with no child process running they
//! degrade to an absent value or a failure text.

use vstd::prelude::*;
use crate::poller::is_success_status;
use crate::text::{spec_digits, push_digits, str_chars};
use crate::wire::{sparse, parse_message};

verus! {

/// The failure text for a play trigger answered with a non-success status.
pub open spec fn play_status_failure(status: u16) -> Seq<char> {
    "play trigger failed with HTTP status "@ + spec_digits(status as nat)
}

/// The failure text for a play trigger that could not reach the child
/// process, around the transport's own description.
pub open spec fn play_transport_failure(detail: Seq<char>) -> Seq<char> {
    "play trigger could not reach the media server: "@ + detail
}

/// The outcome of the fire-and-forget play trigger, given the status that
/// came back or the transport failure's description. Success exactly on a
/// success status; anything else is a descriptive failure text.
pub fn play_trigger_outcome(response: Result<u16, Vec<char>>) -> (r: Result<(), Vec<char>>)
    ensures
        r is Ok <==> (response matches Ok(s) && is_success_status(s)),
        match response {
            Ok(s) => !is_success_status(s) ==> (r matches Err(m) && m@ == play_status_failure(
                s,
            )),
            Err(d) => r matches Err(m) && m@ == play_transport_failure(d@),
        },
{
    match response {
        Ok(status) => {
            if 200 <= status && status < 300 {
                Ok(())
            } else {
                let mut m = str_chars("play trigger failed with HTTP status ");
                push_digits(&mut m, status as u64);
                Err(m)
            }
        },
        Err(detail) => {
            let mut m = str_chars("play trigger could not reach the media server: ");
            let mut k: usize = 0;
            assert(m@ =~= "play trigger could not reach the media server: "@ + detail@.subrange(
                0,
                0,
            ));
            while k < detail.len()
                invariant
                    k <= detail@.len(),
                    m@ == "play trigger could not reach the media server: "@ + detail@.subrange(
                        0,
                        k as int,
                    ),
                decreases detail@.len() - k,
            {
                m.push(detail[k]);
                k += 1;
                assert(m@ =~= "play trigger could not reach the media server: "@
                    + detail@.subrange(0, k as int));
            }
            proof {
                assert(detail@.subrange(0, detail@.len() as int) =~= detail@);
            }
            Err(m)
        },
    }
}

/// An optional character sequence as its mathematical value.
pub open spec fn opt_chars_view(r: Option<Vec<char>>) -> Option<Seq<char>> {
    match r {
        Some(v) => Some(v@),
        None => None,
    }
}

/// The path carried by a video-path response body, if any.
pub open spec fn video_path_spec(s: Seq<char>) -> Option<Seq<char>> {
    match sparse(s) {
        Some(f) => f.path,
        None => None,
    }
}

/// The outcome of the video-path query, given the status and body that came
/// back, or nothing when the transport failed. The path is absent — and no
/// error is raised — when the transport failed, the status reports no
/// success, the body is malformed, or the body holds no path.
pub fn video_path_outcome(response: Option<(u16, &str)>) -> (r: Option<Vec<char>>)
    ensures
        match response {
            None => r is None,
            Some(p) => if is_success_status(p.0) {
                opt_chars_view(r) == video_path_spec(p.1@)
            } else {
                r is None
            },
        },
{
    match response {
        None => None,
        Some((status, body)) => {
            if 200 <= status && status < 300 {
                match parse_message(body) {
                    Some(f) => f.path,
                    None => None,
                }
            } else {
                None
            }
        },
    }
}

} // verus!
