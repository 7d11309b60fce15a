//! Playback position formatting: a position in whole milliseconds is shown
//! as `minutes:seconds.milliseconds`, the seconds on two digits and the
//! milliseconds on three — purely for observability, never for control
//! decisions.

use vstd::prelude::*;
use crate::text::{spec_digits, spec_pad2, spec_pad3, push_digits, push_pad2, push_pad3};

verus! {

/// Whole minutes of a position.
pub fn position_minutes(millis: u64) -> (r: u64)
    ensures
        r == millis / 60000,
{
    millis / 60000
}

/// Whole seconds of a position, the minutes taken out.
pub fn position_whole_seconds(millis: u64) -> (r: u64)
    ensures
        r == (millis % 60000) / 1000,
{
    (millis % 60000) / 1000
}

/// Milliseconds of a position below the whole second.
pub fn position_frac_millis(millis: u64) -> (r: u64)
    ensures
        r == millis % 1000,
{
    millis % 1000
}

/// The rendering of a position: minutes, a colon, two-digit seconds, a
/// point, three-digit milliseconds.
pub open spec fn spec_format_position(millis: u64) -> Seq<char> {
    spec_digits((millis / 60000) as nat) + seq![':'] + spec_pad2(((millis % 60000) / 1000) as nat)
        + seq!['.'] + spec_pad3((millis % 1000) as nat)
}

/// Renders a position held in whole milliseconds.
pub fn format_position(millis: u64) -> (r: Vec<char>)
    ensures
        r@ == spec_format_position(millis),
{
    let mut out: Vec<char> = Vec::new();
    push_digits(&mut out, millis / 60000);
    out.push(':');
    push_pad2(&mut out, (millis % 60000) / 1000);
    out.push('.');
    push_pad3(&mut out, millis % 1000);
    proof {
        assert(out@ =~= spec_format_position(millis));
    }
    out
}

} // verus!
