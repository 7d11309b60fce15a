//! Typed playback commands, decoded from the two relay paths: the polled
//! command endpoint (`{"action": ..., "time": ...}`) and the event
//! subscription channel (`{"type": ..., "position": ...}`).

use vstd::prelude::*;
use crate::wire::{sparse, parse_message, FieldsV};
use crate::text::chars_eq;

verus! {

/// What a control command asks the shell to do.
#[derive(Clone, Copy, Debug, PartialEq, Eq, Structural)]
pub enum Action {
    Play,
    Pause,
    Seek,
}

/// A playback control command. The time is the playback position in whole
/// milliseconds: required for `Seek`, optional for `Play` (the server-side
/// playback head), never present for `Pause`.
#[derive(Clone, Copy, Debug, PartialEq, Eq, Structural)]
pub struct ControlCommand {
    pub action: Action,
    pub time_millis: Option<u64>,
}

pub open spec fn word_play() -> Seq<char> {
    seq!['p', 'l', 'a', 'y']
}

pub open spec fn word_pause() -> Seq<char> {
    seq!['p', 'a', 'u', 's', 'e']
}

pub open spec fn word_seek() -> Seq<char> {
    seq!['s', 'e', 'e', 'k']
}

/// The command carried by a discriminator word and an optional position:
/// `play` keeps an optional position, `pause` carries none, `seek` without a
/// position is malformed and dropped, and an unrecognized word is ignored.
pub open spec fn command_of(word: Option<Seq<char>>, pos: Option<u64>) -> Option<ControlCommand> {
    match word {
        None => None,
        Some(w) => {
            if w == word_play() {
                Some(ControlCommand { action: Action::Play, time_millis: pos })
            } else if w == word_pause() {
                Some(ControlCommand { action: Action::Pause, time_millis: None })
            } else if w == word_seek() {
                match pos {
                    Some(p) => Some(ControlCommand { action: Action::Seek, time_millis: Some(p) }),
                    None => None,
                }
            } else {
                None
            }
        },
    }
}

/// The command in an event-subscription message, read from its `type` and
/// `position` fields; nothing when the payload is malformed.
pub open spec fn decode_event_spec(s: Seq<char>) -> Option<ControlCommand> {
    match sparse(s) {
        None => None,
        Some(f) => command_of(f.kind, f.position),
    }
}

/// The command in a command-endpoint response, read from its `action` and
/// `time` fields; nothing when the payload is malformed.
pub open spec fn decode_command_spec(s: Seq<char>) -> Option<ControlCommand> {
    match sparse(s) {
        None => None,
        Some(f) => command_of(f.action, f.time),
    }
}

fn word_play_chars() -> (r: Vec<char>)
    ensures
        r@ == word_play(),
{
    let mut v: Vec<char> = Vec::new();
    v.push('p');
    v.push('l');
    v.push('a');
    v.push('y');
    proof {
        assert(v@ =~= word_play());
    }
    v
}

fn word_pause_chars() -> (r: Vec<char>)
    ensures
        r@ == word_pause(),
{
    let mut v: Vec<char> = Vec::new();
    v.push('p');
    v.push('a');
    v.push('u');
    v.push('s');
    v.push('e');
    proof {
        assert(v@ =~= word_pause());
    }
    v
}

fn word_seek_chars() -> (r: Vec<char>)
    ensures
        r@ == word_seek(),
{
    let mut v: Vec<char> = Vec::new();
    v.push('s');
    v.push('e');
    v.push('e');
    v.push('k');
    proof {
        assert(v@ =~= word_seek());
    }
    v
}

/// The command carried by a discriminator word and an optional position.
fn command_from_word(word: &Option<Vec<char>>, pos: Option<u64>) -> (r: Option<ControlCommand>)
    ensures
        r == command_of(
            match word {
                Some(w) => Some(w@),
                None => None,
            },
            pos,
        ),
{
    match word {
        None => None,
        Some(w) => {
            let play = word_play_chars();
            let pause = word_pause_chars();
            let seek = word_seek_chars();
            if chars_eq(w, &play) {
                Some(ControlCommand { action: Action::Play, time_millis: pos })
            } else if chars_eq(w, &pause) {
                Some(ControlCommand { action: Action::Pause, time_millis: None })
            } else if chars_eq(w, &seek) {
                match pos {
                    Some(p) => Some(ControlCommand { action: Action::Seek, time_millis: Some(p) }),
                    None => None,
                }
            } else {
                None
            }
        },
    }
}

/// Decodes one event-subscription message. Yields nothing — and never an
/// error — for a malformed payload, a `seek` without a position, or an
/// unrecognized event type.
pub fn decode_event(s: &str) -> (r: Option<ControlCommand>)
    ensures
        r == decode_event_spec(s@),
{
    match parse_message(s) {
        None => None,
        Some(f) => command_from_word(&f.kind, f.position),
    }
}

/// Decodes one command-endpoint response body. Yields nothing — and never
/// an error — for a malformed payload, a `seek` without a time, or an
/// unrecognized action.
pub fn decode_command(s: &str) -> (r: Option<ControlCommand>)
    ensures
        r == decode_command_spec(s@),
{
    match parse_message(s) {
        None => None,
        Some(f) => command_from_word(&f.action, f.time),
    }
}

} // verus!
