//! Decoding of command-endpoint responses and event-subscription messages,
//! and position formatting.

use mediarelay::command::{decode_command, decode_event, Action, ControlCommand};
use mediarelay::poller::poll_once;
use mediarelay::position::{
    format_position, position_frac_millis, position_minutes, position_whole_seconds,
};

fn text(v: &[char]) -> String {
    v.iter().collect()
}

#[test]
fn seek_round_trip_polled_path() {
    let cmd = decode_command("{\"action\":\"seek\",\"time\":125.5}");
    assert_eq!(
        cmd,
        Some(ControlCommand { action: Action::Seek, time_millis: Some(125500) })
    );
    let millis = cmd.unwrap().time_millis.unwrap();
    assert_eq!(position_minutes(millis), 2);
    assert_eq!(position_whole_seconds(millis), 5);
    assert_eq!(position_frac_millis(millis), 500);
    assert_eq!(text(&format_position(millis)), "2:05.500");
}

#[test]
fn seek_round_trip_streamed_path() {
    let cmd = decode_event("{\"type\":\"seek\",\"position\":125.5}");
    assert_eq!(
        cmd,
        Some(ControlCommand { action: Action::Seek, time_millis: Some(125500) })
    );
    let millis = cmd.unwrap().time_millis.unwrap();
    assert_eq!(position_minutes(millis), 2);
    assert_eq!(position_whole_seconds(millis), 5);
    assert_eq!(position_frac_millis(millis), 500);
    assert_eq!(text(&format_position(millis)), "2:05.500");
}

#[test]
fn pause_event_without_position() {
    let cmd = decode_event("{\"type\":\"pause\"}");
    assert_eq!(
        cmd,
        Some(ControlCommand { action: Action::Pause, time_millis: None })
    );
}

#[test]
fn pause_event_drops_a_position() {
    let cmd = decode_event("{\"type\":\"pause\",\"position\":4.25}");
    assert_eq!(
        cmd,
        Some(ControlCommand { action: Action::Pause, time_millis: None })
    );
}

#[test]
fn play_event_with_and_without_position() {
    assert_eq!(
        decode_event("{\"type\":\"play\",\"position\":125.5}"),
        Some(ControlCommand { action: Action::Play, time_millis: Some(125500) })
    );
    assert_eq!(
        decode_event("{\"type\":\"play\"}"),
        Some(ControlCommand { action: Action::Play, time_millis: None })
    );
}

#[test]
fn seek_without_time_is_dropped() {
    assert_eq!(decode_command("{\"action\":\"seek\"}"), None);
    assert_eq!(decode_event("{\"type\":\"seek\"}"), None);
}

#[test]
fn unrecognized_discriminator_is_ignored() {
    assert_eq!(decode_event("{\"type\":\"stop\",\"position\":3}"), None);
    assert_eq!(decode_command("{\"action\":\"rewind\"}"), None);
}

#[test]
fn malformed_bodies_yield_no_command() {
    assert_eq!(decode_command(""), None);
    assert_eq!(decode_command("not json"), None);
    assert_eq!(decode_command("{}"), None);
    assert_eq!(decode_command("{\"action\":\"play\""), None);
    assert_eq!(decode_command("[1,2]"), None);
    assert_eq!(decode_command("{\"action\":\"play\"} trailing"), None);
}

#[test]
fn poll_once_success_and_failures() {
    assert_eq!(poll_once(None), None);
    assert_eq!(poll_once(Some((500, "{\"action\":\"play\"}"))), None);
    assert_eq!(poll_once(Some((404, "{\"action\":\"play\"}"))), None);
    assert_eq!(
        poll_once(Some((200, "{\"action\":\"play\"}"))),
        Some(ControlCommand { action: Action::Play, time_millis: None })
    );
    assert_eq!(poll_once(Some((200, "garbage"))), None);
    assert_eq!(poll_once(Some((200, ""))), None);
}

#[test]
fn whitespace_and_key_order_are_tolerated() {
    assert_eq!(
        decode_command(" { \"time\" : 1 , \"action\" : \"play\" } "),
        Some(ControlCommand { action: Action::Play, time_millis: Some(1000) })
    );
}

#[test]
fn unknown_keys_are_tolerated() {
    assert_eq!(
        decode_command("{\"muted\":true,\"action\":\"play\",\"x\":null,\"y\":\"s\",\"z\":3}"),
        Some(ControlCommand { action: Action::Play, time_millis: None })
    );
}

#[test]
fn later_duplicate_key_wins() {
    assert_eq!(
        decode_command("{\"action\":\"play\",\"action\":\"pause\"}"),
        Some(ControlCommand { action: Action::Pause, time_millis: None })
    );
    assert_eq!(decode_command("{\"action\":\"play\",\"action\":5}"), None);
}

#[test]
fn wrongly_shaped_field_counts_as_absent() {
    assert_eq!(decode_command("{\"action\":5}"), None);
    assert_eq!(decode_command("{\"action\":\"seek\",\"time\":\"5\"}"), None);
}

#[test]
fn whole_second_times_scale_to_millis() {
    assert_eq!(
        decode_command("{\"action\":\"seek\",\"time\":125}"),
        Some(ControlCommand { action: Action::Seek, time_millis: Some(125000) })
    );
    assert_eq!(
        decode_command("{\"action\":\"seek\",\"time\":0.5}"),
        Some(ControlCommand { action: Action::Seek, time_millis: Some(500) })
    );
}

#[test]
fn fraction_precision_beyond_millis_is_truncated() {
    assert_eq!(
        decode_command("{\"action\":\"seek\",\"time\":1.2345}"),
        Some(ControlCommand { action: Action::Seek, time_millis: Some(1234) })
    );
}

#[test]
fn broken_number_syntax_is_malformed() {
    assert_eq!(decode_command("{\"action\":\"seek\",\"time\":1.}"), None);
    assert_eq!(decode_command("{\"action\":\"seek\",\"time\":.5}"), None);
    assert_eq!(decode_command("{\"action\":\"seek\",\"time\":01}"), None);
    assert_eq!(decode_command("{\"action\":\"seek\",\"time\":1e}"), None);
    assert_eq!(decode_command("{\"action\":\"seek\",\"time\":+1}"), None);
}

#[test]
fn out_of_model_numbers_make_the_field_absent() {
    // Negative, past u64 milliseconds, or absurdly encoded: the field is
    // absent, the payload itself stays well-formed, so seek is dropped.
    assert_eq!(decode_command("{\"action\":\"seek\",\"time\":-1}"), None);
    assert_eq!(
        decode_command("{\"action\":\"seek\",\"time\":123456789012345678901}"),
        None
    );
    assert_eq!(decode_command("{\"action\":\"seek\",\"time\":1e19}"), None);
    // ... while play survives, with its time simply absent.
    assert_eq!(
        decode_command("{\"action\":\"play\",\"time\":-2.5}"),
        Some(ControlCommand { action: Action::Play, time_millis: None })
    );
    // Negative zero is zero.
    assert_eq!(
        decode_command("{\"action\":\"seek\",\"time\":-0.0}"),
        Some(ControlCommand { action: Action::Seek, time_millis: Some(0) })
    );
}

#[test]
fn exponents_scale_into_millis() {
    assert_eq!(
        decode_command("{\"action\":\"seek\",\"time\":1.255e2}"),
        Some(ControlCommand { action: Action::Seek, time_millis: Some(125500) })
    );
    assert_eq!(
        decode_command("{\"action\":\"seek\",\"time\":1255E-1}"),
        Some(ControlCommand { action: Action::Seek, time_millis: Some(125500) })
    );
    assert_eq!(
        decode_command("{\"action\":\"seek\",\"time\":5e-3}"),
        Some(ControlCommand { action: Action::Seek, time_millis: Some(5) })
    );
    assert_eq!(
        decode_command("{\"action\":\"seek\",\"time\":2e+1}"),
        Some(ControlCommand { action: Action::Seek, time_millis: Some(20000) })
    );
    // Below a millisecond: truncates to zero.
    assert_eq!(
        decode_command("{\"action\":\"seek\",\"time\":1e-9}"),
        Some(ControlCommand { action: Action::Seek, time_millis: Some(0) })
    );
    assert_eq!(
        decode_command("{\"action\":\"seek\",\"time\":0e99999}"),
        Some(ControlCommand { action: Action::Seek, time_millis: Some(0) })
    );
    assert_eq!(
        decode_command("{\"action\":\"seek\",\"time\":1e-99999}"),
        Some(ControlCommand { action: Action::Seek, time_millis: Some(0) })
    );
    assert_eq!(
        decode_command("{\"action\":\"seek\",\"time\":12345678901234}"),
        Some(ControlCommand { action: Action::Seek, time_millis: Some(12345678901234000) })
    );
}

#[test]
fn nested_values_under_unknown_keys_are_skipped() {
    assert_eq!(
        decode_command("{\"action\":\"play\",\"extra\":{\"a\":[1,2],\"b\":{}}}"),
        Some(ControlCommand { action: Action::Play, time_millis: None })
    );
    assert_eq!(
        decode_command("{\"extra\":[1,\"x\",[true,null],{\"y\":2}],\"action\":\"play\"}"),
        Some(ControlCommand { action: Action::Play, time_millis: None })
    );
    // Under a known key a composite is the wrong shape: the field is absent.
    assert_eq!(decode_command("{\"action\":{\"a\":1}}"), None);
    // An unclosed composite is malformed.
    assert_eq!(decode_command("{\"action\":\"play\",\"extra\":[1,2}"), None);
}

#[test]
fn string_escapes_decode() {
    assert_eq!(
        decode_event("{\"type\":\"pl\\u0061y\"}"),
        Some(ControlCommand { action: Action::Play, time_millis: None })
    );
    assert_eq!(
        decode_event("{\"ty\\u0070e\":\"pause\"}"),
        Some(ControlCommand { action: Action::Pause, time_millis: None })
    );
    assert_eq!(decode_event("{\"type\":\"pause\\\"\"}"), None);
}

#[test]
fn bad_escapes_and_control_characters_are_malformed() {
    assert_eq!(decode_event("{\"type\":\"pa\\quse\"}"), None);
    assert_eq!(decode_event("{\"type\":\"pa\\uD800use\"}"), None);
    assert_eq!(decode_event("{\"type\":\"pa\tuse\"}"), None);
    assert_eq!(decode_event("{\"type\":\"pause"), None);
}

#[test]
fn format_position_edges() {
    assert_eq!(text(&format_position(0)), "0:00.000");
    assert_eq!(text(&format_position(3599999)), "59:59.999");
    assert_eq!(text(&format_position(3600000)), "60:00.000");
    assert_eq!(text(&format_position(999)), "0:00.999");
}
