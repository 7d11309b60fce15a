//! The shutdown coordinator, the reconnect state machine, the executable
//! resolver and the shell command surface.

use mediarelay::command::{Action, ControlCommand};
use mediarelay::shutdown::{CleanupOutcome, Coordinator, ShutdownPolicy, SignalKind};
use mediarelay::stream::{stream_start, stream_step, ConnState, StreamAction, StreamEvent};
use mediarelay::supervisor::{is_bundled_exe, lock_contents, resolve_executable};
use mediarelay::surface::{play_trigger_outcome, video_path_outcome};

fn chars(s: &str) -> Vec<char> {
    s.chars().collect()
}

fn text(v: &[char]) -> String {
    v.iter().collect()
}

#[test]
fn close_requested_then_destroyed_cleans_once() {
    let policy = ShutdownPolicy { close_requested_cleans: false };
    let mut c = Coordinator::new(Some(42));
    let first = c.on_signal(policy, SignalKind::CloseRequested);
    assert_eq!(first, CleanupOutcome { terminate_pid: None, remove_lock: false });
    let second = c.on_signal(policy, SignalKind::Destroyed);
    assert_eq!(second, CleanupOutcome { terminate_pid: Some(42), remove_lock: true });
    let third = c.on_signal(policy, SignalKind::Destroyed);
    assert_eq!(third, CleanupOutcome { terminate_pid: None, remove_lock: false });
}

#[test]
fn duplicate_destroy_signals_clean_once() {
    let policy = ShutdownPolicy { close_requested_cleans: true };
    let mut c = Coordinator::new(Some(7));
    let first = c.on_signal(policy, SignalKind::Destroyed);
    assert_eq!(first, CleanupOutcome { terminate_pid: Some(7), remove_lock: true });
    for _ in 0..5 {
        let again = c.on_signal(policy, SignalKind::Destroyed);
        assert_eq!(again, CleanupOutcome { terminate_pid: None, remove_lock: false });
    }
}

#[test]
fn close_request_cleans_under_the_eager_policy() {
    let policy = ShutdownPolicy { close_requested_cleans: true };
    let mut c = Coordinator::new(Some(9));
    let first = c.on_signal(policy, SignalKind::CloseRequested);
    assert_eq!(first, CleanupOutcome { terminate_pid: Some(9), remove_lock: true });
    let second = c.on_signal(policy, SignalKind::Destroyed);
    assert_eq!(second, CleanupOutcome { terminate_pid: None, remove_lock: false });
}

#[test]
fn spawn_failure_leaves_the_supervisor_degraded() {
    // No child was spawned: cleanup still removes the lock, terminates
    // nothing, and the surface operations fail soft instead of panicking.
    let policy = ShutdownPolicy { close_requested_cleans: false };
    let mut c = Coordinator::new(None);
    let out = c.on_signal(policy, SignalKind::Destroyed);
    assert_eq!(out, CleanupOutcome { terminate_pid: None, remove_lock: true });

    assert!(play_trigger_outcome(Err(chars("connection refused"))).is_err());
    assert_eq!(video_path_outcome(None), None);
}

#[test]
fn stream_starts_with_a_warmup_attempt() {
    let (state, warmup) = stream_start();
    assert_eq!(state, ConnState::Connecting);
    assert_eq!(warmup, 2000);
}

#[test]
fn disruptions_reenter_connecting() {
    let (s1, a1, d1) = stream_step(ConnState::Connected, StreamEvent::Closed);
    assert_eq!((s1, a1, d1), (ConnState::Connecting, StreamAction::Attempt, None));
    let (s2, a2, d2) = stream_step(ConnState::Connected, StreamEvent::TransportError);
    assert_eq!((s2, a2, d2), (ConnState::Connecting, StreamAction::Attempt, None));
    let (s3, a3, d3) = stream_step(ConnState::Connecting, StreamEvent::ConnectFailed);
    assert_eq!(
        (s3, a3, d3),
        (ConnState::Connecting, StreamAction::BackoffThenAttempt, None)
    );
}

#[test]
fn flapping_connectivity_recovers() {
    let events = [
        StreamEvent::ConnectFailed,
        StreamEvent::ConnectFailed,
        StreamEvent::ConnectOk,
        StreamEvent::Closed,
        StreamEvent::ConnectFailed,
        StreamEvent::ConnectOk,
    ];
    let mut state = stream_start().0;
    for e in events {
        state = stream_step(state, e).0;
    }
    assert_eq!(state, ConnState::Connected);
}

#[test]
fn connected_text_dispatches_a_decoded_event() {
    let (s, a, d) = stream_step(ConnState::Connected, StreamEvent::Text("{\"type\":\"pause\"}"));
    assert_eq!(s, ConnState::Connected);
    assert_eq!(a, StreamAction::Dispatch);
    assert_eq!(d, Some(ControlCommand { action: Action::Pause, time_millis: None }));
}

#[test]
fn connected_garbage_keeps_reading() {
    let (s, a, d) = stream_step(ConnState::Connected, StreamEvent::Text("garbage"));
    assert_eq!((s, a, d), (ConnState::Connected, StreamAction::Read, None));
    let (s2, a2, d2) = stream_step(ConnState::Connected, StreamEvent::Other);
    assert_eq!((s2, a2, d2), (ConnState::Connected, StreamAction::Read, None));
}

#[test]
fn first_runnable_candidate_wins() {
    let candidates = vec![
        chars("node"),
        chars("/usr/local/bin/node"),
        chars("/opt/homebrew/bin/node"),
    ];
    let available = vec![false, true, true];
    let chosen = resolve_executable(&candidates, &available, &chars("node"));
    assert_eq!(text(&chosen), "/usr/local/bin/node");
}

#[test]
fn no_runnable_candidate_falls_back_to_the_bare_name() {
    let candidates = vec![chars("/usr/local/bin/node"), chars("/opt/homebrew/bin/node")];
    let available = vec![false, false];
    let chosen = resolve_executable(&candidates, &available, &chars("node"));
    assert_eq!(text(&chosen), "node");
}

#[test]
fn bundle_detection_reads_the_exe_path() {
    assert!(is_bundled_exe("/Applications/Player.app/Contents/MacOS/player"));
    assert!(!is_bundled_exe("/home/dev/project/target/debug/player"));
}

#[test]
fn lock_marker_holds_the_pid_in_decimal() {
    assert_eq!(text(&lock_contents(12345)), "12345");
    assert_eq!(text(&lock_contents(0)), "0");
}

#[test]
fn play_trigger_outcomes() {
    assert!(play_trigger_outcome(Ok(200)).is_ok());
    assert!(play_trigger_outcome(Ok(204)).is_ok());
    let http = play_trigger_outcome(Ok(404)).unwrap_err();
    assert_eq!(text(&http), "play trigger failed with HTTP status 404");
    let transport = play_trigger_outcome(Err(chars("connection refused"))).unwrap_err();
    assert_eq!(
        text(&transport),
        "play trigger could not reach the media server: connection refused"
    );
}

#[test]
fn video_path_outcomes() {
    let ok = video_path_outcome(Some((200, "{\"path\":\"/tmp/video.mp4\"}")));
    assert_eq!(ok.map(|v| text(&v)), Some("/tmp/video.mp4".to_string()));
    let escaped = video_path_outcome(Some((200, "{\"path\":\"a\\\\b\"}")));
    assert_eq!(escaped.map(|v| text(&v)), Some("a\\b".to_string()));
    let unicode = video_path_outcome(Some((200, "{\"path\":\"caf\\u00e9 \\uD83C\\uDFB5.mp4\"}")));
    assert_eq!(unicode.map(|v| text(&v)), Some("caf\u{e9} \u{1F3B5}.mp4".to_string()));
    let quoted = video_path_outcome(Some((200, "{\"path\":\"a \\\"b\\\" c\"}")));
    assert_eq!(quoted.map(|v| text(&v)), Some("a \"b\" c".to_string()));
    assert_eq!(video_path_outcome(Some((200, "{}"))), None);
    assert_eq!(video_path_outcome(Some((200, "{\"path\":5}"))), None);
    assert_eq!(video_path_outcome(Some((200, "garbage"))), None);
    assert_eq!(video_path_outcome(Some((500, "{\"path\":\"/tmp/video.mp4\"}"))), None);
    assert_eq!(video_path_outcome(None), None);
}
