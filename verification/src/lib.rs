//! A local supervisor that bridges a graphical shell to a separately running
//! real-time media server: it launches and owns the server process, relays
//! playback commands discovered from it, keeps a self-healing event
//! subscription, and tears everything down exactly once when the shell closes.
//!
//! This crate holds the verified core: the wire-format decoder for command
//! and event payloads, the position formatter, the poller and play-trigger
//! outcome logic, the reconnect state machine of the event stream client,
//! the executable resolver of the process supervisor, and the shutdown
//! coordinator with its at-most-once cleanup guarantee. The surrounding
//! process — timers, HTTP calls, the socket, the filesystem — lives outside
//! and hands this crate plain values.

pub mod command;
pub mod poller;
pub mod position;
pub mod shutdown;
pub mod supervisor;
pub mod stream;
pub mod surface;
pub mod text;
pub mod wire;
