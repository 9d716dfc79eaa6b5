//! Debounced overlay coordinator.
//!
//! A pair of background daemons shows a transient on-screen overlay (a
//! brightness or volume indicator) in response to adjustment commands sent
//! over local IPC. This crate holds the verified core of that pattern: the
//! command types, the debounce queue with its delayed-eviction policy, the
//! coordinator state machine that keeps the overlay visible exactly while
//! commands are still settling, and the pure computations (icon thresholds,
//! tool-output parsing) that feed the overlay.
//!
//! The IPC transport, the external control actions and the overlay surface
//! itself are collaborators outside this crate; the coordinator tells its
//! caller what to do to them and is verified to do so correctly.

pub mod command;
pub mod coordinator;
pub mod display;
pub mod parse;
pub mod queue;
pub mod run;
