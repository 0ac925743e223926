//! A keyboard macro library: chord triggers with edge-triggered debouncing,
//! and deterministic playback plans for hold-and-tap key sequences.
//!
//! The library holds the decision logic only. Reading the physical keyboard
//! state and injecting synthetic key events are outside services: a driver
//! samples the pressed keys each cycle, hands the sample to [`monitor::Monitor`],
//! and performs the [`player::Step`]s that the playback plan prescribes.

pub mod keys;
pub mod monitor;
pub mod player;
pub mod trigger;
