//! Temperature-to-fan-speed curves for a GPU fan daemon.
//!
//! The crate has two halves: a parser that turns a textual configuration
//! into named curves (`curves`), and a controller that selects a target
//! speed for the current temperature and decides which hardware commands
//! to issue (`fan_control`). Reading the configuration and talking to the
//! device are left to the host program, which feeds plain values in and
//! carries the returned commands out.

pub mod config_readers;
pub mod curves;
pub mod fan_control;
pub mod roundtrip;
