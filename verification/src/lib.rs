//! Sonification of live host telemetry.
//!
//! The library turns per-tick metric snapshots (CPU load, memory pressure,
//! packet counts, process churn) into fixed-length audio-rate frames and
//! bridges the tick-driven producer to a pull-driven consumer through a
//! bounded ring buffer.  Samples are fixed-point integers: the value
//! `fixed::UNIT` stands for 1.0, so every rule about the signal can be
//! stated and proved over plain integers.

pub mod bridge;
pub mod config;
pub mod encoder;
pub mod fixed;
pub mod frames;
pub mod ring;
pub mod scheduler;
pub mod rng;
