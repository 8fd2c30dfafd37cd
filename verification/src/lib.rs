//! Verified core of a lightweight process telemetry agent: configuration,
//! target matching, CSV output and rotation, sampling windows and the network
//! counters that feed them.
pub mod text;
pub mod wildcard;
pub mod config;
pub mod path;
pub mod literal;
pub mod output;
pub mod rotation;
pub mod win32;
pub mod utf16;
pub mod net;
pub mod metrics;
pub mod monitor;
pub mod schedule;
pub mod session;
