//! Verified core of beamup: bidirectional file sync between a local directory and a beam.

pub mod text;
pub mod codec;
pub mod messages;
pub mod hash;
pub mod compress;
pub mod paths;
pub mod ignore_rules;
pub mod states;
pub mod manifest;
pub mod watch;
pub mod agent;
pub mod transfer;
pub mod engine;
pub mod initial;
pub mod beam;
pub mod deploy;
pub mod session;
pub mod progress;
pub mod agent_cli;
pub mod chunked;
