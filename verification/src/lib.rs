//! Directory-synchronization engine: change detection against a per-path
//! modification-time manifest, upload routing (single-shot vs. chunked),
//! a chunked-upload session state machine, and a bounded progress log.

pub mod cycle;
pub mod logger;
pub mod remote;
pub mod scan;
pub mod settings;
pub mod text;
pub mod upload;
