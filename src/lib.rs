//! Readiness, request-pipeline and shutdown rules of a small HTTP service,
//! together with the parsing and validation of its configuration.
pub mod text;
pub mod size;
pub mod span;
pub mod config;
pub mod probes;
pub mod cors;
pub mod pipeline;
pub mod shutdown;
