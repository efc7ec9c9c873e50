//! Command orchestration and configuration validation for an externally
//! installed AI-serving node.
//!
//! The crate models the node's lifecycle operations (install, stop, upgrade,
//! reconfigure) as fixed, ordered lists of named shell commands. A caller
//! supplies a [`runner::ProcessRunner`] that actually executes one command;
//! everything around it — building the step lists, validating configuration
//! batches before any command is built, collecting step outputs in order,
//! aborting on the first failure, and extracting the node's public URL from a
//! step's captured text — is verified here.

pub mod client;
pub mod config;
pub mod extract;
pub mod lifecycle;
pub mod numeric;
pub mod runner;
pub mod step;
pub mod text;

pub use client::{ChatResponse, GaiaNodeClient};
pub use config::{ConfigRule, ConfigUpdate, PathFacts, ValidationError};
pub use lifecycle::{LifecycleError, LifecycleResult};
pub use runner::{ProcessRunner, StepFailure};
pub use step::{Step, StepOutput};
