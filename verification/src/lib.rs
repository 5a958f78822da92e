//! Supervision core for long-running external transcoding jobs.
//!
//! The library tracks every active job in a [`registry::Registry`]
//! keyed by the job's output path, parses the transcoder's progress stream
//! ([`timecode`], [`progress`]), builds the transcoder's argument list
//! ([`args`]), and decides every lifecycle transition ([`supervisor`]).
//! Process spawning, signalling and file deletion are performed by the
//! embedding application, which feeds their results back into the verified
//! decision functions.
//!
//! Time is measured in whole microseconds and progress in thousandths of a
//! percent, so that every quantity the contracts speak of is an integer.

pub mod args;
pub mod params;
pub mod progress;
pub mod registry;
pub mod supervisor;
pub mod timecode;
