//! Multiplexes the standard-output and standard-error byte streams of one
//! child process into a single ordered sequence of events: a completed line
//! of either stream, or the terminal event carrying the child's exit code.
//!
//! The verified core is pure: it frames raw bytes into lines, queues events
//! in first-in first-out order, and drives the pull-based iteration protocol
//! as a state machine. The unverified driver around it performs the actual
//! pipe reads, the readiness wait, and the exit-status query, and hands the
//! results to the core as plain values.

pub mod event;
pub mod framer;
pub mod reader;
