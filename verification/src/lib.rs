//! Request admission: given a caller's key, decide call by call whether the
//! call may go on, so that no key exceeds a configured rate.
//!
//! Four strategies offer the same capability, [`limiter::Limiter`]: a token
//! bucket, a fixed window, an exact sliding-window log and a weighted
//! approximation of a sliding window. Each is a sequential state machine
//! over whole seconds; what a call does is stated over a mathematical model
//! of the state and proved. Sharing one limiter between callers and its
//! reclaimer is left to the caller.

pub mod approximation;
pub mod bucket;
pub mod clock;
pub mod fixed;
pub mod limiter;
pub mod slide;
pub mod table;
pub mod timeline;
