//! Core state machine of a personal task/time-tracking tool.
//!
//! A user pushes labeled jobs onto an active stack, suspends contiguous
//! suffixes of that stack into timer-sorted suspended stacks, resumes them,
//! and receives reminder alarms for expired time-boxes.  All times are UTC
//! instants measured in whole seconds since the epoch; all durations are in
//! whole seconds.  Every operation that depends on the current time takes it
//! as an explicit argument, so the whole state machine is verified for every
//! clock value.

pub mod board;
pub mod clock;
pub mod job;
pub mod matching;
pub mod notifier;
pub mod persist;
pub mod tick;
pub mod timer_order;
