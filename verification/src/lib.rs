//! A single-shot home/away fixture scheduler.
//!
//! Competitors are organized into groups; a greedy single pass pairs each
//! competitor with its first acceptable candidate opponent, committing both
//! the forward and the return fixture and keeping per-group home/away
//! balance counters consistent.

pub mod engine;
pub mod entity;
pub mod export;
