//! A screen-time tracker.
//!
//! A person's allotted screen time is kept as two append-only logs: time
//! entries, each an authoritative snapshot of the allotted minutes, and
//! adjustments, each applying the signed delta of a reusable adjustment
//! type. The current value is resolved by replaying, in chronological
//! order, every adjustment made since the latest time entry, clamping the
//! running total to zero after every step.

pub mod digits;
pub mod models;
pub mod order;
pub mod resolve;
pub mod store;
