//! A cancellable timer.
//!
//! Values are scheduled to become due after a delay counted in ticks of a
//! logical clock. A driver advances the clock, takes out the values that are
//! due, and may cancel any scheduled value before it fires. Three structures
//! work together:
//!
//! * a multi-level timing wheel, which holds the entries that are due within
//!   one epoch and finds the entries of a tick without a search;
//! * a min-heap, which holds the entries with longer delays until the epoch
//!   comes in which they are due;
//! * an arena of stable keys, which records for every entry where it
//!   currently is, so that cancelling never searches either.
//!
//! [`Timer`] is the whole of it. What a timer does is stated over its view,
//! a [`TimerView`]: the clock, the scheduled entries with their ticks, and
//! the counters. The laws that follow from those statements are proved in
//! [`model`].

pub mod key;
pub mod model;
mod arith;
mod arena;
mod heap;
mod wheel;
mod lists;
pub mod timer;

pub use key::TimerKey;
pub use model::{span, Entry, TimerView};
pub use timer::Timer;
