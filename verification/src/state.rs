//! Shared application state: whether the main window has focus, which
//! drives the sampling frequency.

use std::sync::atomic::{AtomicBool, Ordering};
use std::sync::Arc;
use std::time::Duration;
use crate::clock::duration_as_millis;
use vstd::prelude::*;

verus! {

/// The `Duration` that `Duration::from_millis` makes of a number of milliseconds.
pub uninterp spec fn duration_of_millis(ms: u64) -> Duration;

/// Calls `std::time::Duration::from_millis`. The result is a pure function
/// of the argument, named `duration_of_millis`; as std documents, it holds
/// exactly `ms` milliseconds, so `as_millis` gives `ms` back.
#[verifier::external_body]
fn duration_from_millis(ms: u64) -> (d: Duration)
    ensures
        d == duration_of_millis(ms),
        duration_as_millis(d) == ms as u128,
{
    Duration::from_millis(ms)
}

/// Sampling period in milliseconds: 4 Hz while the main window has focus,
/// 1 Hz otherwise.
pub open spec fn interval_millis_spec(focused: bool) -> u64 {
    if focused {
        250
    } else {
        1000
    }
}

/// Sampling is faster while the main window has focus: both periods are
/// positive and the focused one is the shorter.
pub proof fn lemma_focused_samples_faster()
    ensures
        0 < interval_millis_spec(true) < interval_millis_spec(false),
{
}

/// The sampling period, in milliseconds, for a given focus state.
pub fn interval_millis(focused: bool) -> (ms: u64)
    ensures
        ms == interval_millis_spec(focused),
{
    if focused {
        250
    } else {
        1000
    }
}

/// The sampling period for a given focus state.
pub fn interval_for(focused: bool) -> (d: Duration)
    ensures
        d == duration_of_millis(interval_millis_spec(focused)),
        duration_as_millis(d) == interval_millis_spec(focused) as u128,
{
    duration_from_millis(interval_millis(focused))
}

/// State shared between the window event handlers and the samplers. Clones
/// share one flag.
#[derive(Clone)]
pub struct AppState {
    focused: Arc<AtomicBool>,
}

impl AppState {
    /// A new state whose flag starts unfocused.
    pub fn new() -> (s: Self) {
        AppState { focused: Arc::new(AtomicBool::new(false)) }
    }

    /// Records whether the main window has focus.
    pub fn set_focused(&self, v: bool) {
        self.focused.store(v, Ordering::Relaxed);
    }

    /// Reads the focus flag.
    pub fn is_focused(&self) -> (b: bool) {
        self.focused.load(Ordering::Relaxed)
    }

    /// The sampling period for the focus state read from the flag.
    pub fn sample_interval(&self) -> (d: Duration)
        ensures
            d == duration_of_millis(interval_millis_spec(true)) || d == duration_of_millis(
                interval_millis_spec(false),
            ),
            duration_as_millis(d) == interval_millis_spec(true) as u128 || duration_as_millis(d)
                == interval_millis_spec(false) as u128,
            duration_as_millis(d) > 0,
    {
        interval_for(self.is_focused())
    }
}

} // verus!
