use vstd::prelude::*;
use crate::pin::{debounce, debounce_update, DebounceState};

verus! {

/// How long a key stays in quarantine after a touch, in microseconds.
pub const QUARANTINE_MICROS: u64 = 10_000;

/// A key: whether it counts as held, and its debouncer.
pub struct PinState {
    pub pressed: bool,
    pub debounce: PinDebouncer,
}

impl PinState {
    /// A released key whose debouncer has seen no reading.
    #[must_use]
    pub fn new() -> (s: Self)
        ensures
            !s.pressed,
            s.debounce@ == (DebounceState { last_touch: None, quarantined: None }),
    {
        Self { pressed: false, debounce: PinDebouncer::new() }
    }
}

/// Filters the bouncing of a key switch with a quarantine of
/// [`QUARANTINE_MICROS`].
#[derive(Copy, Clone, Debug)]
pub struct PinDebouncer {
    last_touch: Option<u64>,
    quarentined: Option<bool>,
}

impl PinDebouncer {
    /// The debouncer's memory.
    pub closed spec fn view(&self) -> DebounceState {
        DebounceState { last_touch: self.last_touch, quarantined: self.quarentined }
    }

    /// A debouncer that has seen no reading.
    #[must_use]
    pub fn new() -> (d: Self)
        ensures
            d@ == (DebounceState { last_touch: None, quarantined: None }),
    {
        Self { last_touch: None, quarentined: None }
    }

    /// Decides whether to accept the reading `state` taken at `now`, in
    /// ticks of the microsecond timer.
    pub fn update(&mut self, now: u64, state: bool) -> (accepted: bool)
        ensures
            (accepted, final(self)@) == debounce(old(self)@, now, state, QUARANTINE_MICROS),
    {
        debounce_update(&mut self.last_touch, &mut self.quarentined, now, state, QUARANTINE_MICROS)
    }
}

impl Default for PinDebouncer {
    /// A debouncer that has seen no reading, as [`PinDebouncer::new`] makes.
    fn default() -> (d: Self)
        ensures
            d@ == (DebounceState { last_touch: None, quarantined: None }),
    {
        Self::new()
    }
}

} // verus!
