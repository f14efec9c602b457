use vstd::prelude::*;
use crate::time::{checked_duration_since, duration_since, to_micros};

verus! {

/// A debouncer's memory: when the key was last touched and the reading
/// held back while the key is in quarantine.
pub struct DebounceState {
    pub last_touch: Option<u64>,
    pub quarantined: Option<bool>,
}

/// The debouncer's decision on a reading `state` taken at `now` (timer
/// ticks, microseconds): whether to accept it, and the debouncer's new
/// memory. The first reading, and one that is not later than the last
/// touch, is accepted. A reading within `quarantine` microseconds of the
/// last touch is refused; it restarts the quarantine when it differs from
/// the reading held back. A later reading is accepted and ends the
/// quarantine.
pub open spec fn debounce(d: DebounceState, now: u64, state: bool, quarantine: u64) -> (
    bool,
    DebounceState,
) {
    match d.last_touch {
        None => (true, DebounceState { last_touch: Some(now), quarantined: d.quarantined }),
        Some(earlier) => match duration_since(now, earlier) {
            None => (true, DebounceState { last_touch: Some(now), quarantined: d.quarantined }),
            Some(diff) => if diff < quarantine {
                if d.quarantined != Some(state) {
                    (false, DebounceState { last_touch: Some(now), quarantined: Some(state) })
                } else {
                    (false, d)
                }
            } else {
                (true, DebounceState { last_touch: Some(now), quarantined: None })
            },
        },
    }
}

/// The step shared by every debouncer: decides on the reading `state` taken
/// at `now` and updates the memory in place.
pub fn debounce_update(
    last_touch: &mut Option<u64>,
    quarentined: &mut Option<bool>,
    now: u64,
    state: bool,
    quarantine: u64,
) -> (accepted: bool)
    ensures
        ({
            let (a, d) = debounce(
                DebounceState { last_touch: *old(last_touch), quarantined: *old(quarentined) },
                now,
                state,
                quarantine,
            );
            &&& accepted == a
            &&& *final(last_touch) == d.last_touch
            &&& *final(quarentined) == d.quarantined
        }),
{
    let earlier = match *last_touch {
        Some(earlier) => earlier,
        None => {
            *last_touch = Some(now);
            return true;
        },
    };
    let diff = match checked_duration_since(now, earlier) {
        Some(diff) => diff,
        None => {
            *last_touch = Some(now);
            return true;
        },
    };
    if to_micros(diff) < quarantine {
        if *quarentined != Some(state) {
            *quarentined = Some(state);
            *last_touch = Some(now);
        }
        return false;
    }
    *last_touch = Some(now);
    *quarentined = None;
    true
}

/// Filters the bouncing of a key switch: after a change, further changes
/// within `D` microseconds are held back.
#[derive(Copy, Clone, Debug)]
pub struct PinDebouncer<const D: u64> {
    last_touch: Option<u64>,
    quarentined: Option<bool>,
}

impl<const D: u64> PinDebouncer<D> {
    /// The debouncer's memory.
    pub closed spec fn view(&self) -> DebounceState {
        DebounceState { last_touch: self.last_touch, quarantined: self.quarentined }
    }

    /// A debouncer that has seen no reading.
    #[must_use]
    pub fn new() -> (d: Self)
        ensures
            d@ == (DebounceState { last_touch: None, quarantined: None }),
    {
        Self { last_touch: None, quarentined: None }
    }

    /// Decides whether to accept the reading `state` taken at `now`, in
    /// ticks of the microsecond timer.
    pub fn update(&mut self, now: u64, state: bool) -> (accepted: bool)
        ensures
            (accepted, final(self)@) == debounce(old(self)@, now, state, D),
    {
        debounce_update(&mut self.last_touch, &mut self.quarentined, now, state, D)
    }
}

impl<const D: u64> Default for PinDebouncer<D> {
    /// A debouncer that has seen no reading, as [`PinDebouncer::new`] makes.
    fn default() -> (d: Self)
        ensures
            d@ == (DebounceState { last_touch: None, quarantined: None }),
    {
        Self::new()
    }
}

/// A key: whether it counts as held, and its debouncer.
#[derive(Copy, Clone, Debug)]
pub struct PinState<const D: u64> {
    pub pressed: bool,
    pub debounce: PinDebouncer<D>,
}

/// What a key's state means: whether it counts as held, and its
/// debouncer's memory.
pub struct PinModel {
    pub pressed: bool,
    pub debounce: DebounceState,
}

impl<const D: u64> PinState<D> {
    /// What the key's state means.
    pub open spec fn model(&self) -> PinModel {
        PinModel { pressed: self.pressed, debounce: self.debounce@ }
    }
}

/// A key's reading `pressed` taken at `now`, on the key's model: whether
/// the key changes state, and its new model.
pub open spec fn pin_step(m: PinModel, pressed: bool, now: u64, quarantine: u64) -> (bool, PinModel) {
    if m.pressed == pressed {
        (false, m)
    } else {
        let (accepted, d) = debounce(m.debounce, now, pressed, quarantine);
        (accepted, PinModel { pressed: if accepted { pressed } else { m.pressed }, debounce: d })
    }
}

impl<const D: u64> PinState<D> {
    /// A released key whose debouncer has seen no reading.
    #[must_use]
    pub fn new() -> (s: Self)
        ensures
            !s.pressed,
            s.debounce@ == (DebounceState { last_touch: None, quarantined: None }),
    {
        Self { pressed: false, debounce: PinDebouncer::new() }
    }

    /// Takes the reading `pressed` at `now`; returns whether the key changed
    /// state.
    pub fn check(&mut self, pressed: bool, now: u64) -> (changed: bool)
        ensures
            (changed, final(self).model()) == pin_step(old(self).model(), pressed, now, D),
    {
        if self.pressed != pressed && self.debounce.update(now, pressed) {
            self.pressed = pressed;
            return true;
        }
        false
    }
}

/// The states of `count` released keys whose debouncers have seen no reading.
pub fn keys_to_states<const D: u64>(count: usize) -> (states: Vec<PinState<D>>)
    ensures
        states.len() == count,
        forall|i: int|
            0 <= i < count ==> (#[trigger] states[i]).model() == (PinModel {
                pressed: false,
                debounce: DebounceState { last_touch: None, quarantined: None },
            }),
{
    let mut states: Vec<PinState<D>> = Vec::new();
    let mut i: usize = 0;
    while i < count
        invariant
            i <= count,
            states.len() == i,
            forall|j: int|
                0 <= j < i ==> (#[trigger] states[j]).model() == (PinModel {
                    pressed: false,
                    debounce: DebounceState { last_touch: None, quarantined: None },
                }),
        decreases count - i,
    {
        states.push(PinState::new());
        i += 1;
    }
    states
}

/// A key wired straight to a pin of its own.
pub struct DirectKeyPin<P, const D: u64> {
    pub pin: P,
    pub state: PinState<D>,
}

impl<P, const D: u64> DirectKeyPin<P, D> {
    /// The key on `pin`, released.
    pub fn new(pin: P) -> (k: Self)
        ensures
            k.pin == pin,
            !k.state.pressed,
            k.state.debounce@ == (DebounceState { last_touch: None, quarantined: None }),
    {
        Self { pin, state: PinState::new() }
    }
}

} // verus!
