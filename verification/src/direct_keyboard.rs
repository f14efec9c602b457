use vstd::prelude::*;
use crate::keymap::{event_byte, PRESSED_MASK};
use crate::pin::{pin_step, PinModel, PinState};

verus! {

/// Whether the input `pin` reads low in the bank of GPIO levels `bank`.
/// Keys pull their pin low while held.
pub open spec fn pin_low(bank: u32, pin: u8) -> bool {
    (bank >> pin) % 2 == 0
}

/// Reads the level of `pin` in `bank`: whether the key on it is held.
pub fn key_pressed(bank: u32, pin: u8) -> (pressed: bool)
    requires
        pin < 32,
    ensures
        pressed == pin_low(bank, pin),
{
    let key_mask: u32 = 1 << pin;
    proof {
        assert(pin < 32 ==> ((bank & (1u32 << pin)) == 0) == ((bank >> pin) % 2 == 0))
            by (bit_vector);
    }
    bank & key_mask == 0
}

/// The event byte for key `index`: the index, with the high bit set when
/// the key went down.
pub fn key_event(index: u8, pressed: bool) -> (e: u8)
    requires
        index < 128,
    ensures
        e == event_byte(index, pressed),
{
    if pressed {
        index + PRESSED_MASK
    } else {
        index
    }
}

/// An event byte from the other half, shifted past the `key_count` keys of
/// this half; the sum wraps around as byte arithmetic does.
pub fn remote_event(msg: u8, key_count: u8) -> (e: u8)
    ensures
        e == (msg + key_count) % 256,
{
    msg.wrapping_add(key_count)
}

/// One key to read during a scan: the input pin it pulls low, and its
/// index among the keys of the half.
#[derive(Copy, Clone, Debug, PartialEq, Eq, Structural)]
pub struct KeyCheck {
    pub row_pin: u8,
    pub index: u8,
}

/// Whether a check reads a valid pin and names a key of `n` that an event
/// byte can carry.
pub open spec fn check_fits(c: KeyCheck, n: nat) -> bool {
    c.row_pin < 32 && c.index < 128 && c.index < n
}

/// The checks of a keyboard wired directly: key `i` on pin `pins[i]`.
pub open spec fn direct_checks(pins: Seq<u8>) -> Seq<KeyCheck> {
    Seq::new(pins.len(), |i: int| KeyCheck { row_pin: pins[i], index: i as u8 })
}

/// Runs `checks` in order on the key models `keys` with the pin levels
/// `bank`, check `i` taking its reading at the time `nows[i]`: the new
/// models, and the event bytes of the keys that changed state, in order.
pub open spec fn run_checks(
    keys: Seq<PinModel>,
    checks: Seq<KeyCheck>,
    bank: u32,
    nows: Seq<u64>,
    quarantine: u64,
) -> (Seq<PinModel>, Seq<u8>)
    decreases checks.len(),
{
    if checks.len() == 0 {
        (keys, Seq::empty())
    } else {
        let (ks, evs) = run_checks(keys, checks.drop_last(), bank, nows, quarantine);
        let c = checks.last();
        let pressed = pin_low(bank, c.row_pin);
        let (changed, m) = pin_step(ks[c.index as int], pressed, nows[checks.len() - 1], quarantine);
        (
            ks.update(c.index as int, m),
            if changed {
                evs.push(event_byte(c.index, pressed))
            } else {
                evs
            },
        )
    }
}

/// Only the times of the checks that were run matter.
proof fn lemma_run_checks_times(
    keys: Seq<PinModel>,
    checks: Seq<KeyCheck>,
    bank: u32,
    nows: Seq<u64>,
    nows2: Seq<u64>,
    quarantine: u64,
)
    requires
        checks.len() <= nows.len(),
        checks.len() <= nows2.len(),
        forall|i: int| 0 <= i < checks.len() ==> nows[i] == nows2[i],
    ensures
        run_checks(keys, checks, bank, nows, quarantine) == run_checks(keys, checks, bank, nows2, quarantine),
    decreases checks.len(),
{
    if checks.len() > 0 {
        lemma_run_checks_times(keys, checks.drop_last(), bank, nows, nows2, quarantine);
    }
}

/// The models of a sequence of keys.
pub open spec fn models<const D: u64>(states: Seq<PinState<D>>) -> Seq<PinModel> {
    states.map_values(|s: PinState<D>| s.model())
}

/// Reads one key: takes the level of its pin at `now` into the key's state
/// and returns the key's event byte when it changed state.
pub fn key_check<const D: u64>(state: &mut PinState<D>, check: KeyCheck, bank: u32, now: u64) -> (event:
    Option<u8>)
    requires
        check.row_pin < 32,
        check.index < 128,
    ensures
        ({
            let pressed = pin_low(bank, check.row_pin);
            let (changed, m) = pin_step(old(state).model(), pressed, now, D);
            &&& final(state).model() == m
            &&& event == if changed {
                Some(event_byte(check.index, pressed))
            } else {
                None
            }
        }),
{
    let pressed = key_pressed(bank, check.row_pin);
    if state.check(pressed, now) {
        Some(key_event(check.index, pressed))
    } else {
        None
    }
}

/// Reads the keys of `checks` in order, check `i` at the time `nows[i]`, as
/// a half that sends its events to the other half does; returns the event
/// bytes to send, in order.
pub fn run_key_checks<const D: u64>(
    states: &mut Vec<PinState<D>>,
    checks: &Vec<KeyCheck>,
    bank: u32,
    nows: &Vec<u64>,
) -> (events: Vec<u8>)
    requires
        forall|i: int| 0 <= i < checks.len() ==> check_fits(#[trigger] checks[i], old(states).len() as nat),
        nows.len() == checks.len(),
    ensures
        final(states).len() == old(states).len(),
        (models(final(states)@), events@) == run_checks(models(old(states)@), checks@, bank, nows@, D),
{
    let mut events: Vec<u8> = Vec::new();
    let mut i: usize = 0;
    let ghost keys0 = models(states@);
    while i < checks.len()
        invariant
            i <= checks.len(),
            states.len() == old(states).len(),
            keys0 == models(old(states)@),
            forall|j: int| 0 <= j < checks.len() ==> check_fits(#[trigger] checks[j], states.len() as nat),
            nows.len() == checks.len(),
            (models(states@), events@) == run_checks(
                keys0,
                checks@.take(i as int),
                bank,
                nows@.take(i as int),
                D,
            ),
        decreases checks.len() - i,
    {
        let check = checks[i];
        assert(check_fits(checks[i as int], states.len() as nat));
        let idx = check.index as usize;
        let mut state = states[idx];
        let ghost before = models(states@);
        let event = key_check(&mut state, check, bank, nows[i]);
        states.set(idx, state);
        if let Some(e) = event {
            events.push(e);
        }
        proof {
            assert(checks@.take(i + 1).drop_last() =~= checks@.take(i as int));
            lemma_run_checks_times(keys0, checks@.take(i as int), bank, nows@.take(i + 1), nows@.take(i as int), D);
            assert(models(states@) =~= before.update(idx as int, state.model()));
        }
        i += 1;
    }
    assert(checks@.take(checks.len() as int) =~= checks@);
    assert(nows@.take(nows.len() as int) =~= nows@);
    events
}

/// The checks of a keyboard wired directly: key `i` on pin `pins[i]`.
pub fn direct_plan(pins: &Vec<u8>) -> (checks: Vec<KeyCheck>)
    requires
        pins.len() <= 128,
    ensures
        checks@ == direct_checks(pins@),
{
    let mut checks: Vec<KeyCheck> = Vec::new();
    let mut i: usize = 0;
    while i < pins.len()
        invariant
            i <= pins.len() <= 128,
            checks@ == direct_checks(pins@.take(i as int)),
        decreases pins.len() - i,
    {
        checks.push(KeyCheck { row_pin: pins[i], index: i as u8 });
        i += 1;
        assert(checks@ =~= direct_checks(pins@.take(i as int)));
    }
    assert(pins@.take(pins.len() as int) =~= pins@);
    checks
}

/// Reads the keys of a keyboard wired directly, key `i` on pin `pins[i]` at
/// the time `nows[i]`, as a half that sends its events to the other half
/// does; returns the event bytes to send, in order.
pub fn direct_pin_check<const D: u64>(
    states: &mut Vec<PinState<D>>,
    pins: &Vec<u8>,
    bank: u32,
    nows: &Vec<u64>,
) -> (events: Vec<u8>)
    requires
        old(states).len() == pins.len(),
        nows.len() == pins.len(),
        pins.len() <= 128,
        forall|i: int| 0 <= i < pins.len() ==> #[trigger] pins[i] < 32,
    ensures
        final(states).len() == old(states).len(),
        (models(final(states)@), events@) == run_checks(
            models(old(states)@),
            direct_checks(pins@),
            bank,
            nows@,
            D,
        ),
{
    let checks = direct_plan(pins);
    assert forall|i: int| 0 <= i < checks.len() implies check_fits(#[trigger] checks[i], states.len() as nat) by {
        assert(checks[i] == direct_checks(pins@)[i]);
    }
    run_key_checks(states, &checks, bank, nows)
}

} // verus!
