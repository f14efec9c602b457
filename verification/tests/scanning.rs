use rkb2040_lib::bootloader::{double_tap_action, flag_before_wait, DoubleTapAction, RESET_FLAG};
use rkb2040_lib::debounce::{self, QUARANTINE_MICROS};
use rkb2040_lib::direct_keyboard::{
    direct_pin_check, direct_plan, key_check, key_event, key_pressed, remote_event, run_key_checks,
    KeyCheck,
};
use rkb2040_lib::keymap::{Keybind, KeymapSM};
use rkb2040_lib::matrix_keyboard::{column_settled, matrix_plan};
use rkb2040_lib::pin::{keys_to_states, DirectKeyPin, PinDebouncer, PinState};
use rkb2040_lib::runtime::{report_written, transfer_ok, HidOutcome};

const D: u64 = 50_000;

#[test]
fn debouncer_accepts_first_reading() {
    let mut d: PinDebouncer<D> = PinDebouncer::new();
    assert!(d.update(1_000, true));
}

#[test]
fn default_debouncers_start_fresh() {
    let mut d: PinDebouncer<D> = PinDebouncer::default();
    assert!(d.update(1_000, true));
    assert!(!d.update(1_001, false));
    let mut f = debounce::PinDebouncer::default();
    assert!(f.update(7, false));
    assert!(!f.update(8, true));
}

#[test]
fn debouncer_holds_back_bounces() {
    let mut d: PinDebouncer<D> = PinDebouncer::new();
    assert!(d.update(1_000, true));
    // Bounces within the window are refused; each new reading restarts it.
    assert!(!d.update(1_200, false));
    assert!(!d.update(40_000, true));
    // The same reading does not restart the window.
    assert!(!d.update(80_000, true));
    assert!(d.update(90_000, false));
    // The accepted reading starts a fresh window.
    assert!(!d.update(90_001, true));
    assert!(d.update(140_001, true));
}

#[test]
fn debouncer_accepts_at_the_window_edge() {
    let mut d: PinDebouncer<D> = PinDebouncer::new();
    assert!(d.update(0, true));
    assert!(!d.update(D - 1, false));
    assert!(d.update(2 * D - 1, false));
}

#[test]
fn debouncer_accepts_a_reading_from_before_the_last_touch() {
    let mut d: PinDebouncer<D> = PinDebouncer::new();
    assert!(d.update(1_000, true));
    assert!(d.update(500, false));
}

#[test]
fn debouncer_counts_through_a_timer_wrap() {
    let mut d: PinDebouncer<D> = PinDebouncer::new();
    assert!(d.update(u64::MAX - 10, true));
    // 21 ticks later, across the wrap: still within the window.
    assert!(!d.update(10, false));
    assert!(d.update(60_000, false));
}

#[test]
fn fixed_quarantine_debouncer() {
    let mut d = debounce::PinDebouncer::new();
    assert!(d.update(5, true));
    assert!(!d.update(5 + QUARANTINE_MICROS - 1, false));
    assert!(d.update(5 + 2 * QUARANTINE_MICROS, false));
    let s = debounce::PinState::new();
    assert!(!s.pressed);
}

#[test]
fn pin_state_check_changes_only_on_accepted_readings() {
    let mut s: PinState<D> = PinState::new();
    assert!(!s.check(false, 0));
    assert!(s.check(true, 10));
    assert!(s.pressed);
    assert!(!s.check(false, 20));
    assert!(s.pressed);
    assert!(s.check(false, 60_020));
    assert!(!s.pressed);
    let k: DirectKeyPin<u8, D> = DirectKeyPin::new(7);
    assert_eq!(k.pin, 7);
    assert!(!k.state.pressed);
}

#[test]
fn pin_levels_and_events() {
    assert!(key_pressed(0b1111_0111, 3));
    assert!(!key_pressed(0b1111_0111, 2));
    assert!(key_pressed(0x7FFF_FFFF, 31));
    assert_eq!(key_event(5, true), 0x85);
    assert_eq!(key_event(5, false), 5);
    assert_eq!(key_event(127, true), 0xFF);
    assert_eq!(remote_event(0x85, 17), 0x96);
    assert_eq!(remote_event(3, 17), 20);
    assert_eq!(remote_event(250, 10), 4);
}

#[test]
fn key_check_reports_changes() {
    let mut s: PinState<D> = PinState::new();
    let c = KeyCheck { row_pin: 4, index: 9 };
    assert_eq!(key_check(&mut s, c, !(1 << 4), 100), Some(0x89));
    assert_eq!(key_check(&mut s, c, !(1 << 4), 200), None);
    assert_eq!(key_check(&mut s, c, u32::MAX, 300), None);
    assert_eq!(key_check(&mut s, c, u32::MAX, 60_000), Some(9));
}

#[test]
fn direct_scan_reports_in_key_order() {
    let pins = vec![7u8, 26, 27];
    let plan = direct_plan(&pins);
    assert_eq!(
        plan,
        vec![
            KeyCheck { row_pin: 7, index: 0 },
            KeyCheck { row_pin: 26, index: 1 },
            KeyCheck { row_pin: 27, index: 2 }
        ]
    );
    let mut states: Vec<PinState<D>> = keys_to_states(3);
    let bank = !((1u32 << 26) | (1u32 << 7));
    assert_eq!(direct_pin_check(&mut states, &pins, bank, &vec![1_000, 1_001, 1_002]), vec![0x80, 0x81]);
    assert!(states[0].pressed && states[1].pressed && !states[2].pressed);
    assert_eq!(direct_pin_check(&mut states, &pins, u32::MAX, &vec![2_000; 3]), Vec::<u8>::new());
    // Each key is debounced at its own reading time: key 1's release comes
    // too early, key 0's does not.
    assert_eq!(direct_pin_check(&mut states, &pins, u32::MAX, &vec![52_000, 51_999, 52_002]), vec![0]);
    assert_eq!(direct_pin_check(&mut states, &pins, u32::MAX, &vec![100_000; 3]), vec![1]);
}

#[test]
fn matrix_plan_of_a_split_half() {
    // Three columns, two rows (pins 26 and 5); column 1 holds no key.
    let rows = vec![26u8, 5];
    let keys = vec![(2usize, 0usize), (0, 0), (0, 1), (2, 1), (0, 1)];
    let plan = matrix_plan(3, &rows, &keys);
    assert_eq!(plan.len(), 2);
    assert_eq!(plan[0].column, 0);
    assert_eq!(
        plan[0].checks,
        vec![KeyCheck { row_pin: 26, index: 1 }, KeyCheck { row_pin: 5, index: 2 }]
    );
    assert_eq!(plan[0].settle_mask, (1 << 26) | (1 << 5));
    assert_eq!(plan[1].column, 2);
    assert_eq!(
        plan[1].checks,
        vec![KeyCheck { row_pin: 26, index: 0 }, KeyCheck { row_pin: 5, index: 3 }]
    );
    assert_eq!(plan[1].settle_mask, (1 << 26) | (1 << 5));
    let mut states: Vec<PinState<D>> = keys_to_states(5);
    let events = run_key_checks(&mut states, &plan[1].checks, !(1u32 << 5), &vec![10, 11]);
    assert_eq!(events, vec![0x83]);
    assert!(column_settled(u32::MAX, plan[0].settle_mask));
    assert!(!column_settled(!(1u32 << 5), plan[0].settle_mask));
}

#[test]
fn matrix_plan_of_the_skeletyl() {
    let rows = vec![26u8, 5, 4, 9];
    let keys: Vec<(usize, usize)> = vec![
        (4, 0), (3, 0), (2, 0), (1, 0), (0, 0),
        (4, 1), (3, 1), (2, 1), (1, 1), (0, 1),
        (4, 2), (3, 2), (2, 2), (1, 2), (0, 2),
        (2, 3), (1, 3), (4, 3),
    ];
    let plan = matrix_plan(5, &rows, &keys);
    assert_eq!(plan.len(), 5);
    let total: usize = plan.iter().map(|c| c.checks.len()).sum();
    assert_eq!(total, 18);
    assert_eq!(plan[0].checks.len(), 3);
    assert_eq!(plan[0].settle_mask, (1 << 26) | (1 << 5) | (1 << 4));
    assert_eq!(plan[4].checks[3], KeyCheck { row_pin: 9, index: 17 });
}

#[test]
fn double_tap_of_reset() {
    assert_eq!(double_tap_action(0), DoubleTapAction::Arm);
    assert_eq!(double_tap_action(RESET_FLAG), DoubleTapAction::EnterBootloader);
    assert_eq!(double_tap_action(0xDEAD_BEEF), DoubleTapAction::Arm);
    assert_eq!(flag_before_wait(DoubleTapAction::Arm), RESET_FLAG);
    assert_eq!(flag_before_wait(DoubleTapAction::EnterBootloader), 0);
    // A reset during the wait finds the flag armed.
    assert_eq!(
        double_tap_action(flag_before_wait(double_tap_action(0))),
        DoubleTapAction::EnterBootloader
    );
}

#[test]
fn report_outcomes() {
    let mut sm: KeymapSM<1, 1> = KeymapSM::new([[Keybind::Key(4)]]);
    sm.begin_scan();
    sm.register_press(0x80);
    sm.finish_scan();
    assert!(report_written(&mut sm, HidOutcome::WouldBlock));
    assert!(sm.get_scan().is_some());
    assert!(report_written(&mut sm, HidOutcome::Duplicate));
    assert!(sm.get_scan().is_some());
    assert!(!report_written(&mut sm, HidOutcome::Failed));
    assert!(sm.get_scan().is_some());
    assert!(report_written(&mut sm, HidOutcome::Done));
    assert!(sm.get_scan().is_none());
    assert!(transfer_ok(HidOutcome::Done));
    assert!(transfer_ok(HidOutcome::WouldBlock));
    assert!(!transfer_ok(HidOutcome::Duplicate));
    assert!(!transfer_ok(HidOutcome::Failed));
}
