use rkb2040_lib::bootloader::{double_tap_action, flag_before_wait, DoubleTapAction};
use rkb2040_lib::direct_keyboard::{key_event, remote_event, KeyCheck};
use rkb2040_lib::keymap::{Keybind, KeymapSM, LayerSM, Mod, OneShotSM};
use rkb2040_lib::matrix_keyboard::matrix_plan;
use rkb2040_lib::pin::PinDebouncer;
use rkb2040_lib::seq::BoundedSeq;

#[test]
fn layer_release_undoes_press() {
    let mut l = LayerSM::new();
    l.add(3);
    l.add(1);
    assert_eq!(l.current_layer(), 1);
    l.remove(1);
    assert_eq!(l.current_layer(), 3);
    assert_eq!(l.depth(), 1);
}

#[test]
fn layer_release_of_absent_layer_changes_nothing() {
    let mut l = LayerSM::new();
    l.add(3);
    l.remove(4);
    assert_eq!(l.depth(), 1);
    assert_eq!(l.current_layer(), 3);
}

#[test]
fn one_shot_survives_unused_release() {
    let mut o = OneShotSM::new();
    o.add(Mod::RightGUI.to_byte());
    o.remove_if_used(Mod::RightGUI.to_byte());
    assert_eq!(o.active, Mod::RightGUI.to_byte());
}

#[test]
fn one_shot_applied_while_held_ends_on_release() {
    let mut o = OneShotSM::new();
    o.add(Mod::LeftAlt.to_byte());
    let mut seq: BoundedSeq<u8, 16> = BoundedSeq::new();
    o.apply(&mut seq);
    assert_eq!(seq.to_vec(), vec![Mod::LeftAlt.to_key()]);
    assert!(!o.any());
    o.remove_if_used(Mod::LeftAlt.to_byte());
    assert_eq!(o.active & Mod::LeftAlt.to_byte(), 0);
    assert_eq!(o.used, 0);
}

#[test]
fn one_shot_adds_its_key() {
    for m in [Mod::LeftControl, Mod::LeftShift, Mod::RightAlt, Mod::RightGUI] {
        let mut o = OneShotSM { pressed: 0, active: m.to_byte(), used: 0 };
        let mut seq: BoundedSeq<u8, 16> = BoundedSeq::new();
        o.apply(&mut seq);
        assert_eq!(seq.to_vec(), vec![m.to_key()]);
    }
}

#[test]
fn event_round_trip() {
    let mut sm: KeymapSM<3, 1> = KeymapSM::new([[Keybind::Key(4), Keybind::Key(5), Keybind::Key(6)]]);
    sm.begin_scan();
    sm.register_press(key_event(2, true));
    sm.finish_scan();
    assert_eq!(sm.get_scan().unwrap().to_vec(), vec![6]);
}

#[test]
fn remote_event_offset() {
    // Key 1 of the other half, pressed, lands on key 17 + 1 of the keymap.
    let e = remote_event(key_event(1, true), 17);
    assert_eq!(e, 0x80 | 18);
    assert_eq!(remote_event(key_event(1, false), 17), 18);
}

#[test]
fn debounce_laws() {
    let mut d: PinDebouncer<100> = PinDebouncer::new();
    assert!(d.update(7, false));
    assert!(!d.update(106, true));
    assert!(d.update(206, true));
}

#[test]
fn noop_and_unchanged_keys_report_nothing() {
    let mut sm: KeymapSM<2, 2> = KeymapSM::new([
        [Keybind::NoOP, Keybind::Layer(1)],
        [Keybind::NoOP, Keybind::NoOP],
    ]);
    sm.begin_scan();
    sm.register_press(key_event(0, true));
    sm.register_press(key_event(1, true));
    sm.finish_scan();
    assert!(sm.get_scan().is_none());
}

#[test]
fn release_keeps_press_keybind() {
    let mut sm: KeymapSM<2, 2> = KeymapSM::new([
        [Keybind::Key(4), Keybind::Layer(1)],
        [Keybind::Key(30), Keybind::NoOP],
    ]);
    sm.begin_scan();
    sm.register_press(key_event(1, true));
    sm.finish_scan();
    sm.begin_scan();
    sm.register_press(key_event(0, true));
    sm.finish_scan();
    assert_eq!(sm.get_scan().unwrap().to_vec(), vec![30]);
    sm.clear_last_scan();
    sm.begin_scan();
    sm.register_press(key_event(1, false));
    sm.finish_scan();
    // Still the key of layer 1 while held.
    sm.begin_scan();
    sm.register_press(key_event(0, false));
    sm.finish_scan();
    assert_eq!(sm.get_scan().unwrap().to_vec(), Vec::<u8>::new());
}

#[test]
fn double_tap_enters_bootloader() {
    let armed = flag_before_wait(double_tap_action(0));
    assert_eq!(double_tap_action(armed), DoubleTapAction::EnterBootloader);
    assert_eq!(double_tap_action(flag_before_wait(DoubleTapAction::EnterBootloader)), DoubleTapAction::Arm);
}

#[test]
fn matrix_reads_every_key() {
    let rows = vec![3u8, 11];
    let keys = vec![(1usize, 1usize), (0, 0), (1, 0)];
    let plan = matrix_plan(2, &rows, &keys);
    let all: Vec<KeyCheck> = plan.iter().flat_map(|c| c.checks.clone()).collect();
    assert!(all.contains(&KeyCheck { row_pin: 11, index: 0 }));
    assert!(all.contains(&KeyCheck { row_pin: 3, index: 1 }));
    assert!(all.contains(&KeyCheck { row_pin: 3, index: 2 }));
    assert_eq!(plan[1].settle_mask, (1 << 3) | (1 << 11));
}

#[test]
fn repeated_event_is_ignored() {
    let mut sm: KeymapSM<2, 2> = KeymapSM::new([
        [Keybind::Key(4), Keybind::Layer(1)],
        [Keybind::Key(30), Keybind::NoOP],
    ]);
    sm.begin_scan();
    sm.register_press(key_event(0, true));
    sm.register_press(key_event(0, true));
    sm.finish_scan();
    assert_eq!(sm.get_scan().unwrap().to_vec(), vec![4]);
    sm.clear_last_scan();
    sm.begin_scan();
    sm.register_press(key_event(0, true));
    sm.finish_scan();
    assert!(sm.get_scan().is_none());
}
