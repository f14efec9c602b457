use rkb2040_lib::keymap::{
    KeyState, Keybind, KeymapSM, LayerSM, Mod, OneShotSM, FIRST_MODIFIER_CODE, SEQUENCE_LIMIT,
};
use rkb2040_lib::seq::BoundedSeq;
use usbd_human_interface_device::page::Keyboard;

const A: u8 = 0x04;
const B: u8 = 0x05;
const X: u8 = 0x1B;
const ONE: u8 = 0x1E;
const SPACE: u8 = 0x2C;

fn code(k: Keyboard) -> u8 {
    u8::from(k)
}

fn press(i: u8) -> u8 {
    i + 0x80
}

fn release(i: u8) -> u8 {
    i
}

fn report_of(sm: &KeymapSM<4, 2>) -> Option<Vec<u8>> {
    sm.get_scan().map(|s| s.to_vec())
}

fn keymap() -> [[Keybind; 4]; 2] {
    [
        [
            Keybind::Key(A),
            Keybind::OneShot(Mod::LeftShift),
            Keybind::Layer(1),
            Keybind::Combo(Mod::LeftControl, X),
        ],
        [Keybind::Key(ONE), Keybind::Mod(Mod::RightAlt), Keybind::NoOP, Keybind::Key(B)],
    ]
}

fn scan<const N: usize, const M: usize>(sm: &mut KeymapSM<N, M>, events: &[u8]) {
    sm.begin_scan();
    for &e in events {
        assert!(sm.accepts_event(e));
        sm.register_press(e);
    }
    sm.finish_scan();
}

#[test]
fn modifier_codes_match_the_keyboard_page() {
    assert_eq!(Mod::LeftControl.to_key(), code(Keyboard::LeftControl));
    assert_eq!(Mod::LeftShift.to_key(), code(Keyboard::LeftShift));
    assert_eq!(Mod::LeftAlt.to_key(), code(Keyboard::LeftAlt));
    assert_eq!(Mod::LeftGUI.to_key(), code(Keyboard::LeftGUI));
    assert_eq!(Mod::RightControl.to_key(), code(Keyboard::RightControl));
    assert_eq!(Mod::RightShift.to_key(), code(Keyboard::RightShift));
    assert_eq!(Mod::RightAlt.to_key(), code(Keyboard::RightAlt));
    assert_eq!(Mod::RightGUI.to_key(), code(Keyboard::RightGUI));
    assert_eq!(FIRST_MODIFIER_CODE, 0xE0);
}

#[test]
fn modifier_bits() {
    assert_eq!(Mod::LeftControl.to_byte(), 0b0000_0001);
    assert_eq!(Mod::LeftShift.to_byte(), 0b0000_0010);
    assert_eq!(Mod::LeftAlt.to_byte(), 0b0000_0100);
    assert_eq!(Mod::LeftGUI.to_byte(), 0b0000_1000);
    assert_eq!(Mod::RightControl.to_byte(), 0b0001_0000);
    assert_eq!(Mod::RightShift.to_byte(), 0b0010_0000);
    assert_eq!(Mod::RightAlt.to_byte(), 0b0100_0000);
    assert_eq!(Mod::RightGUI.to_byte(), 0b1000_0000);
}

#[test]
fn key_state_starts_released() {
    let s = KeyState::new();
    assert_eq!(s.last, Keybind::NoOP);
    assert!(!s.changed);
    assert!(!s.pressed);
}

#[test]
fn one_shot_masks() {
    let mut o = OneShotSM::new();
    assert!(!o.any());
    o.add(0b0000_0010);
    assert!(o.any());
    assert_eq!((o.pressed, o.active, o.used), (0b10, 0b10, 0));
    // Released before use: stays active.
    o.remove_if_used(0b0000_0010);
    assert_eq!((o.pressed, o.active, o.used), (0, 0b10, 0));
    assert!(o.any());
}

#[test]
fn one_shot_apply_adds_active_modifiers_in_bit_order() {
    let mut o = OneShotSM { pressed: 0b0000_0001, active: 0b1000_0101, used: 0 };
    let mut seq: BoundedSeq<u8, 16> = BoundedSeq::new();
    assert!(seq.add(A).is_ok());
    o.apply(&mut seq);
    assert_eq!(seq.to_vec(), vec![A, 0xE0, 0xE2, 0xE7]);
    assert_eq!((o.pressed, o.active, o.used), (0b1, 0, 0b1));
    // A modifier used while held ends on release.
    o.remove_if_used(0b1);
    assert_eq!((o.pressed, o.active, o.used), (0, 0, 0));
}

#[test]
fn one_shot_apply_stops_at_capacity() {
    let mut o = OneShotSM { pressed: 0, active: 0b0000_0011, used: 0 };
    let mut seq: BoundedSeq<u8, 2> = BoundedSeq::new();
    assert!(seq.add(A).is_ok());
    o.apply(&mut seq);
    assert_eq!(seq.to_vec(), vec![A, 0xE0]);
    assert!(!o.any());
}

#[test]
fn layer_stack_removes_newest_occurrence() {
    let mut l = LayerSM::new();
    assert_eq!(l.current_layer(), 0);
    l.add(2);
    l.add(5);
    l.add(2);
    l.add(7);
    assert_eq!(l.current_layer(), 7);
    l.remove(2);
    assert_eq!(l.current_layer(), 7);
    l.remove(7);
    assert_eq!(l.current_layer(), 5);
    l.remove(5);
    assert_eq!(l.current_layer(), 2);
    l.remove(9);
    assert_eq!(l.current_layer(), 2);
    l.remove(2);
    assert_eq!(l.current_layer(), 0);
    l.remove(0);
    assert_eq!(l.current_layer(), 0);
}

#[test]
fn key_press_and_release_are_reported() {
    let mut sm: KeymapSM<4, 2> = KeymapSM::new(keymap());
    assert!(report_of(&sm).is_none());
    scan(&mut sm, &[press(0)]);
    assert_eq!(report_of(&sm), Some(vec![A]));
    sm.clear_last_scan();
    assert!(report_of(&sm).is_none());
    // Nothing changed: nothing reported.
    scan(&mut sm, &[press(0)]);
    assert!(report_of(&sm).is_none());
    scan(&mut sm, &[release(0)]);
    assert_eq!(report_of(&sm), Some(vec![]));
}

#[test]
fn combo_reports_modifier_then_key() {
    let mut sm: KeymapSM<4, 2> = KeymapSM::new(keymap());
    scan(&mut sm, &[press(3)]);
    assert_eq!(report_of(&sm), Some(vec![code(Keyboard::LeftControl), X]));
}

#[test]
fn one_shot_modifier_applies_to_next_key() {
    let mut sm: KeymapSM<4, 2> = KeymapSM::new(keymap());
    // Tap the one shot shift: pressed, then released.
    scan(&mut sm, &[press(1)]);
    assert_eq!(report_of(&sm), Some(vec![code(Keyboard::LeftShift)]));
    sm.clear_last_scan();
    scan(&mut sm, &[release(1)]);
    assert_eq!(report_of(&sm), Some(vec![]));
    sm.clear_last_scan();
    // The next key comes with shift.
    scan(&mut sm, &[press(0)]);
    assert_eq!(report_of(&sm), Some(vec![A, code(Keyboard::LeftShift)]));
    sm.clear_last_scan();
    // And only that one.
    scan(&mut sm, &[release(0)]);
    assert_eq!(report_of(&sm), Some(vec![]));
    sm.clear_last_scan();
    scan(&mut sm, &[press(0)]);
    assert_eq!(report_of(&sm), Some(vec![A]));
}

#[test]
fn layer_key_switches_keybinds_while_held() {
    let mut sm: KeymapSM<4, 2> = KeymapSM::new(keymap());
    // A layer key alone reports nothing.
    scan(&mut sm, &[press(2)]);
    assert!(report_of(&sm).is_none());
    scan(&mut sm, &[press(0)]);
    assert_eq!(report_of(&sm), Some(vec![ONE]));
    sm.clear_last_scan();
    // Releasing the layer key keeps the held key's keybind.
    scan(&mut sm, &[release(2)]);
    assert!(report_of(&sm).is_none());
    scan(&mut sm, &[press(3)]);
    assert_eq!(report_of(&sm), Some(vec![ONE, code(Keyboard::LeftControl), X]));
    sm.clear_last_scan();
    scan(&mut sm, &[release(0), release(3)]);
    assert_eq!(report_of(&sm), Some(vec![]));
}

#[test]
fn noop_keys_report_nothing() {
    let mut quiet: KeymapSM<2, 1> = KeymapSM::new([[Keybind::NoOP, Keybind::NoOP]]);
    quiet.begin_scan();
    quiet.register_press(press(0));
    quiet.finish_scan();
    assert!(quiet.get_scan().is_none());
    quiet.begin_scan();
    quiet.register_press(release(0));
    quiet.finish_scan();
    assert!(quiet.get_scan().is_none());
}

#[test]
fn reports_are_capped_at_the_sequence_limit() {
    let mut map = [[Keybind::NoOP; 20]; 1];
    for i in 0..20 {
        map[0][i] = Keybind::Key(4 + i as u8);
    }
    let mut sm: KeymapSM<20, 1> = KeymapSM::new(map);
    sm.begin_scan();
    for i in 0..20u8 {
        sm.register_press(press(i));
    }
    sm.finish_scan();
    let r = sm.get_scan().map(|s| s.to_vec()).unwrap();
    assert_eq!(r.len(), SEQUENCE_LIMIT);
    assert_eq!(r, (4..20u8).collect::<Vec<u8>>());
}

#[test]
fn report_queue_drops_reports_when_full() {
    let mut sm: KeymapSM<1, 1> = KeymapSM::new([[Keybind::Key(SPACE)]]);
    for n in 0..20 {
        sm.begin_scan();
        sm.register_press(if n % 2 == 0 { press(0) } else { release(0) });
        sm.finish_scan();
    }
    let mut count = 0;
    while sm.get_scan().is_some() {
        let expected = if count % 2 == 0 { vec![SPACE] } else { vec![] };
        assert_eq!(sm.get_scan().unwrap().to_vec(), expected);
        sm.clear_last_scan();
        count += 1;
    }
    assert_eq!(count, 15);
}

#[test]
fn events_outside_the_keymap_are_refused() {
    let sm: KeymapSM<4, 2> = KeymapSM::new(keymap());
    assert!(!sm.accepts_event(press(4)));
    assert!(!sm.accepts_event(release(100)));
    assert!(sm.accepts_event(release(3)));
    let mut bad: KeymapSM<2, 1> = KeymapSM::new([[Keybind::Layer(3), Keybind::Key(A)]]);
    scan(&mut bad, &[press(0)]);
    bad.begin_scan();
    // Layer 3 is in effect but the keymap has one layer: a press finds no keybind.
    assert!(!bad.accepts_event(press(1)));
    assert!(bad.accepts_event(release(1)));
    assert!(bad.accepts_event(release(0)));
    assert!(bad.accepts_event(press(0)));
}
