use vstd::prelude::*;
use crate::bootloader::{action_for, flag_for, DoubleTapAction};
use crate::direct_keyboard::{direct_checks, KeyCheck};
use crate::keymap::{
    bounded_push, SEQUENCE_LIMIT, event_byte, event_position, event_pressed, modifier_codes, one_shot_added, one_shot_applied,
    one_shot_released, registered, remove_last_occurrence, scan_fold, scan_step, Keybind, KeyState,
    LayerSM, Mod, OneShotSM, ScanProgress, FIRST_MODIFIER_CODE,
};
use crate::matrix_keyboard::{column_checks, column_mask, first_key_at};
use crate::pin::{debounce, DebounceState};
use crate::layout::{int_list, key_seq, LayoutToken};
use crate::time::duration_since;

verus! {

/// Releasing a layer key right after pressing it restores the layer stack,
/// and while it is held its layer is the one in effect.
pub proof fn law_layer_release_undoes_press(layers: Seq<usize>, v: usize)
    ensures
        remove_last_occurrence(layers.push(v), v) == layers,
        LayerSM::top(layers.push(v)) == v,
{
    assert(layers.push(v).remove(layers.len() as int) =~= layers);
}

/// Releasing a layer that is not on the stack changes nothing.
pub proof fn law_layer_release_of_absent_layer(layers: Seq<usize>, v: usize)
    requires
        !layers.contains(v),
    ensures
        remove_last_occurrence(layers, v) == layers,
{
    assert forall|j: int| -1 < j < layers.len() implies layers[j] != v by {
        if layers[j] == v {
            assert(layers.contains(v));
        }
    }
    crate::keymap::lemma_last_index_of(layers, v, -1);
}

/// A one shot modifier pressed and released before any key used it stays
/// active for the next key.
pub proof fn law_one_shot_survives_unused_release(o: OneShotSM, m: Mod)
    requires
        o.used & m.bit() == 0,
    ensures
        one_shot_released(one_shot_added(o, m.bit()), m.bit()).active == o.active | m.bit(),
        one_shot_released(one_shot_added(o, m.bit()), m.bit()).active & m.bit() == m.bit(),
{
    let b = m.bit();
    let a = o.active;
    assert(((a | b) & b) == b) by (bit_vector);
}

/// A one shot modifier that was applied to a key while still held stops
/// being active when released.
pub proof fn law_one_shot_applied_while_held_ends_on_release(o: OneShotSM, m: Mod)
    ensures
        one_shot_released(one_shot_applied(one_shot_added(o, m.bit())), m.bit()).active & m.bit() == 0,
{
    let b = m.bit();
    let u = o.used;
    let a = o.active;
    let p = o.pressed;
    crate::keymap::lemma_single_bits();
    assert(b != 0);
    assert(b != 0 ==> (u | ((a | b) & (p | b))) & b != 0) by (bit_vector);
    assert((0u8 & (0xFFu8 ^ b)) & b == 0) by (bit_vector);
}

/// Applying one shot modifiers consumes them all.
pub proof fn law_one_shot_apply_consumes(o: OneShotSM)
    ensures
        one_shot_applied(o).active == 0,
        one_shot_applied(o).pressed == o.pressed,
{
}

/// The one shot of a modifier adds exactly that modifier's key.
pub proof fn law_one_shot_adds_its_key(m: Mod)
    ensures
        modifier_codes(m.bit() as nat, FIRST_MODIFIER_CODE as nat) == seq![m.code()],
{
    crate::keymap::lemma_single_bits();
    reveal_with_fuel(modifier_codes, 9);
    assert(modifier_codes(m.bit() as nat, FIRST_MODIFIER_CODE as nat) =~= seq![m.code()]);
}

/// An event byte made for key `index` names that key and says whether it
/// went down.
pub proof fn law_event_round_trip(index: u8, pressed: bool)
    requires
        index < 128,
    ensures
        event_position(event_byte(index, pressed)) == index,
        event_pressed(event_byte(index, pressed)) == pressed,
{
}

/// An event from the other half, shifted past this half's `key_count` keys,
/// names the key `key_count + index` and keeps whether it went down.
pub proof fn law_remote_event_offset(index: u8, pressed: bool, key_count: u8)
    requires
        index + key_count < 128,
    ensures
        event_byte(index, pressed) + key_count <= u8::MAX,
        event_position((event_byte(index, pressed) + key_count) as u8) == index + key_count,
        event_pressed((event_byte(index, pressed) + key_count) as u8) == pressed,
{
}

/// A debouncer that has seen no reading accepts the first one.
pub proof fn law_debounce_accepts_first(now: u64, state: bool, quarantine: u64)
    ensures
        debounce(DebounceState { last_touch: None, quarantined: None }, now, state, quarantine).0,
{
}

/// After accepting a reading at `t0`, a debouncer refuses any reading taken
/// less than `quarantine` microseconds later.
pub proof fn law_debounce_refuses_bounce(
    d: DebounceState,
    t0: u64,
    s0: bool,
    t1: u64,
    s1: bool,
    quarantine: u64,
)
    requires
        debounce(d, t0, s0, quarantine).0,
        duration_since(t1, t0) matches Some(x) && x < quarantine,
    ensures
        !debounce(debounce(d, t0, s0, quarantine).1, t1, s1, quarantine).0,
{
}

/// A debouncer accepts a reading taken at least `quarantine` microseconds
/// after its last touch.
pub proof fn law_debounce_accepts_after_quarantine(
    d: DebounceState,
    now: u64,
    state: bool,
    quarantine: u64,
)
    requires
        d.last_touch matches Some(t) && duration_since(now, t) matches Some(x) && x >= quarantine,
    ensures
        debounce(d, now, state, quarantine).0,
        debounce(d, now, state, quarantine).1 == (DebounceState {
            last_touch: Some(now),
            quarantined: None,
        }),
{
}

/// A key keeps the keybind it was pressed with until it is released, even
/// when the layer changed in between; releasing it marks it changed and
/// released.
pub proof fn law_release_keeps_press_keybind(
    states: Seq<KeyState>,
    keymap: Seq<Seq<Keybind>>,
    press_layer: usize,
    release_layer: usize,
    index: u8,
)
    requires
        index < 128,
        index < states.len(),
        !states[index as int].pressed,
    ensures
        ({
            let pressed = registered(states, keymap, press_layer, event_byte(index, true));
            let released = registered(pressed, keymap, release_layer, event_byte(index, false));
            &&& pressed[index as int].last == keymap[press_layer as int][index as int]
            &&& released[index as int] == (KeyState {
                last: keymap[press_layer as int][index as int],
                changed: true,
                pressed: false,
            })
        }),
{
}

/// A held combo key puts its modifier and then its key in the report, as
/// far as the report has room, and counts as a key other than a modifier.
pub proof fn law_combo_reports_modifier_and_key(p: ScanProgress, st: KeyState, m: Mod, k: u8)
    requires
        st.last == Keybind::Combo(m, k),
        st.pressed,
    ensures
        scan_step(p, st).keys == bounded_push(
            bounded_push(p.keys, m.code(), SEQUENCE_LIMIT as nat),
            k,
            SEQUENCE_LIMIT as nat,
        ),
        p.keys.len() + 2 <= SEQUENCE_LIMIT ==> scan_step(p, st).keys == p.keys.push(m.code()).push(k),
        scan_step(p, st).non_mod,
{
}

/// Keys of a keyboard wired directly are numbered in the order of its
/// layout: key `i` is read on the `i`-th pin.
pub proof fn law_direct_keys_in_layout_order(pins: Seq<u8>, i: int)
    requires
        0 <= i < pins.len() <= 128,
    ensures
        direct_checks(pins)[i] == (KeyCheck { row_pin: pins[i], index: i as u8 }),
        direct_checks(pins).len() == pins.len(),
{
}

/// Keys of a matrix are numbered in the order of its key list: the key
/// listed `k`-th at column `c` and row `r` is key `k`, when no earlier key
/// sits there.
pub proof fn law_matrix_keys_in_layout_order(keys: Seq<(usize, usize)>, k: int)
    requires
        0 <= k < keys.len(),
        forall|j: int| 0 <= j < k ==> #[trigger] keys[j] != keys[k],
    ensures
        first_key_at(keys, keys[k].0 as int, keys[k].1 as int) == k,
    decreases keys.len(),
{
    let c = keys[k].0 as int;
    let r = keys[k].1 as int;
    if k < keys.len() - 1 {
        let d = keys.drop_last();
        assert(d[k] == keys[k]);
        assert forall|j: int| 0 <= j < k implies #[trigger] d[j] != d[k] by {
            assert(d[j] == keys[j]);
        }
        law_matrix_keys_in_layout_order(d, k);
    } else {
        lemma_no_key_before(keys.drop_last(), c, r);
    }
}

/// Without a key at column `c` and row `r`, `first_key_at` finds none.
proof fn lemma_no_key_before(keys: Seq<(usize, usize)>, c: int, r: int)
    requires
        forall|j: int| 0 <= j < keys.len() ==> !(#[trigger] keys[j].0 == c && keys[j].1 == r),
    ensures
        first_key_at(keys, c, r) == -1,
    decreases keys.len(),
{
    if keys.len() > 0 {
        assert forall|j: int| 0 <= j < keys.len() - 1 implies !(#[trigger] keys.drop_last()[j].0
            == c && keys.drop_last()[j].1 == r) by {
            assert(keys.drop_last()[j] == keys[j]);
        }
        lemma_no_key_before(keys.drop_last(), c, r);
        assert(!(keys[keys.len() - 1].0 == c && keys[keys.len() - 1].1 == r));
    }
}

/// An event byte repeated acts as once: the second finds the key already in
/// the state it names and is ignored, whatever layer is then active.
pub proof fn law_repeated_event_is_ignored(
    states: Seq<KeyState>,
    keymap: Seq<Seq<Keybind>>,
    layer: usize,
    later_layer: usize,
    pos: u8,
)
    requires
        event_position(pos) < states.len(),
    ensures
        registered(registered(states, keymap, layer, pos), keymap, later_layer, pos) == registered(
            states,
            keymap,
            layer,
            pos,
        ),
{
}

/// A key bound to nothing leaves a scan as it is, pressed or released.
pub proof fn law_noop_key_is_silent(p: ScanProgress, st: KeyState)
    requires
        st.last == Keybind::NoOP,
    ensures
        scan_step(p, st) == p,
{
}

/// Whether a key's state can make a scan reportable: it changed, and it is
/// bound to something other than nothing or a layer.
pub open spec fn counts_for_report(st: KeyState) -> bool {
    st.changed && !(st.last is NoOP) && !(st.last is Layer)
}

/// A scan in which no key that counts for reports changed is not
/// reportable, so finishing it queues no report.
pub proof fn law_no_report_without_change(p: ScanProgress, states: Seq<KeyState>)
    requires
        !p.reportable,
        forall|i: int| 0 <= i < states.len() ==> !counts_for_report(#[trigger] states[i]),
    ensures
        !scan_fold(p, states).reportable,
    decreases states.len(),
{
    if states.len() > 0 {
        assert(!counts_for_report(states[states.len() - 1]));
        law_no_report_without_change(p, states.drop_last());
    }
}

/// A scan in which a key bound to a key, a modifier, a combo or a one shot
/// changed is reportable.
pub proof fn law_changed_key_makes_report(p: ScanProgress, states: Seq<KeyState>, i: int)
    requires
        0 <= i < states.len(),
        counts_for_report(states[i]),
    ensures
        scan_fold(p, states).reportable,
    decreases states.len(),
{
    if i < states.len() - 1 {
        law_changed_key_makes_report(p, states.drop_last(), i);
    }
    law_reportable_stays(p, states);
}

/// Once reportable, a scan stays reportable.
proof fn law_reportable_stays(p: ScanProgress, states: Seq<KeyState>)
    ensures
        states.len() > 0 && scan_fold(p, states.drop_last()).reportable ==> scan_fold(p, states).reportable,
        states.len() > 0 && counts_for_report(states.last()) ==> scan_fold(p, states).reportable,
{
}

/// The flag left by a reset that arms the double tap makes the next reset,
/// during the wait, enter the bootloader; a cleared flag arms again.
pub proof fn law_double_tap_enters_bootloader()
    ensures
        action_for(flag_for(DoubleTapAction::Arm)) == DoubleTapAction::EnterBootloader,
        action_for(flag_for(DoubleTapAction::EnterBootloader)) == DoubleTapAction::Arm,
        action_for(0) == DoubleTapAction::Arm,
{
}

/// Every key placed at a row of column `c` is read when column `c` is
/// scanned, on its row's pin, and that row counts for the settle mask.
pub proof fn law_matrix_reads_every_key(keys: Seq<(usize, usize)>, rows: Seq<u8>, c: int, r: int)
    requires
        0 <= r < rows.len(),
        first_key_at(keys, c, r) >= 0,
    ensures
        column_checks(keys, rows, c).contains(
            KeyCheck { row_pin: rows[r], index: first_key_at(keys, c, r) as u8 },
        ),
        column_mask(keys, rows, c) & (1u32 << rows[r]) == (1u32 << rows[r]),
    decreases rows.len(),
{
    let last = rows.len() - 1;
    let prev_checks = column_checks(keys, rows.drop_last(), c);
    let prev_mask = column_mask(keys, rows.drop_last(), c);
    let bit = 1u32 << rows[r];
    if r < last {
        law_matrix_reads_every_key(keys, rows.drop_last(), c, r);
        assert(rows.drop_last()[r] == rows[r]);
        let k = KeyCheck { row_pin: rows[r], index: first_key_at(keys, c, r) as u8 };
        let j = choose|j: int| 0 <= j < prev_checks.len() && prev_checks[j] == k;
        if first_key_at(keys, c, last) >= 0 {
            let nb = 1u32 << rows.last();
            assert(column_checks(keys, rows, c)[j] == k);
            assert((prev_mask & bit) == bit ==> ((prev_mask | nb) & bit) == bit) by (bit_vector);
        }
    } else {
        let nb = bit;
        assert(((prev_mask | nb) & nb) == nb) by (bit_vector);
        assert(column_checks(keys, rows, c).last() == KeyCheck {
            row_pin: rows[r],
            index: first_key_at(keys, c, r) as u8,
        });
    }
}

/// Items leave a queue in the order they entered: appending at the back
/// leaves the front item, and what follows it, in place.
pub proof fn law_queue_fifo<T>(items: Seq<T>, x: T)
    ensures
        items.len() == 0 ==> items.push(x)[0] == x && items.push(x).drop_first() == items,
        items.len() > 0 ==> items.push(x)[0] == items[0] && items.push(x).drop_first()
            == items.drop_first().push(x),
{
    if items.len() == 0 {
        assert(items.push(x).drop_first() =~= items);
    } else {
        assert(items.push(x).drop_first() =~= items.drop_first().push(x));
    }
}

/// In a list of integers the commas are optional, and one may follow the
/// last integer.
pub proof fn law_int_list_commas_optional(a: Option<u64>, b: Option<u64>)
    ensures
        int_list(seq![LayoutToken::Int(a), LayoutToken::Int(b)]) == int_list(
            seq![LayoutToken::Int(a), LayoutToken::Comma, LayoutToken::Int(b)],
        ),
        int_list(seq![LayoutToken::Int(a), LayoutToken::Comma, LayoutToken::Int(b), LayoutToken::Comma])
            == Ok::<Seq<Option<u64>>, crate::layout::LayoutError>(seq![a, b]),
{
    let t1 = seq![LayoutToken::Int(a), LayoutToken::Int(b)];
    let t2 = seq![LayoutToken::Int(a), LayoutToken::Comma, LayoutToken::Int(b)];
    let t3 = seq![LayoutToken::Int(a), LayoutToken::Comma, LayoutToken::Int(b), LayoutToken::Comma];
    assert(t1.skip(1) =~= seq![LayoutToken::Int(b)]);
    assert(t2.skip(2) =~= seq![LayoutToken::Int(b)]);
    assert(t3.skip(2) =~= seq![LayoutToken::Int(b), LayoutToken::Comma]);
    assert(seq![LayoutToken::Int(b)].skip(1) =~= Seq::<LayoutToken>::empty());
    assert(seq![LayoutToken::Int(b), LayoutToken::Comma].skip(2) =~= Seq::<LayoutToken>::empty());
    assert(seq![b] + Seq::<Option<u64>>::empty() =~= seq![b]);
    assert(seq![a] + seq![b] =~= seq![a, b]);
    let tb = seq![LayoutToken::Int(b)];
    let tbc = seq![LayoutToken::Int(b), LayoutToken::Comma];
    assert(int_list(Seq::<LayoutToken>::empty()) == Ok::<Seq<Option<u64>>, crate::layout::LayoutError>(
        Seq::empty(),
    ));
    assert(tb[0] == LayoutToken::Int(b));
    assert(int_list(tb) == Ok::<Seq<Option<u64>>, crate::layout::LayoutError>(seq![b]));
    assert(tbc[0] == LayoutToken::Int(b) && tbc[1] == LayoutToken::Comma);
    assert(int_list(tbc) == Ok::<Seq<Option<u64>>, crate::layout::LayoutError>(seq![b]));
    assert(t3[0] == LayoutToken::Int(a) && t3[1] == LayoutToken::Comma);
    assert(t2[0] == LayoutToken::Int(a) && t2[1] == LayoutToken::Comma);
    assert(t1[0] == LayoutToken::Int(a) && t1[1] == LayoutToken::Int(b));
}

/// A key description reads as its column and row.
pub proof fn law_key_seq_single(x: Option<u64>, y: Option<u64>)
    ensures
        key_seq(
            seq![
                LayoutToken::Open,
                LayoutToken::Int(x),
                LayoutToken::Comma,
                LayoutToken::Int(y),
                LayoutToken::Close,
            ],
        ) == Ok::<Seq<(Option<u64>, Option<u64>)>, crate::layout::LayoutError>(seq![(x, y)]),
{
    let t = seq![
        LayoutToken::Open,
        LayoutToken::Int(x),
        LayoutToken::Comma,
        LayoutToken::Int(y),
        LayoutToken::Close,
    ];
    assert(t.skip(5) =~= Seq::<LayoutToken>::empty());
    assert(seq![(x, y)] + Seq::<(Option<u64>, Option<u64>)>::empty() =~= seq![(x, y)]);
    assert(key_seq(Seq::<LayoutToken>::empty()) == Ok::<Seq<(Option<u64>, Option<u64>)>, crate::layout::LayoutError>(
        Seq::empty(),
    ));
    assert(t[0] == LayoutToken::Open && t[1] == LayoutToken::Int(x) && t[2] == LayoutToken::Comma
        && t[3] == LayoutToken::Int(y) && t[4] == LayoutToken::Close);
}

} // verus!

verus! {

/// A held plain modifier key puts its own usage code, 0xE0 plus its
/// position in the modifier byte (Left Shift: 0xE1), in the report, as far
/// as the report has room; a released one puts nothing.
pub proof fn law_mod_key_reports_its_usage_code(p: ScanProgress, st: KeyState, m: Mod)
    requires
        st.last == Keybind::Mod(m),
    ensures
        st.pressed ==> scan_step(p, st).keys == bounded_push(p.keys, m.code(), SEQUENCE_LIMIT as nat),
        st.pressed && p.keys.len() < SEQUENCE_LIMIT ==> scan_step(p, st).keys == p.keys.push(
            (FIRST_MODIFIER_CODE + m.index()) as u8,
        ),
        st.pressed && p.keys.len() < SEQUENCE_LIMIT ==> 0xE0 <= scan_step(p, st).keys.last() <= 0xE7,
        st.pressed && p.keys.len() < SEQUENCE_LIMIT && m == Mod::LeftShift ==> scan_step(
            p,
            st,
        ).keys.last() == 0xE1,
        !st.pressed ==> scan_step(p, st).keys == p.keys,
{
}

/// A plain modifier key, held or not, never counts as a key other than a
/// modifier: it neither triggers the one shot modifiers nor uses them up.
pub proof fn law_mod_key_does_not_trigger_one_shots(p: ScanProgress, st: KeyState, m: Mod)
    requires
        st.last == Keybind::Mod(m),
    ensures
        scan_step(p, st).non_mod == p.non_mod,
        scan_step(p, st).one_shots == p.one_shots,
        crate::keymap::applies_one_shots(scan_step(p, st)) == crate::keymap::applies_one_shots(p),
{
}

/// Releasing a layer key removes the newest occurrence of that key's own
/// layer, wherever it is in the stack; a layer pushed later by a key still
/// held stays in effect.
pub proof fn law_layer_release_removes_its_own_layer(
    p: ScanProgress,
    st: KeyState,
    l: u8,
    below: Seq<usize>,
    t: usize,
)
    requires
        st.last == Keybind::Layer(l),
        st.changed,
        !st.pressed,
    ensures
        scan_step(p, st).layers == remove_last_occurrence(p.layers, l as usize),
        p.layers == below.push(l as usize).push(t) && t != l as usize ==> scan_step(p, st).layers
            == below.push(t),
        p.layers == below.push(l as usize).push(t) && t != l as usize ==> LayerSM::top(
            scan_step(p, st).layers,
        ) == t,
{
    if p.layers == below.push(l as usize).push(t) && t != l as usize {
        let s = below.push(l as usize).push(t);
        crate::keymap::lemma_last_index_of(s, l as usize, below.len() as int);
        assert(s.remove(below.len() as int) =~= below.push(t));
    }
}

/// A one shot modifier that was used while held always stops being active
/// when released, whatever else is active; its key and its use are cleared.
pub proof fn law_used_one_shot_ends_on_release(o: OneShotSM, m: Mod)
    requires
        o.used & m.bit() != 0,
    ensures
        one_shot_released(o, m.bit()).active & m.bit() == 0,
        one_shot_released(o, m.bit()).used & m.bit() == 0,
        one_shot_released(o, m.bit()).pressed & m.bit() == 0,
{
    let b = m.bit();
    let a = o.active;
    let u = o.used;
    let q = o.pressed;
    assert((a & (0xFFu8 ^ b)) & b == 0) by (bit_vector);
    assert((u & (0xFFu8 ^ b)) & b == 0) by (bit_vector);
    assert((q & (0xFFu8 ^ b)) & b == 0) by (bit_vector);
}

/// Releasing a one shot key that was used while held leaves its modifier
/// inactive in the scan, so the next key is not modified by it.
pub proof fn law_used_one_shot_key_release(p: ScanProgress, st: KeyState, m: Mod)
    requires
        st.last == Keybind::OneShot(m),
        st.changed,
        !st.pressed,
        p.one_shots.used & m.bit() != 0,
    ensures
        scan_step(p, st).one_shots.active & m.bit() == 0,
        scan_step(p, st).one_shots.pressed & m.bit() == 0,
{
    law_used_one_shot_ends_on_release(p.one_shots, m);
}

/// Pressing a layer key pushes its layer, which is then in effect; a layer
/// key that did not change leaves the stack as it is. Layer keys never
/// touch the report.
pub proof fn law_layer_press_pushes_its_layer(p: ScanProgress, st: KeyState, l: u8)
    requires
        st.last == Keybind::Layer(l),
    ensures
        st.changed && st.pressed ==> scan_step(p, st).layers == p.layers.push(l as usize),
        st.changed && st.pressed ==> LayerSM::top(scan_step(p, st).layers) == l as usize,
        !st.changed ==> scan_step(p, st).layers == p.layers,
        scan_step(p, st).keys == p.keys,
        scan_step(p, st).non_mod == p.non_mod,
{
}

/// A held plain key puts its code in the report, as far as the report has
/// room, and counts as a key other than a modifier.
pub proof fn law_held_key_reports_its_code(p: ScanProgress, st: KeyState, k: u8)
    requires
        st.last == Keybind::Key(k),
        st.pressed,
    ensures
        p.keys.len() < SEQUENCE_LIMIT ==> scan_step(p, st).keys == p.keys.push(k),
        p.keys.len() >= SEQUENCE_LIMIT ==> scan_step(p, st).keys == p.keys,
        scan_step(p, st).non_mod,
        scan_step(p, st).one_shots == p.one_shots,
{
}

} // verus!
