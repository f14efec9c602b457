use vstd::prelude::*;
use crate::hid::keyboard_from;
use crate::queue::{Queue, queue_capacity};
use crate::seq::BoundedSeq;

verus! {

broadcast use vstd::array::group_array_axioms;

/// Largest number of keys one report carries.
pub const SEQUENCE_LIMIT: usize = 16;
/// Number of slots of the queue of reports waiting to be sent.
pub const REPORT_QUEUE_LIMIT: usize = 16;
/// Bit of a key event byte that says the key went down.
pub const PRESSED_MASK: u8 = 0b1000_0000;
/// Bits of a key event byte that hold the key's position.
pub const POS_MASK: u8 = 0b0111_1111;
/// Lowest bit of the one shot modifier masks.
pub const OS_MASK: u8 = 0b0000_0001;
/// Usage code of the first modifier key, left control; the eight modifiers
/// follow it in the order of [`Mod`].
pub const FIRST_MODIFIER_CODE: u8 = 0xE0;

/// A modifier key.
#[derive(Clone, Copy, Debug, PartialEq, Eq, Structural)]
pub enum Mod {
    LeftControl,
    LeftShift,
    LeftAlt,
    LeftGUI,
    RightControl,
    RightShift,
    RightAlt,
    RightGUI,
}

impl Mod {
    /// Position of the modifier in the HID modifier byte, `0..8`.
    pub open spec fn index(self) -> u8 {
        match self {
            Mod::LeftControl => 0,
            Mod::LeftShift => 1,
            Mod::LeftAlt => 2,
            Mod::LeftGUI => 3,
            Mod::RightControl => 4,
            Mod::RightShift => 5,
            Mod::RightAlt => 6,
            Mod::RightGUI => 7,
        }
    }

    /// The modifier's bit in a modifier mask.
    pub open spec fn bit(self) -> u8 {
        (1u8 << self.index())
    }

    /// The keyboard usage code of the modifier key.
    pub open spec fn code(self) -> u8 {
        (FIRST_MODIFIER_CODE + self.index()) as u8
    }

    /// The keyboard usage code of the modifier key.
    #[must_use]
    pub fn to_key(self) -> (k: u8)
        ensures
            k == self.code(),
            k == FIRST_MODIFIER_CODE + self.index(),
    {
        match self {
            Self::LeftControl => 0xE0,
            Self::LeftShift => 0xE1,
            Self::LeftAlt => 0xE2,
            Self::LeftGUI => 0xE3,
            Self::RightControl => 0xE4,
            Self::RightShift => 0xE5,
            Self::RightAlt => 0xE6,
            Self::RightGUI => 0xE7,
        }
    }

    /// The modifier's bit in a modifier mask.
    #[must_use]
    pub fn to_byte(self) -> (b: u8)
        ensures
            b == self.bit(),
            b == 1u8 << self.index(),
    {
        proof {
            lemma_single_bits();
        }
        match self {
            Self::LeftControl => 0b0000_0001,
            Self::LeftShift => 0b0000_0010,
            Self::LeftAlt => 0b0000_0100,
            Self::LeftGUI => 0b0000_1000,
            Self::RightControl => 0b0001_0000,
            Self::RightShift => 0b0010_0000,
            Self::RightAlt => 0b0100_0000,
            Self::RightGUI => 0b1000_0000,
        }
    }
}

/// The values of the eight single bit masks.
pub proof fn lemma_single_bits()
    ensures
        1u8 << 0u8 == 1u8,
        1u8 << 1u8 == 2u8,
        1u8 << 2u8 == 4u8,
        1u8 << 3u8 == 8u8,
        1u8 << 4u8 == 16u8,
        1u8 << 5u8 == 32u8,
        1u8 << 6u8 == 64u8,
        1u8 << 7u8 == 128u8,
{
    assert(1u8 << 0u8 == 1u8 && 1u8 << 1u8 == 2u8 && 1u8 << 2u8 == 4u8 && 1u8 << 3u8 == 8u8
        && 1u8 << 4u8 == 16u8 && 1u8 << 5u8 == 32u8 && 1u8 << 6u8 == 64u8 && 1u8 << 7u8 == 128u8)
        by (bit_vector);
}

/// What a key does.
#[derive(Clone, Copy, Debug, PartialEq, Eq, Structural)]
pub enum Keybind {
    /// Nothing.
    NoOP,
    /// A key, by keyboard usage code.
    Key(u8),
    /// A modifier key.
    Mod(Mod),
    /// A modifier that also applies to the next key pressed after release.
    OneShot(Mod),
    /// A modifier held together with a key.
    Combo(Mod, u8),
    /// Activates the layer while held.
    Layer(u8),
}

/// The state of one key position.
#[derive(Clone, Copy, Debug)]
pub struct KeyState {
    /// The keybind in effect since the key was last pressed.
    pub last: Keybind,
    /// Whether the key changed since the last finished scan.
    pub changed: bool,
    /// Whether the key is down.
    pub pressed: bool,
}

impl KeyState {
    /// A released key bound to nothing.
    #[must_use]
    pub fn new() -> (s: Self)
        ensures
            s == (KeyState { last: Keybind::NoOP, changed: false, pressed: false }),
    {
        Self { last: Keybind::NoOP, changed: false, pressed: false }
    }
}

/// One shot modifiers, each a bit of three masks.
#[derive(Clone, Copy, Debug)]
pub struct OneShotSM {
    /// Modifiers whose key is held.
    pub pressed: u8,
    /// Modifiers that apply to the next reported key.
    pub active: u8,
    /// Modifiers that were applied while their key was held.
    pub used: u8,
}

/// `add`: the modifiers `m` become held and active.
pub open spec fn one_shot_added(o: OneShotSM, m: u8) -> OneShotSM {
    OneShotSM { pressed: o.pressed | m, active: o.active | m, used: o.used }
}

/// `remove_if_used`: the modifiers `m` are released; when they were applied
/// while held they stop being active.
pub open spec fn one_shot_released(o: OneShotSM, m: u8) -> OneShotSM {
    let pressed = o.pressed & (0xFFu8 ^ m);
    if o.used & m == 0 {
        OneShotSM { pressed, active: o.active, used: o.used }
    } else {
        OneShotSM { pressed, active: o.active & (0xFFu8 ^ m), used: o.used & (0xFFu8 ^ m) }
    }
}

/// `apply`: active modifiers that are held become used, and none stays active.
pub open spec fn one_shot_applied(o: OneShotSM) -> OneShotSM {
    OneShotSM { pressed: o.pressed, active: 0, used: o.used | (o.active & o.pressed) }
}

/// Usage codes of the modifiers set in `mask`, lowest bit first, the lowest
/// bit standing for `code`.
pub open spec fn modifier_codes(mask: nat, code: nat) -> Seq<u8>
    decreases mask,
{
    if mask == 0 {
        Seq::empty()
    } else if mask % 2 == 1 {
        seq![code as u8] + modifier_codes(mask / 2, code + 1)
    } else {
        modifier_codes(mask / 2, code + 1)
    }
}

/// `s` with `k` appended when fewer than `cap` values are in it.
pub open spec fn bounded_push(s: Seq<u8>, k: u8, cap: nat) -> Seq<u8> {
    if s.len() < cap {
        s.push(k)
    } else {
        s
    }
}

/// `s` with each of `ks` appended in turn by [`bounded_push`].
pub open spec fn bounded_push_all(s: Seq<u8>, ks: Seq<u8>, cap: nat) -> Seq<u8>
    decreases ks.len(),
{
    if ks.len() == 0 {
        s
    } else {
        bounded_push_all(bounded_push(s, ks[0], cap), ks.drop_first(), cap)
    }
}

impl OneShotSM {
    /// No modifier held, active or used.
    #[must_use]
    pub fn new() -> (o: Self)
        ensures
            o == (OneShotSM { pressed: 0, active: 0, used: 0 }),
    {
        Self { pressed: 0, active: 0, used: 0 }
    }

    /// Whether some modifier is active.
    pub fn any(&self) -> (b: bool)
        ensures
            b == (self.active != 0),
    {
        self.active != 0
    }

    /// The modifiers `m` are pressed.
    pub fn add(&mut self, m: u8)
        ensures
            *final(self) == one_shot_added(*old(self), m),
    {
        self.active |= m;
        self.pressed |= m;
    }

    /// The modifiers `m` are released.
    pub fn remove_if_used(&mut self, m: u8)
        ensures
            *final(self) == one_shot_released(*old(self), m),
    {
        self.pressed &= 0b1111_1111 ^ m;
        if self.used & m == 0 {
            return;
        }
        self.active &= 0b1111_1111 ^ m;
        self.used &= 0b1111_1111 ^ m;
    }
}

/// The lowest bit and a right shift by one, as arithmetic.
proof fn lemma_low_bit(a: u8)
    ensures
        (a & 1u8 != 0) == (a % 2 == 1),
        a >> 1u8 == a / 2,
{
    assert((a & 1u8 != 0) == (a % 2 == 1)) by (bit_vector);
    assert(a >> 1u8 == a / 2) by (bit_vector);
}

/// A mask that fits in `8 - k` bits still fits after a right shift by one in
/// `8 - (k + 1)` bits, and a nonzero one needs `k < 8`.
proof fn lemma_shift_bound(a: u8, k: u8)
    requires
        k <= 8,
        a <= (0xFFu8 >> k),
    ensures
        a != 0 ==> k < 8,
        k < 8 ==> (a >> 1u8) <= (0xFFu8 >> ((k + 1) as u8)),
{
    assert(k <= 8 && a <= (0xFFu8 >> k) && a != 0 ==> k < 8) by (bit_vector);
    assert(k < 8 && a <= (0xFFu8 >> k) ==> (a >> 1u8) <= (0xFFu8 >> ((k + 1) as u8)))
        by (bit_vector);
}

impl OneShotSM {
    /// Appends the usage codes of the active modifiers to `seq`, lowest bit
    /// first, as far as `seq` has room; active modifiers that are held become
    /// used and none stays active.
    pub fn apply<const N: usize>(&mut self, seq: &mut BoundedSeq<u8, N>)
        requires
            old(seq).wf(),
        ensures
            final(seq).wf(),
            *final(self) == one_shot_applied(*old(self)),
            final(seq)@ == bounded_push_all(
                old(seq)@,
                modifier_codes(old(self).active as nat, FIRST_MODIFIER_CODE as nat),
                N as nat,
            ),
    {
        self.used |= self.active & self.pressed;
        // 0xE0 - 0xE7 correspond to modifier keycodes.
        let mut curr_mod: u8 = 0xE0;
        let ghost target = bounded_push_all(
            old(seq)@,
            modifier_codes(old(self).active as nat, FIRST_MODIFIER_CODE as nat),
            N as nat,
        );
        proof {
            let a = self.active;
            assert(a <= (0xFFu8 >> 0u8)) by (bit_vector);
        }
        while self.active != 0
            invariant
                seq.wf(),
                0xE0 <= curr_mod <= 0xE8,
                self.active <= (0xFFu8 >> ((curr_mod - 0xE0) as u8)),
                self.pressed == old(self).pressed,
                self.used == old(self).used | (old(self).active & old(self).pressed),
                bounded_push_all(seq@, modifier_codes(self.active as nat, curr_mod as nat), N as nat)
                    == target,
            decreases self.active,
        {
            proof {
                lemma_shift_bound(self.active, (curr_mod - 0xE0) as u8);
                lemma_low_bit(self.active);
            }
            let ghost codes = modifier_codes(self.active as nat, curr_mod as nat);
            let ghost rest = modifier_codes((self.active / 2) as nat, (curr_mod + 1) as nat);
            if self.active & OS_MASK != 0 {
                let ghost before = seq@;
                proof {
                    seq.lemma_len_bound();
                }
                let key = keyboard_from(curr_mod);
                let _ = seq.add(key);
                assert(codes[0] == curr_mod);
                assert(codes.drop_first() =~= rest);
                assert(seq@ == bounded_push(before, codes[0], N as nat));
            } else {
                assert(codes == rest);
            }
            curr_mod += 1;
            self.active >>= 1;
        }
    }
}

/// Index of the last occurrence of `v` in `s`, or -1 when there is none.
pub open spec fn last_index_of(s: Seq<usize>, v: usize) -> int
    decreases s.len(),
{
    if s.len() == 0 {
        -1
    } else if s.last() == v {
        s.len() - 1
    } else {
        last_index_of(s.drop_last(), v)
    }
}

/// `s` without its last occurrence of `v`; `s` itself when `v` is not in it.
pub open spec fn remove_last_occurrence(s: Seq<usize>, v: usize) -> Seq<usize> {
    let i = last_index_of(s, v);
    if i < 0 {
        s
    } else {
        s.remove(i)
    }
}

/// `last_index_of` finds the occurrence at `k` when no later one exists,
/// and -1 when there is no occurrence at all.
pub proof fn lemma_last_index_of(s: Seq<usize>, v: usize, k: int)
    requires
        -1 <= k < s.len(),
        k >= 0 ==> s[k] == v,
        forall|j: int| k < j < s.len() ==> s[j] != v,
    ensures
        last_index_of(s, v) == k,
    decreases s.len(),
{
    if s.len() > 0 && s.len() - 1 != k {
        lemma_last_index_of(s.drop_last(), v, k);
    }
}

/// Size of the layer stack's buffer.
pub const LAYER_STACK_SIZE: usize = 256;

/// A stack of active layers above the base layer 0.
#[derive(Clone, Copy)]
pub struct LayerSM {
    head: usize,
    stack: [usize; 256],
}

impl LayerSM {
    /// Lowest stack index that holds a pushed layer.
    pub const LIMIT: usize = 1;

    /// The pushed layers, oldest first.
    pub closed spec fn view(&self) -> Seq<usize> {
        self.stack@.subrange(1, self.head + 1)
    }

    /// Internal consistency: the head is inside the buffer, over the base layer.
    pub closed spec fn wf(&self) -> bool {
        &&& self.head < LAYER_STACK_SIZE
        &&& self.stack[0] == 0
    }

    /// The layer in effect: the newest pushed layer, or 0.
    pub open spec fn top(layers: Seq<usize>) -> usize {
        if layers.len() == 0 {
            0
        } else {
            layers.last()
        }
    }

    /// A well formed stack holds at most 255 layers.
    pub proof fn lemma_len_bound(&self)
        requires
            self.wf(),
        ensures
            self@.len() < LAYER_STACK_SIZE,
    {
    }

    /// Only the base layer.
    #[must_use]
    pub fn new() -> (l: Self)
        ensures
            l.wf(),
            l@ == Seq::<usize>::empty(),
    {
        Self { head: 0, stack: [0; 256] }
    }

    /// Number of pushed layers.
    pub fn depth(&self) -> (n: usize)
        requires
            self.wf(),
        ensures
            n == self@.len(),
    {
        self.head
    }

    /// The layer in effect.
    pub fn current_layer(&self) -> (l: usize)
        requires
            self.wf(),
        ensures
            l == Self::top(self@),
    {
        self.stack[self.head]
    }

    /// Pushes layer `v`.
    pub fn add(&mut self, v: usize)
        requires
            old(self).wf(),
            old(self)@.len() < LAYER_STACK_SIZE - 1,
        ensures
            final(self).wf(),
            final(self)@ == old(self)@.push(v),
    {
        let ghost before = self@;
        self.head += 1;
        self.stack[self.head] = v;
        assert(self@ =~= before.push(v));
    }

    /// Removes the newest occurrence of layer `v`, wherever it is in the
    /// stack; nothing changes when `v` was not pushed.
    pub fn remove(&mut self, v: usize)
        requires
            old(self).wf(),
        ensures
            final(self).wf(),
            final(self)@ == remove_last_occurrence(old(self)@, v),
    {
        let ghost layers = self@;
        let mut i: usize = self.head;
        while i >= Self::LIMIT && self.stack[i] != v
            invariant
                self.wf(),
                self@ == layers,
                i <= self.head,
                forall|j: int| i < j <= self.head ==> self.stack[j] != v,
            decreases i,
        {
            i -= 1;
        }
        // `s` is the index of the match, or 0 when there is none.
        let s: usize = i;
        if s == 0 {
            proof {
                assert forall|j: int| -1 < j < layers.len() implies layers[j] != v by {
                    assert(layers[j] == self.stack[j + 1]);
                }
                lemma_last_index_of(layers, v, -1);
            }
            return;
        }
        proof {
            assert forall|j: int| s - 1 < j < layers.len() implies layers[j] != v by {
                assert(layers[j] == self.stack[j + 1]);
            }
            lemma_last_index_of(layers, v, s - 1);
        }
        let ghost orig = self.stack@;
        assert(layers =~= orig.subrange(1, self.head + 1));
        let mut j: usize = s;
        while j < self.head
            invariant
                1 <= s <= j <= self.head < LAYER_STACK_SIZE,
                orig.len() == LAYER_STACK_SIZE,
                self.stack@.len() == LAYER_STACK_SIZE,
                forall|x: int| 0 <= x < s ==> self.stack@[x] == orig[x],
                forall|x: int| s <= x < j ==> self.stack@[x] == orig[x + 1],
                forall|x: int| j <= x < LAYER_STACK_SIZE ==> self.stack@[x] == orig[x],
                layers == orig.subrange(1, self.head + 1),
            decreases self.head - j,
        {
            self.stack[j] = self.stack[j + 1];
            j += 1;
        }
        self.head -= 1;
        assert forall|k: int| 0 <= k < layers.len() - 1 implies #[trigger] self@[k] == layers.remove(
            s - 1,
        )[k] by {
            assert(self@[k] == self.stack@[k + 1]);
            if k < s - 1 {
                assert(layers.remove(s - 1)[k] == layers[k]);
            } else {
                assert(layers.remove(s - 1)[k] == layers[k + 1]);
            }
        }
        assert(self@ =~= layers.remove(s - 1));
    }
}

/// What a scan has gathered after walking some of the keys.
pub struct ScanProgress {
    /// Keys of the report being built.
    pub keys: Seq<u8>,
    /// Whether a key that counts for reports changed.
    pub reportable: bool,
    /// Whether a held key other than a plain or one shot modifier was seen.
    pub non_mod: bool,
    /// The one shot modifiers.
    pub one_shots: OneShotSM,
    /// The pushed layers.
    pub layers: Seq<usize>,
}

/// The effect of one key on a scan in progress, by the keybind the key had
/// when it was last pressed.
pub open spec fn scan_step(p: ScanProgress, st: KeyState) -> ScanProgress {
    let cap = SEQUENCE_LIMIT as nat;
    match st.last {
        Keybind::NoOP => p,
        Keybind::Key(k) => ScanProgress {
            keys: if st.pressed { bounded_push(p.keys, k, cap) } else { p.keys },
            reportable: p.reportable || st.changed,
            non_mod: p.non_mod || st.pressed,
            one_shots: p.one_shots,
            layers: p.layers,
        },
        Keybind::Mod(m) => ScanProgress {
            keys: if st.pressed { bounded_push(p.keys, m.code(), cap) } else { p.keys },
            reportable: p.reportable || st.changed,
            non_mod: p.non_mod,
            one_shots: p.one_shots,
            layers: p.layers,
        },
        Keybind::Combo(m, k) => ScanProgress {
            keys: if st.pressed {
                bounded_push(bounded_push(p.keys, m.code(), cap), k, cap)
            } else {
                p.keys
            },
            reportable: p.reportable || st.changed,
            non_mod: p.non_mod || st.pressed,
            one_shots: p.one_shots,
            layers: p.layers,
        },
        Keybind::OneShot(m) => ScanProgress {
            keys: if st.pressed { bounded_push(p.keys, m.code(), cap) } else { p.keys },
            reportable: p.reportable || st.changed,
            non_mod: p.non_mod,
            one_shots: if st.pressed {
                one_shot_added(p.one_shots, m.bit())
            } else if st.changed {
                one_shot_released(p.one_shots, m.bit())
            } else {
                p.one_shots
            },
            layers: p.layers,
        },
        Keybind::Layer(l) => ScanProgress {
            keys: p.keys,
            reportable: p.reportable,
            non_mod: p.non_mod,
            one_shots: p.one_shots,
            layers: if !st.changed {
                p.layers
            } else if st.pressed {
                p.layers.push(l as usize)
            } else {
                remove_last_occurrence(p.layers, l as usize)
            },
        },
    }
}

/// The effect of the keys `states`, in order, on a scan in progress.
pub open spec fn scan_fold(p: ScanProgress, states: Seq<KeyState>) -> ScanProgress
    decreases states.len(),
{
    if states.len() == 0 {
        p
    } else {
        scan_step(scan_fold(p, states.drop_last()), states.last())
    }
}

/// Whether a key pushes its layer when the scan finishes.
pub open spec fn pushes_layer(st: KeyState) -> bool {
    st.last is Layer && st.changed && st.pressed
}

/// Whether the layer stack has room for every layer pushed while the keys
/// `states` act in turn on the scan `p`.
pub open spec fn layer_room(p: ScanProgress, states: Seq<KeyState>) -> bool
    decreases states.len(),
{
    states.len() == 0 || (layer_room(p, states.drop_last()) && (pushes_layer(states.last())
        ==> scan_fold(p, states.drop_last()).layers.len() < LAYER_STACK_SIZE - 1))
}

/// Room for all the keys means room for the first `k` of them.
pub proof fn lemma_layer_room_prefix(p: ScanProgress, states: Seq<KeyState>, k: int)
    requires
        0 <= k <= states.len(),
        layer_room(p, states),
    ensures
        layer_room(p, states.take(k)),
    decreases states.len(),
{
    if k == states.len() {
        assert(states.take(k) =~= states);
    } else {
        assert(states.drop_last().take(k) =~= states.take(k));
        lemma_layer_room_prefix(p, states.drop_last(), k);
    }
}

/// Whether the one shot modifiers are added to the report: a key other than
/// a modifier is held and some one shot modifier is active.
pub open spec fn applies_one_shots(p: ScanProgress) -> bool {
    p.non_mod && p.one_shots.active != 0
}

/// The keys of the report a reportable scan queues.
pub open spec fn report_keys(p: ScanProgress) -> Seq<u8> {
    if applies_one_shots(p) {
        bounded_push_all(
            p.keys,
            modifier_codes(p.one_shots.active as nat, FIRST_MODIFIER_CODE as nat),
            SEQUENCE_LIMIT as nat,
        )
    } else {
        p.keys
    }
}

/// The one shot modifiers after a reportable scan.
pub open spec fn report_one_shots(p: ScanProgress) -> OneShotSM {
    if applies_one_shots(p) {
        one_shot_applied(p.one_shots)
    } else {
        p.one_shots
    }
}

/// `q` with `s` appended when fewer than `cap` items are in it.
pub open spec fn bounded_enqueue(q: Seq<Seq<u8>>, s: Seq<u8>, cap: int) -> Seq<Seq<u8>> {
    if q.len() < cap {
        q.push(s)
    } else {
        q
    }
}

/// A key state once its change was taken into account.
pub open spec fn settled(s: KeyState) -> KeyState {
    KeyState { last: s.last, changed: false, pressed: s.pressed }
}

/// Whether a key event byte says the key went down.
pub open spec fn event_pressed(pos: u8) -> bool {
    pos >= 128
}

/// The key position a key event byte names.
pub open spec fn event_position(pos: u8) -> u8 {
    (pos % 128) as u8
}

/// The key event byte for key `index` going down or up.
pub open spec fn event_byte(index: u8, pressed: bool) -> u8 {
    if pressed {
        (index + 128) as u8
    } else {
        index
    }
}

/// The key states after the event byte `pos`, presses taking their
/// keybind from layer `layer` of `keymap`. An event that repeats the key's
/// state changes nothing; otherwise the key takes the new state and is
/// marked as changed, and only a press rebinds it.
pub open spec fn registered(
    states: Seq<KeyState>,
    keymap: Seq<Seq<Keybind>>,
    layer: usize,
    pos: u8,
) -> Seq<KeyState> {
    let i = event_position(pos) as int;
    let pressed = event_pressed(pos);
    let st = states[i];
    if st.pressed == pressed {
        states
    } else {
        states.update(
            i,
            KeyState {
                last: if pressed { keymap[layer as int][i] } else { st.last },
                changed: true,
                pressed,
            },
        )
    }
}

/// The pressed flag and the position of an event byte, as bit operations.
proof fn lemma_event_bits(pos: u8)
    ensures
        (pos & PRESSED_MASK != 0) == event_pressed(pos),
        pos & POS_MASK == event_position(pos),
{
    assert((pos & 0x80u8 != 0) == (pos >= 128)) by (bit_vector);
    assert(pos & 0x7Fu8 == pos % 128) by (bit_vector);
}

/// Turns key events into HID reports: `N` key positions, `M` layers.
pub struct KeymapSM<const N: usize, const M: usize> {
    key_state: [KeyState; N],
    keymap: [[Keybind; N]; M],
    curr_scan: BoundedSeq<u8, SEQUENCE_LIMIT>,
    scans: Queue<BoundedSeq<u8, SEQUENCE_LIMIT>, REPORT_QUEUE_LIMIT>,
    layer_stack: LayerSM,
    one_shots: OneShotSM,
    layer: usize,
}

impl<const N: usize, const M: usize> KeymapSM<N, M> {
    /// The state of each key position.
    pub closed spec fn key_states(&self) -> Seq<KeyState> {
        self.key_state@
    }

    /// The keybinds, by layer and then by key position.
    pub closed spec fn keymap(&self) -> Seq<Seq<Keybind>> {
        self.keymap@.map_values(|row: [Keybind; N]| row@)
    }

    /// The keys of the report being built.
    pub closed spec fn current_scan(&self) -> Seq<u8> {
        self.curr_scan@
    }

    /// The reports waiting to be sent, oldest first.
    pub closed spec fn pending_reports(&self) -> Seq<Seq<u8>> {
        self.scans@.map_values(|s: BoundedSeq<u8, SEQUENCE_LIMIT>| s@)
    }

    /// The pushed layers.
    pub closed spec fn layers(&self) -> Seq<usize> {
        self.layer_stack@
    }

    /// The one shot modifiers.
    pub closed spec fn one_shots(&self) -> OneShotSM {
        self.one_shots
    }

    /// The layer whose keybinds new presses take, fixed at the start of a scan.
    pub closed spec fn active_layer(&self) -> usize {
        self.layer
    }

    /// Internal consistency of the parts.
    pub closed spec fn wf(&self) -> bool {
        &&& self.curr_scan.wf()
        &&& self.scans.wf()
        &&& forall|i: int| 0 <= i < self.scans@.len() ==> (#[trigger] self.scans@[i]).wf()
        &&& self.layer_stack.wf()
    }

    /// There is one key state per key position, and the keymap has `M`
    /// layers of `N` keybinds.
    pub proof fn lemma_dimensions(&self)
        ensures
            self.key_states().len() == N,
            self.keymap().len() == M,
            forall|l: int| 0 <= l < M ==> (#[trigger] self.keymap()[l]).len() == N,
    {
        assert forall|l: int| 0 <= l < M implies (#[trigger] self.keymap()[l]).len() == N by {
            assert(self.keymap()[l] == self.keymap@[l]@);
        }
    }

    /// Where finishing a scan starts from: the report built so far, nothing
    /// reportable yet, and the one shot modifiers and layers as they are.
    pub open spec fn scan_start(&self) -> ScanProgress {
        ScanProgress {
            keys: self.current_scan(),
            reportable: false,
            non_mod: false,
            one_shots: self.one_shots(),
            layers: self.layers(),
        }
    }

    /// What finishing a scan gathers from the keys, starting from this state.
    pub open spec fn scan_outcome(&self) -> ScanProgress {
        scan_fold(self.scan_start(), self.key_states())
    }

    /// A state machine for `keymap` with every key released, no layer
    /// pushed, no one shot modifier and no report.
    #[must_use]
    pub fn new(keymap: [[Keybind; N]; M]) -> (sm: Self)
        ensures
            sm.wf(),
            sm.key_states() == Seq::new(
                N as nat,
                |i: int| KeyState { last: Keybind::NoOP, changed: false, pressed: false },
            ),
            sm.keymap() == keymap@.map_values(|row: [Keybind; N]| row@),
            sm.current_scan() == Seq::<u8>::empty(),
            sm.pending_reports() == Seq::<Seq<u8>>::empty(),
            sm.layers() == Seq::<usize>::empty(),
            sm.one_shots() == (OneShotSM { pressed: 0, active: 0, used: 0 }),
            sm.active_layer() == 0,
    {
        let state = KeyState::new();
        let sm = Self {
            keymap,
            curr_scan: BoundedSeq::new(),
            scans: Queue::new(),
            key_state: [state; N],
            layer: 0,
            layer_stack: LayerSM::new(),
            one_shots: OneShotSM::new(),
        };
        assert(sm.key_states() =~= Seq::new(
            N as nat,
            |i: int| KeyState { last: Keybind::NoOP, changed: false, pressed: false },
        ));
        assert(sm.pending_reports() =~= Seq::<Seq<u8>>::empty());
        sm
    }

    /// Starts a scan: new presses take the keybinds of the layer now in
    /// effect, and the report is built afresh.
    pub fn begin_scan(&mut self)
        requires
            old(self).wf(),
        ensures
            final(self).wf(),
            final(self).active_layer() == LayerSM::top(old(self).layers()),
            final(self).current_scan() == Seq::<u8>::empty(),
            final(self).key_states() == old(self).key_states(),
            final(self).keymap() == old(self).keymap(),
            final(self).pending_reports() == old(self).pending_reports(),
            final(self).layers() == old(self).layers(),
            final(self).one_shots() == old(self).one_shots(),
    {
        self.layer = self.layer_stack.current_layer();
        self.curr_scan.reset();
    }

    /// Whether [`finish_scan`](Self::finish_scan) has room on the layer
    /// stack for every layer its keys push.
    pub fn can_finish_scan(&self) -> (ok: bool)
        requires
            self.wf(),
        ensures
            ok == layer_room(self.scan_start(), self.key_states()),
    {
        let ghost start = self.scan_start();
        let ghost states = self.key_states();
        let mut layers = self.layer_stack;
        let mut i: usize = 0;
        assert(states.take(0) =~= Seq::<KeyState>::empty());
        while i < N
            invariant
                i <= N,
                states == self.key_states(),
                start == self.scan_start(),
                layers.wf(),
                layers@ == scan_fold(start, states.take(i as int)).layers,
                layer_room(start, states.take(i as int)),
            decreases N - i,
        {
            let st = self.key_state[i];
            proof {
                assert(states.take(i + 1).drop_last() =~= states.take(i as int));
                assert(states.take(i + 1).last() == st);
                layers.lemma_len_bound();
            }
            if let Keybind::Layer(l) = st.last {
                if st.changed {
                    if st.pressed {
                        if layers.depth() >= LAYER_STACK_SIZE - 1 {
                            proof {
                                if layer_room(start, states) {
                                    lemma_layer_room_prefix(start, states, i + 1);
                                }
                            }
                            return false;
                        }
                        layers.add(l as usize);
                    } else {
                        layers.remove(l as usize);
                    }
                }
            }
            i += 1;
        }
        assert(states.take(N as int) =~= states);
        true
    }

    /// Whether [`register_press`](Self::register_press) can take the event
    /// byte `pos`: it names a key position, and a press that changes the key
    /// finds the active layer in the keymap.
    pub fn accepts_event(&self, pos: u8) -> (ok: bool)
        requires
            self.wf(),
        ensures
            ok == (event_position(pos) < N && (event_pressed(pos) && !self.key_states()[event_position(
                pos,
            ) as int].pressed ==> self.active_layer() < M)),
    {
        proof {
            lemma_event_bits(pos);
        }
        let i = (pos & POS_MASK) as usize;
        if i >= N {
            return false;
        }
        !(pos & PRESSED_MASK != 0 && !self.key_state[i].pressed) || self.layer < M
    }

    /// Records a key event byte: the high bit says whether the key went down,
    /// the other bits name its position. A press takes the keybind of the
    /// active layer; an event that repeats the key's state changes nothing.
    pub fn register_press(&mut self, pos: u8)
        requires
            old(self).wf(),
            event_position(pos) < N,
            event_pressed(pos) && !old(self).key_states()[event_position(pos) as int].pressed
                ==> old(self).active_layer() < M,
        ensures
            final(self).wf(),
            final(self).key_states() == registered(
                old(self).key_states(),
                old(self).keymap(),
                old(self).active_layer(),
                pos,
            ),
            final(self).keymap() == old(self).keymap(),
            final(self).current_scan() == old(self).current_scan(),
            final(self).pending_reports() == old(self).pending_reports(),
            final(self).layers() == old(self).layers(),
            final(self).one_shots() == old(self).one_shots(),
            final(self).active_layer() == old(self).active_layer(),
    {
        proof {
            lemma_event_bits(pos);
        }
        let pressed = pos & PRESSED_MASK != 0;
        let pos = (pos & POS_MASK) as usize;
        let mut state = self.key_state[pos];
        if state.pressed == pressed {
            return;
        }
        // Only change keybind when pressed.
        if pressed {
            state.last = self.keymap[self.layer][pos];
        }
        // No ops should not trigger changes on being pressed or being released.
        state.changed = true;
        state.pressed = pressed;
        self.key_state[pos] = state;
    }

    /// Finishes a scan. Each key, in position order, acts by the keybind it
    /// had when last pressed (see [`scan_step`]) and is then marked as taken
    /// into account. When a key other than a layer key changed, the report
    /// is queued, with the active one shot modifiers added when a key other
    /// than a modifier is held; a full queue drops it.
    pub fn finish_scan(&mut self)
        requires
            old(self).wf(),
            layer_room(old(self).scan_start(), old(self).key_states()),
        ensures
            final(self).wf(),
            ({
                let p = old(self).scan_outcome();
                &&& final(self).layers() == p.layers
                &&& p.reportable ==> {
                    &&& final(self).current_scan() == report_keys(p)
                    &&& final(self).one_shots() == report_one_shots(p)
                    &&& final(self).pending_reports() == bounded_enqueue(
                        old(self).pending_reports(),
                        report_keys(p),
                        queue_capacity(REPORT_QUEUE_LIMIT),
                    )
                }
                &&& !p.reportable ==> {
                    &&& final(self).current_scan() == p.keys
                    &&& final(self).one_shots() == p.one_shots
                    &&& final(self).pending_reports() == old(self).pending_reports()
                }
            }),
            final(self).key_states() == old(self).key_states().map_values(|s: KeyState| settled(s)),
            final(self).keymap() == old(self).keymap(),
            final(self).active_layer() == old(self).active_layer(),
    {
        let mut non_mod_in_scan = false;
        let mut scan_is_reportable = false;
        let ghost states = self.key_state@;
        let ghost init = ScanProgress {
            keys: self.curr_scan@,
            reportable: false,
            non_mod: false,
            one_shots: self.one_shots,
            layers: self.layer_stack@,
        };
        let mut i: usize = 0;
        assert(states.take(0) =~= Seq::<KeyState>::empty());
        while i < N
            invariant
                self.wf(),
                i <= N,
                self.keymap == old(self).keymap,
                self.layer == old(self).layer,
                self.scans == old(self).scans,
                states == old(self).key_state@,
                init == (ScanProgress {
                    keys: old(self).curr_scan@,
                    reportable: false,
                    non_mod: false,
                    one_shots: old(self).one_shots,
                    layers: old(self).layer_stack@,
                }),
                layer_room(init, states),
                forall|j: int| 0 <= j < i ==> self.key_state@[j] == settled(states[j]),
                forall|j: int| i <= j < N ==> self.key_state@[j] == states[j],
                scan_fold(init, states.take(i as int)) == (ScanProgress {
                    keys: self.curr_scan@,
                    reportable: scan_is_reportable,
                    non_mod: non_mod_in_scan,
                    one_shots: self.one_shots,
                    layers: self.layer_stack@,
                }),
            decreases N - i,
        {
            let mut state = self.key_state[i];
            proof {
                self.curr_scan.lemma_len_bound();
                self.layer_stack.lemma_len_bound();
                assert(states.take(i + 1).drop_last() =~= states.take(i as int));
            }
            match state.last {
                Keybind::NoOP => {},
                Keybind::Key(k) => {
                    scan_is_reportable = scan_is_reportable || state.changed;
                    if state.pressed {
                        non_mod_in_scan = true;
                        let _ = self.curr_scan.add(k);
                    }
                },
                Keybind::Mod(m) => {
                    scan_is_reportable = scan_is_reportable || state.changed;
                    if state.pressed {
                        let _ = self.curr_scan.add(m.to_key());
                    }
                },
                Keybind::Combo(m, k) => {
                    scan_is_reportable = scan_is_reportable || state.changed;
                    if state.pressed {
                        non_mod_in_scan = true;
                        let _ = self.curr_scan.add(m.to_key());
                        proof {
                            self.curr_scan.lemma_len_bound();
                        }
                        let _ = self.curr_scan.add(k);
                    }
                },
                Keybind::OneShot(m) => {
                    scan_is_reportable = scan_is_reportable || state.changed;
                    if state.pressed {
                        self.one_shots.add(m.to_byte());
                        let _ = self.curr_scan.add(m.to_key());
                    } else if state.changed {
                        self.one_shots.remove_if_used(m.to_byte());
                    }
                },
                Keybind::Layer(l) => {
                    if !state.changed {
                        i += 1;
                        proof {
                            assert(self.key_state@[i - 1] == settled(states[i - 1]));
                        }
                        continue;
                    }
                    if state.pressed {
                        proof {
                            lemma_layer_room_prefix(init, states, i + 1);
                        }
                        self.layer_stack.add(l as usize);
                    } else {
                        self.layer_stack.remove(l as usize);
                    }
                },
            }
            state.changed = false;
            self.key_state[i] = state;
            i += 1;
        }
        proof {
            assert(states.take(N as int) =~= states);
            assert(self.key_state@ =~= states.map_values(|s: KeyState| settled(s)));
        }
        if !scan_is_reportable {
            return;
        }
        if non_mod_in_scan && self.one_shots.any() {
            self.one_shots.apply(&mut self.curr_scan);
        }
        let ghost queued = self.scans@;
        proof {
            self.scans.lemma_len_bound();
        }
        let _ = self.scans.push(self.curr_scan);
        proof {
            let f = |s: BoundedSeq<u8, SEQUENCE_LIMIT>| s@;
            if queued.len() < queue_capacity(REPORT_QUEUE_LIMIT) {
                assert(queued.push(self.curr_scan).map_values(f) =~= queued.map_values(f).push(
                    self.curr_scan@,
                ));
            }
        }
    }

    /// The oldest report waiting to be sent.
    #[must_use]
    pub fn get_scan(&self) -> (r: Option<&BoundedSeq<u8, SEQUENCE_LIMIT>>)
        requires
            self.wf(),
        ensures
            r is None <==> self.pending_reports().len() == 0,
            r matches Some(s) ==> s.wf() && s@ == self.pending_reports()[0],
    {
        self.scans.peek()
    }

    /// Drops the oldest report waiting to be sent, once it was sent.
    pub fn clear_last_scan(&mut self)
        requires
            old(self).wf(),
        ensures
            final(self).wf(),
            final(self).pending_reports() == if old(self).pending_reports().len() == 0 {
                old(self).pending_reports()
            } else {
                old(self).pending_reports().drop_first()
            },
            final(self).key_states() == old(self).key_states(),
            final(self).keymap() == old(self).keymap(),
            final(self).current_scan() == old(self).current_scan(),
            final(self).layers() == old(self).layers(),
            final(self).one_shots() == old(self).one_shots(),
            final(self).active_layer() == old(self).active_layer(),
    {
        let ghost queued = self.scans@;
        let _ = self.scans.pop();
        proof {
            let f = |s: BoundedSeq<u8, SEQUENCE_LIMIT>| s@;
            if queued.len() > 0 {
                assert(queued.drop_first().map_values(f) =~= queued.map_values(f).drop_first());
            }
        }
    }
}

} // verus!
