# rkb2040_lib

Verified logic of a keyboard firmware for RP2040 split keyboards: layers,
one shot modifiers, modifier + key combos, debouncing, direct and matrix
wiring, and the serial protocol between the two halves.

Every function under `src/` is checked by Verus against its contract,
except three small functions whose contracts Verus takes on trust, each of
which only calls an outside crate:

- `hid::keyboard_from` calls `Keyboard::from(u8)` of
  `usbd-human-interface-device` and reads the key code back;
- `time::checked_duration_since` calls fugit's
  `Instant::checked_duration_since` on the RP2040 timer's instants;
- `time::to_micros` calls fugit's `Duration::to_micros`.

- `seq`, `scan`, `queue`: fixed capacity sequences and the ring buffer of
  reports waiting for the host.
- `keymap`: modifiers, keybinds, one shot modifiers, the layer stack and the
  state machine that turns key events into HID reports.
- `pin`, `debounce`, `time`: key states and their debouncers, on the
  microsecond timer.
- `direct_keyboard`, `matrix_keyboard`, `layout`: how the keys of a half are
  read, from a textual description of its wiring; the event bytes the halves
  exchange.
- `bootloader`, `runtime`: the double tap of reset and the handling of USB
  results.
- `hid`: key codes of the HID keyboard page.
- `laws`: properties that span several functions, proved.

`app/` holds the firmware around the library: board bring-up, USB, the
serial link and the scan loops.
