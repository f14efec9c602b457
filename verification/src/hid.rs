use vstd::prelude::*;
use usbd_human_interface_device::page::Keyboard;

verus! {

/// The usage codes of the keyboard page that `Keyboard` has a variant for:
/// `0x00..=0xA4` and the eight modifiers `0xE0..=0xE7`.
pub open spec fn is_keyboard_code(code: u8) -> bool {
    code <= 0xA4 || (0xE0 <= code && code <= 0xE7)
}

/// The code of the key that `code` names: itself when the keyboard page
/// defines it, `NoEventIndicated` (0) otherwise.
pub open spec fn keyboard_code(code: u8) -> u8 {
    if is_keyboard_code(code) {
        code
    } else {
        0
    }
}

/// Calls `Keyboard::from(u8)` and reads the variant's code back with
/// `u8::from(Keyboard)`. `Keyboard` is a `#[repr(u8)]` enum deriving
/// num_enum's `FromPrimitive` with `NoEventIndicated` as `#[default]`, and
/// `IntoPrimitive`: a defined code maps to its own variant, any other code
/// to `NoEventIndicated`.
#[verifier::external_body]
pub(crate) fn keyboard_from(code: u8) -> (r: u8)
    ensures
        r == keyboard_code(code),
{
    u8::from(Keyboard::from(code))
}

} // verus!
