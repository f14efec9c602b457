//! Keyboard firmware logic for RP2040 based split keyboards: bounded key
//! sequences, a report queue, debouncing, one shot modifiers, layers, the
//! keymap state machine that turns key events into HID reports, and the
//! reading of directly wired and matrix wired halves.

pub mod hid;
pub mod time;
pub mod seq;
pub mod queue;
pub mod scan;
pub mod keymap;
pub mod pin;
pub mod debounce;
pub mod direct_keyboard;
pub mod matrix_keyboard;
pub mod layout;
pub mod bootloader;
pub mod runtime;
pub mod laws;
