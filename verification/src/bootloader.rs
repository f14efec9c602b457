use vstd::prelude::*;

verus! {

/// Value left in uninitialised RAM while the board waits for a second
/// reset.
pub const RESET_FLAG: u32 = 0x007A_8EFB;

/// What the board does at start up on a double tap of reset.
#[derive(Copy, Clone, Debug, PartialEq, Eq, Structural)]
pub enum DoubleTapAction {
    /// The flag was set by a reset moments ago: clear it, wait, and reboot
    /// into the USB bootloader.
    EnterBootloader,
    /// Set the flag, wait for a second reset, and clear it again when none
    /// comes.
    Arm,
}

/// The action for the value found in the flag word.
pub open spec fn action_for(value: u32) -> DoubleTapAction {
    if value == RESET_FLAG {
        DoubleTapAction::EnterBootloader
    } else {
        DoubleTapAction::Arm
    }
}

/// The value the flag word holds while the board waits.
pub open spec fn flag_for(action: DoubleTapAction) -> u32 {
    match action {
        DoubleTapAction::EnterBootloader => 0,
        DoubleTapAction::Arm => RESET_FLAG,
    }
}

/// Decides, from the value found in the flag word at start up, whether this
/// reset is the second of a double tap.
pub fn double_tap_action(value: u32) -> (action: DoubleTapAction)
    ensures
        action == action_for(value),
{
    if value == RESET_FLAG {
        DoubleTapAction::EnterBootloader
    } else {
        DoubleTapAction::Arm
    }
}

/// The value to write to the flag word before waiting. After the wait the
/// flag word is cleared.
pub fn flag_before_wait(action: DoubleTapAction) -> (value: u32)
    ensures
        value == flag_for(action),
{
    match action {
        DoubleTapAction::EnterBootloader => 0,
        DoubleTapAction::Arm => RESET_FLAG,
    }
}

} // verus!
