use vstd::prelude::*;
use crate::keymap::KeymapSM;

verus! {

/// How a call into the USB HID class went.
#[derive(Copy, Clone, Debug, PartialEq, Eq, Structural)]
pub enum HidOutcome {
    /// The call succeeded.
    Done,
    /// The endpoint is busy; try again later.
    WouldBlock,
    /// The report equals the one last sent.
    Duplicate,
    /// Anything else.
    Failed,
}

/// Takes the outcome of writing the oldest pending report to the host: a
/// written report is dropped from the queue, a busy endpoint or a duplicate
/// report keeps it for the next try. Returns whether the keyboard can go on;
/// any other failure is fatal.
pub fn report_written<const N: usize, const M: usize>(sm: &mut KeymapSM<N, M>, outcome: HidOutcome) -> (ok:
    bool)
    requires
        old(sm).wf(),
    ensures
        final(sm).wf(),
        ok == (outcome != HidOutcome::Failed),
        final(sm).pending_reports() == if outcome == HidOutcome::Done && old(
            sm,
        ).pending_reports().len() > 0 {
            old(sm).pending_reports().drop_first()
        } else {
            old(sm).pending_reports()
        },
        final(sm).key_states() == old(sm).key_states(),
        final(sm).keymap() == old(sm).keymap(),
        final(sm).current_scan() == old(sm).current_scan(),
        final(sm).layers() == old(sm).layers(),
        final(sm).one_shots() == old(sm).one_shots(),
        final(sm).active_layer() == old(sm).active_layer(),
{
    match outcome {
        HidOutcome::WouldBlock => true,
        HidOutcome::Duplicate => true,
        HidOutcome::Done => {
            sm.clear_last_scan();
            true
        },
        HidOutcome::Failed => false,
    }
}

/// Whether the keyboard can go on after the HID class's periodic tick, or
/// after reading the host's report:
/// only a busy endpoint is tolerated besides success.
pub fn transfer_ok(outcome: HidOutcome) -> (ok: bool)
    ensures
        ok == (outcome == HidOutcome::Done || outcome == HidOutcome::WouldBlock),
{
    match outcome {
        HidOutcome::Done => true,
        HidOutcome::WouldBlock => true,
        _ => false,
    }
}

} // verus!
