//! The main loop's decision after each read from the channel.

use vstd::prelude::*;

verus! {

/// What the main loop does after a read.
#[derive(Clone, Copy, Debug, PartialEq, Eq, Structural)]
pub enum LoopStep {
    /// Reconcile the screen now; nothing is pending afterwards.
    Flush,
    /// A character arrived; count it as pending.
    Count,
    /// Nothing arrived and nothing is pending: sleep a little.
    Idle,
}

/// Given how many characters wait to be shown, whether the read gave data,
/// and the batch size: flush once a batch has gathered, or when input
/// pauses with characters pending; otherwise count the new character, or
/// idle.
pub fn after_read(pending: usize, got_data: bool, batch: usize) -> (r: (usize, LoopStep))
    ensures
        (pending >= batch || (!got_data && pending > 0)) ==> r == (0usize, LoopStep::Flush),
        !(pending >= batch || (!got_data && pending > 0)) && got_data ==> r == ((pending + 1) as usize, LoopStep::Count),
        !(pending >= batch || (!got_data && pending > 0)) && !got_data ==> r == (pending, LoopStep::Idle),
{
    if pending >= batch || (!got_data && pending > 0) {
        (0, LoopStep::Flush)
    } else if got_data {
        (pending + 1, LoopStep::Count)
    } else {
        (pending, LoopStep::Idle)
    }
}

} // verus!
