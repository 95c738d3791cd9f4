//! The update scheduler's policy: when the caller, having absorbed one more
//! unit of input, should redraw.
//!
//! Mid-stream redraws are throttled to a fixed frame rate and happen only on
//! an interactive terminal — a redirected sink never receives control
//! sequences mid-stream. End of input is not throttled: the caller always
//! performs one final clear-and-flush pass, whatever this policy said
//! before.

use vstd::prelude::*;

verus! {

/// Terminal updates are limited to this many frames per second.
pub const FPS: u64 = 20;

/// Whether a mid-stream redraw is due: at least one frame period has fully
/// passed since the last redraw, and the sink is an interactive terminal.
pub fn should_redraw(elapsed_ms: u64, is_tty: bool) -> (r: bool)
    ensures
        r == (is_tty && elapsed_ms > 1000u64 / FPS),
{
    is_tty && elapsed_ms > 1000 / FPS
}

} // verus!
