//! The redraw engine: print to a terminal, erasing what was written last
//! time, so the display updates in place instead of scrolling.
//!
//! The engine owns the text buffer and the print cursor, but not the sink:
//! each operation returns a description of the terminal work to perform —
//! how many rows to move up and erase (`clear`), or the byte offset from
//! which to write the buffer (`print`). The caller queries the viewport
//! fresh before every call, passes it in, and carries the returned work out
//! on its own writer, flushing afterwards.
//!
//! A caller that resizes nothing and prints nothing between a `clear` and
//! the matching `print` keeps the screen consistent. A resize between the
//! two is an accepted limitation: the erased row count was computed at the
//! old width, and stray or over-erased rows can remain.

use vstd::prelude::*;

use crate::wrap::offsets;
use crate::wrap::lemma_row_starts_properties;
use crate::wrap::lemma_row_starts_suffix;
use crate::wrap::row_starts;
use crate::wrap::shift;
use crate::wrap::soft_breaks;
use vstd::slice::slice_subrange;

verus! {

/// The mathematical state of a redraw engine: the buffer contents, the
/// print cursor, and whether the engine has been finalized.
pub struct PrinterModel {
    /// The whole logical content to display.
    pub buf: Seq<u8>,
    /// Bytes at `[cursor, buf.len())` are the suffix currently on screen.
    pub cursor: int,
    /// Whether `print_all` has retired the engine.
    pub finalized: bool,
}

/// A redraw operation was requested after `print_all`: a programming
/// contract violation. Content written without a viewport bound may have
/// scrolled into history that cannot be erased, so a finalized engine
/// refuses every further `clear`, `print` or `print_all`.
#[derive(Debug)]
pub struct UsageError;

/// The redraw engine. `buf` is replaced wholesale by the caller between
/// redraw calls; `clear` erases what the previous `print` drew, `print`
/// draws the tail of the buffer that fits the viewport, and `print_all`
/// writes everything once and retires the engine.
pub struct TermPrinter {
    /// The whole current logical content to display (not just the new part).
    pub buf: Vec<u8>,
    /// Last time, printing started at this byte in `buf` and ran to the end.
    last_print_start: usize,
    /// Set once `print_all` has run; no redraw operation is allowed after.
    finalized: bool,
}

impl View for TermPrinter {
    type V = PrinterModel;

    closed spec fn view(&self) -> PrinterModel {
        PrinterModel {
            buf: self.buf@,
            cursor: self.last_print_start as int,
            finalized: self.finalized,
        }
    }
}

/// Whether the engine still accepts redraw operations.
pub open spec fn can_redraw(m: PrinterModel) -> bool {
    !m.finalized
}

/// The rows `clear` erases: none when the engine is Idle (cursor at the end
/// of the buffer), otherwise one per visual row of the on-screen suffix at
/// the given width.
pub open spec fn clear_rows(m: PrinterModel, width: nat) -> Option<int> {
    if m.cursor == m.buf.len() {
        None
    } else {
        Some(row_starts(m.buf.skip(m.cursor), width).len() as int)
    }
}

/// The state after `clear`: everything erased, nothing left on screen.
pub open spec fn clear_step(m: PrinterModel, width: nat) -> PrinterModel {
    PrinterModel { buf: m.buf, cursor: m.buf.len() as int, finalized: m.finalized }
}

/// The byte offset from which `print` writes: the start of the last
/// `min(height - 1, rows)` visual rows of the buffer. One viewport row is
/// reserved so the engine's own last row cannot force an automatic scroll.
pub open spec fn print_start(buf: Seq<u8>, width: nat, height: nat) -> int
    recommends
        width >= 1,
        height >= 2,
{
    let starts = row_starts(buf, width);
    let rows: int = if height - 1 <= starts.len() {
        height - 1
    } else {
        starts.len() as int
    };
    starts[starts.len() - rows]
}

/// The state after `print`: the written suffix is what is now on screen.
pub open spec fn print_step(m: PrinterModel, width: nat, height: nat) -> PrinterModel {
    PrinterModel {
        buf: m.buf,
        cursor: print_start(m.buf, width, height),
        finalized: m.finalized,
    }
}

/// The state after `print_all`: the engine is retired for good.
pub open spec fn finalize_step(m: PrinterModel) -> PrinterModel {
    PrinterModel { buf: m.buf, cursor: m.cursor, finalized: true }
}

impl TermPrinter {
    /// The print cursor never passes the end of the buffer. A caller that
    /// shrinks `buf` after a `print` must `print` again before `clear`.
    pub open spec fn wf(&self) -> bool {
        0 <= self@.cursor <= self@.buf.len()
    }

    /// A fresh engine: empty buffer, nothing on screen, not finalized.
    pub fn new() -> (r: TermPrinter)
        ensures
            r@ == (PrinterModel { buf: Seq::<u8>::empty(), cursor: 0int, finalized: false }),
            r.wf(),
    {
        TermPrinter { buf: Vec::new(), last_print_start: 0, finalized: false }
    }

    /// The current print cursor, so an unverified caller can check that the
    /// buffer has not been shrunk below it before calling `clear`.
    pub fn cursor(&self) -> (c: usize)
        ensures
            c as int == self@.cursor,
    {
        self.last_print_start
    }

    /// Erase the rows the previous `print` drew. `Ok(Some(k))` instructs the
    /// caller to move the terminal cursor up `k` rows and erase from there to
    /// the end of the screen, then flush; `Ok(None)` means the engine was
    /// Idle and nothing at all is to be emitted (moving up zero rows is not a
    /// safe terminal operation, so the Idle case must stay special).
    pub fn clear(&mut self, width: usize) -> (r: Result<Option<usize>, UsageError>)
        requires
            old(self).wf(),
            width >= 1,
        ensures
            final(self).wf(),
            match r {
                Ok(op) => can_redraw(old(self)@) && final(self)@ == clear_step(
                    old(self)@,
                    width as nat,
                ) && (match op {
                    Some(k) => clear_rows(old(self)@, width as nat) == Some(k as int),
                    None => clear_rows(old(self)@, width as nat) is None,
                }) && (op is None ==> *final(self) == *old(self)),
                Err(_) => !can_redraw(old(self)@) && *final(self) == *old(self),
            },
    {
        if self.finalized {
            return Err(UsageError);
        }
        if self.last_print_start != self.buf.len() {
            let tail: &[u8] = slice_subrange(
                self.buf.as_slice(),
                self.last_print_start,
                self.buf.len(),
            );
            proof {
                assert(tail@ =~= old(self)@.buf.skip(old(self)@.cursor));
            }
            let starts = soft_breaks(tail, width);
            let k = starts.len();
            proof {
                assert(offsets(starts@).len() == starts@.len());
            }
            self.last_print_start = self.buf.len();
            Ok(Some(k))
        } else {
            Ok(None)
        }
    }

    /// Draw the visible tail of `buf`. `Ok(start)` instructs the caller to
    /// write the bytes of `buf[start..]` to the sink, verbatim, then flush.
    /// Only the last `height - 1` visual rows are drawn (one row is reserved
    /// so the final written row cannot sit on the bottom edge and force a
    /// scroll); earlier rows stay in the buffer but are not redrawn.
    pub fn print(&mut self, width: usize, height: usize) -> (r: Result<usize, UsageError>)
        requires
            width >= 1,
            height >= 2,
        ensures
            match r {
                Ok(start) => can_redraw(old(self)@) && final(self)@ == print_step(
                    old(self)@,
                    width as nat,
                    height as nat,
                ) && start as int == print_start(old(self)@.buf, width as nat, height as nat)
                    && final(self)@.buf == old(self)@.buf && final(self).wf(),
                Err(_) => !can_redraw(old(self)@) && *final(self) == *old(self),
            },
    {
        if self.finalized {
            return Err(UsageError);
        }
        let starts = soft_breaks(self.buf.as_slice(), width);
        proof {
            lemma_row_starts_properties(self.buf@, width as nat);
            assert(offsets(starts@).len() == starts@.len());
        }
        let len = starts.len();
        let hm1 = height - 1;
        let rows = if hm1 < len {
            hm1
        } else {
            len
        };
        let start = starts[len - rows];
        proof {
            assert(offsets(starts@)[len - rows] == starts@[len - rows] as int);
        }
        self.last_print_start = start;
        Ok(start)
    }

    /// Write all of `buf`, ignoring the viewport: `Ok(())` instructs the
    /// caller to write the whole buffer to the sink and flush. Content may
    /// scroll past the top of the screen into history the engine cannot
    /// reach, so this retires the engine: every later redraw call fails.
    pub fn print_all(&mut self) -> (r: Result<(), UsageError>)
        ensures
            match r {
                Ok(_) => can_redraw(old(self)@) && final(self)@ == finalize_step(old(self)@),
                Err(_) => !can_redraw(old(self)@) && *final(self) == *old(self),
            },
    {
        if self.finalized {
            return Err(UsageError);
        }
        self.finalized = true;
        Ok(())
    }
}

/// Printing twice in a row, with the buffer and the viewport untouched,
/// changes nothing the second time: the same start offset is selected, the
/// same bytes (the buffer suffix from that offset) are written, and the
/// state after the second print equals the state after the first.
pub proof fn lemma_print_idempotent(m: PrinterModel, width: nat, height: nat)
    requires
        width >= 1,
        height >= 2,
    ensures
        print_step(print_step(m, width, height), width, height) == print_step(m, width, height),
        print_start(print_step(m, width, height).buf, width, height) == print_start(
            m.buf,
            width,
            height,
        ),
        print_step(m, width, height).buf.skip(
            print_start(print_step(m, width, height).buf, width, height),
        ) == m.buf.skip(print_start(m.buf, width, height)),
{
}

/// `clear` on an Idle engine (print cursor at the end of the buffer) is a
/// no-op: no control sequences are to be emitted and the state is unchanged.
pub proof fn lemma_clear_idle_noop(m: PrinterModel, width: nat)
    requires
        m.cursor == m.buf.len(),
    ensures
        clear_rows(m, width) is None,
        clear_step(m, width) == m,
{
}

/// `clear` erases exactly what the previous `print` drew: at an unchanged
/// width, the row count that `clear` reports after a `print` is exactly the
/// number of visual rows the print put on screen — `min(height - 1, rows of
/// the whole buffer)` — and when the print wrote no bytes at all (an empty
/// tail), `clear` emits nothing.
pub proof fn lemma_clear_matches_print(m: PrinterModel, width: nat, height: nat)
    requires
        width >= 1,
        height >= 2,
    ensures
        ({
            let m1 = print_step(m, width, height);
            let total = row_starts(m.buf, width).len() as int;
            let shown: int = if height - 1 <= total {
                height - 1
            } else {
                total
            };
            &&& (m1.cursor < m.buf.len() ==> clear_rows(m1, width) == Some(shown))
            &&& (m1.cursor == m.buf.len() ==> clear_rows(m1, width) is None)
        }),
{
    let starts = row_starts(m.buf, width);
    lemma_row_starts_properties(m.buf, width);
    let total = starts.len() as int;
    let shown: int = if height - 1 <= total {
        height - 1
    } else {
        total
    };
    let i = total - shown;
    assert(print_start(m.buf, width, height) == starts[i]);
    lemma_row_starts_suffix(m.buf, width, i);
    assert(row_starts(m.buf.skip(starts[i]), width) == shift(starts.skip(i), -starts[i]));
    assert(row_starts(m.buf.skip(starts[i]), width).len() == starts.skip(i).len());
    assert(starts.skip(i).len() == shown);
}

/// `print_all` is a one-way transition: once an engine is finalized, no
/// redraw operation is permitted again, and finalizing changed neither the
/// buffer nor the cursor.
pub proof fn lemma_finalize_terminal(m: PrinterModel)
    ensures
        !can_redraw(finalize_step(m)),
        finalize_step(m).buf == m.buf,
        finalize_step(m).cursor == m.cursor,
{
}

} // verus!
