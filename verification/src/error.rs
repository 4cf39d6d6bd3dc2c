//! Error kinds and diagnostic rendering.
//!
//! Two disjoint taxonomies: `ParseError` for faults in the user's source,
//! and `InternalError` for pipeline states that a correct compiler never
//! reaches. `ErrorCtx` renders a report with a bounded window of source text
//! before the failing position and a caret under its end.

use vstd::prelude::*;
use vstd::string::{StrSliceExecFns, StringExecFns};

verus! {

/// A fault in the user's source text.
#[derive(Debug, PartialEq, Eq, Structural, Clone, Copy)]
pub enum ParseError {
    /// The input ended while a loop was still open. `position` is one past
    /// the index of the last consumed token, counted in the token sequence.
    UnterminatedLoop { position: usize },
    /// A `LoopEnd` token with no open loop to match it. `position` is the
    /// 1-based source offset the stray token carries.
    UnexpectedLoopClose { position: usize },
}

/// An internal-consistency violation: a state the pipeline's own contracts
/// rule out. Never caused by user input.
#[derive(Debug, PartialEq, Eq, Structural, Clone, Copy)]
pub enum InternalError {
    /// A `Command` node whose kind is not one of the six primitives reached
    /// lowering.
    InvalidCommandKind,
    /// The root of an IR is not the `Module` variant.
    NoModuleAtRoot,
    /// A `Module` variant stands below the root of an IR.
    MultipleModules,
}

/// Holds the source text so that a diagnostic can quote the window of it
/// that precedes the failing position.
pub struct ErrorCtx {
    source: String,
}

impl View for ErrorCtx {
    type V = Seq<char>;

    closed spec fn view(&self) -> Seq<char> {
        self.source@
    }
}

/// Where the quoted window starts: at most nine characters before the
/// (clamped) failing position when the source is longer than ten
/// characters, and the start of the source otherwise.
pub open spec fn window_start(len: int, position: int) -> int {
    if len > 10 {
        if position >= 9 {
            position - 9
        } else {
            0
        }
    } else {
        0
    }
}

/// The failing position clamped into the source: the window never reaches
/// past the end of the text.
pub open spec fn window_end(len: int, position: int) -> int {
    if position <= len {
        position
    } else {
        len
    }
}

/// A sequence of `n` spaces, used to align the caret under the window.
pub open spec fn spaces(n: int) -> Seq<char> {
    Seq::new(n as nat, |i: int| ' ')
}

/// The full report text: the message, the window of source text ending at
/// the failing position, and a caret marker aligned to the window's end,
/// each on a line of its own.
pub open spec fn report_spec(src: Seq<char>, message: Seq<char>, position: int) -> Seq<char> {
    let end = window_end(src.len() as int, position);
    let start = window_start(src.len() as int, end);
    let window = src.subrange(start, end);
    message + "\n"@ + window + "\n"@ + spaces(window.len() as int) + "^ Here\n"@
}

impl ErrorCtx {
    pub fn new(source: &str) -> (r: Self)
        ensures
            r@ == source@,
    {
        Self { source: String::from_str(source) }
    }

    /// Render the diagnostic for `message` at `position` (a 1-based
    /// character offset into the source) as the text a driver prints.
    pub fn report(&self, message: &str, position: usize) -> (r: String)
        ensures
            r@ == report_spec(self@, message@, position as int),
    {
        let len = self.source.as_str().unicode_len();
        let end = if position <= len {
            position
        } else {
            len
        };
        let start = if len > 10 {
            if end >= 9 {
                end - 9
            } else {
                0
            }
        } else {
            0
        };
        let window = self.source.as_str().substring_char(start, end);
        let mut r = String::from_str(message);
        r.append("\n");
        r.append(window);
        r.append("\n");
        let wlen = window.unicode_len();
        let mut i: usize = 0;
        while i < wlen
            invariant
                i <= wlen,
                wlen == window@.len(),
                r@ == message@ + "\n"@ + window@ + "\n"@ + spaces(i as int),
            decreases wlen - i,
        {
            r.append(" ");
            i += 1;
            proof {
                reveal_strlit(" ");
                assert(spaces(i as int) =~= spaces(i as int - 1) + " "@);
            }
        }
        r.append("^ Here\n");
        r
    }
}

} // verus!
