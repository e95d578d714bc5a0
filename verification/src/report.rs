//! Result aggregation: one counter per rule over a whole scan, the final
//! verdict derived from them, and the diagnostic sink's step decision.

use vstd::prelude::*;

use crate::check::{
    HAS_ILLEGAL_CHARACTERS, HAS_TABS, HAS_WINDOWS_LINE_ENDINGS, LINE_TOO_LONG, TRAILING_SPACES,
};

verus! {

/// Aggregated counters over a whole scan: how many files violated each rule,
/// and how many files were checked at all.
#[derive(Clone, Copy, Debug, PartialEq, Eq, Structural)]
pub struct Findings {
    pub had_tabs: u32,
    pub had_trailing_ws: u32,
    pub had_illegals: u32,
    pub had_too_long_lines: u32,
    pub had_win_line_endings: u32,
    pub checked_files: u32,
}

impl Findings {
    /// The sum of the five per-rule counters.
    pub open spec fn total(&self) -> int {
        self.had_tabs + self.had_trailing_ws + self.had_illegals + self.had_too_long_lines
            + self.had_win_line_endings
    }

    /// A fresh aggregate with every counter at zero.
    pub fn new() -> (r: Findings)
        ensures
            r.had_tabs == 0 && r.had_trailing_ws == 0 && r.had_illegals == 0
                && r.had_too_long_lines == 0 && r.had_win_line_endings == 0 && r.checked_files
                == 0,
    {
        Findings {
            had_tabs: 0,
            had_trailing_ws: 0,
            had_illegals: 0,
            had_too_long_lines: 0,
            had_win_line_endings: 0,
            checked_files: 0,
        }
    }

    /// Record one file's diagnostic bitmask: every set flag bumps its
    /// counter, and one more file counts as checked. A single bitmask with
    /// several flags set bumps several counters.
    pub fn record(&mut self, flags: u8)
        requires
            old(self).had_tabs < u32::MAX,
            old(self).had_trailing_ws < u32::MAX,
            old(self).had_illegals < u32::MAX,
            old(self).had_too_long_lines < u32::MAX,
            old(self).had_win_line_endings < u32::MAX,
            old(self).checked_files < u32::MAX,
        ensures
            final(self).had_tabs == old(self).had_tabs + (if flags & HAS_TABS != 0 {
                1int
            } else {
                0int
            }),
            final(self).had_trailing_ws == old(self).had_trailing_ws + (if flags & TRAILING_SPACES
                != 0 {
                1int
            } else {
                0int
            }),
            final(self).had_illegals == old(self).had_illegals + (if flags & HAS_ILLEGAL_CHARACTERS
                != 0 {
                1int
            } else {
                0int
            }),
            final(self).had_too_long_lines == old(self).had_too_long_lines + (if flags
                & LINE_TOO_LONG != 0 {
                1int
            } else {
                0int
            }),
            final(self).had_win_line_endings == old(self).had_win_line_endings + (if flags
                & HAS_WINDOWS_LINE_ENDINGS != 0 {
                1int
            } else {
                0int
            }),
            final(self).checked_files == old(self).checked_files + 1,
    {
        if flags & HAS_TABS > 0 {
            self.had_tabs += 1;
        }
        if flags & TRAILING_SPACES > 0 {
            self.had_trailing_ws += 1;
        }
        if flags & HAS_ILLEGAL_CHARACTERS > 0 {
            self.had_illegals += 1;
        }
        if flags & LINE_TOO_LONG > 0 {
            self.had_too_long_lines += 1;
        }
        if flags & HAS_WINDOWS_LINE_ENDINGS > 0 {
            self.had_win_line_endings += 1;
        }
        self.checked_files += 1;
    }

    /// The total number of rule violations counted.
    pub fn total_errors(&self) -> (r: u64)
        ensures
            r == self.total(),
    {
        self.had_tabs as u64 + self.had_trailing_ws as u64 + self.had_illegals as u64
            + self.had_too_long_lines as u64 + self.had_win_line_endings as u64
    }

    /// The process exit status: zero exactly when every counter is zero.
    pub fn verdict(&self) -> (r: u64)
        ensures
            r == 0 <==> self.total() == 0,
            r == 0 || r == 1,
    {
        if self.total_errors() > 0 {
            1
        } else {
            0
        }
    }
}

/// One step of the diagnostic sink. The argument is the outcome of one
/// channel receive: no value when the channel failed, otherwise the received
/// message, where an empty message is the sentinel that ends the sink. The
/// result says whether the sink is done and what, if anything, to print.
pub fn sink_step(received: Option<Option<String>>) -> (r: (bool, Option<String>))
    ensures
        r.0 == (received matches Option::Some(Option::None)),
        r.1 == (match received {
            Option::Some(Option::Some(p)) => Option::Some(p),
            _ => Option::<String>::None,
        }),
{
    match received {
        Option::Some(Option::Some(p)) => (false, Option::Some(p)),
        Option::Some(Option::None) => (true, Option::None),
        Option::None => (false, Option::None),
    }
}

} // verus!
