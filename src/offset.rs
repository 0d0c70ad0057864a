//! How many bytes a window leaves out at its two ends.
use vstd::prelude::*;

verus! {

/// Bytes left out of the first segment of a window (`Start`), of its last segment
/// (`End`), or of both.
#[derive(Debug, Clone, Copy)]
pub enum Offset {
    Whole,
    Start(usize),
    End(usize),
    StartEnd(usize, usize),
}

impl Offset {
    /// Bytes left out at the front of the first segment.
    pub open spec fn start(self) -> nat {
        match self {
            Offset::Start(s) => s as nat,
            Offset::StartEnd(s, _) => s as nat,
            _ => 0,
        }
    }

    /// Bytes left out at the back of the last segment.
    pub open spec fn end(self) -> nat {
        match self {
            Offset::End(e) => e as nat,
            Offset::StartEnd(_, e) => e as nat,
            _ => 0,
        }
    }

    /// The offset that leaves out `start` bytes at the front and `end` at the back.
    pub fn from_parts(start: usize, end: usize) -> (r: Offset)
        ensures
            r.start() == start,
            r.end() == end,
    {
        if start == 0 && end == 0 {
            Offset::Whole
        } else if end == 0 {
            Offset::Start(start)
        } else if start == 0 {
            Offset::End(end)
        } else {
            Offset::StartEnd(start, end)
        }
    }

    pub fn start_bytes(&self) -> (r: usize)
        ensures
            r == self.start(),
    {
        match self {
            Offset::Start(s) => *s,
            Offset::StartEnd(s, _) => *s,
            _ => 0,
        }
    }

    pub fn end_bytes(&self) -> (r: usize)
        ensures
            r == self.end(),
    {
        match self {
            Offset::End(e) => *e,
            Offset::StartEnd(_, e) => *e,
            _ => 0,
        }
    }
}

} // verus!
