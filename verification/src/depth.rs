//! The depth gate: how far the pipeline runs for one invocation, used to
//! truncate work after any stage for profiling.  Truncation is monotone: each
//! depth runs everything the shallower depths run, and only the full depth
//! produces output.

use vstd::prelude::*;

verus! {

/// How far the pipeline runs, ordered from reading only through writing the
/// output.
#[derive(Clone, Copy, PartialEq, Eq, Structural, Debug)]
pub enum Depth {
    /// Records are read and discarded.
    ReadOnly,
    /// Records are also parsed into field mappings.
    Parsed,
    /// The selected fields are also picked out.
    Projected,
    /// The projected line body is also assembled.
    Assembled,
    /// The line terminator is also appended.
    LineTerminated,
    /// The projected lines are also emitted.
    Written,
}

impl Depth {
    /// The numeric stage this depth runs through, 1 (read only) to 6 (write).
    pub open spec fn level(self) -> int {
        match self {
            Depth::ReadOnly => 1,
            Depth::Parsed => 2,
            Depth::Projected => 3,
            Depth::Assembled => 4,
            Depth::LineTerminated => 5,
            Depth::Written => 6,
        }
    }

    /// Executable counterpart of `level`.
    pub fn stage(self) -> (n: u32)
        ensures
            n as int == self.level(),
    {
        match self {
            Depth::ReadOnly => 1,
            Depth::Parsed => 2,
            Depth::Projected => 3,
            Depth::Assembled => 4,
            Depth::LineTerminated => 5,
            Depth::Written => 6,
        }
    }

    /// The depth for a numeric stage argument; `None` outside 1 through 6.
    pub fn from_stage(n: u32) -> (r: Option<Depth>)
        ensures
            r matches Some(d) ==> 1 <= n <= 6 && d.level() == n as int,
            r is None ==> !(1 <= n <= 6),
    {
        if n == 1 {
            Some(Depth::ReadOnly)
        } else if n == 2 {
            Some(Depth::Parsed)
        } else if n == 3 {
            Some(Depth::Projected)
        } else if n == 4 {
            Some(Depth::Assembled)
        } else if n == 5 {
            Some(Depth::LineTerminated)
        } else if n == 6 {
            Some(Depth::Written)
        } else {
            None
        }
    }
}

} // verus!
