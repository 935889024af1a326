use vstd::prelude::*;

verus! {

/// Standard places in a file, for quick jumps.
#[allow(non_camel_case_types)]
#[derive(Clone, Copy, Debug, PartialEq, Eq, Structural)]
pub enum FilePosition {
    START,
    QUARTER,
    MIDDLE,
    THREE_QUARTERS,
    END,
}

/// The kinds of navigation command.
#[derive(Clone, Copy, Debug, PartialEq, Eq, Structural)]
pub enum NavCommandType {
    AbsoluteJump,
    RelativeMove,
    QuickPosition(FilePosition),
}

impl FilePosition {
    pub open spec fn percent(self) -> u64 {
        match self {
            FilePosition::START => 0,
            FilePosition::QUARTER => 25,
            FilePosition::MIDDLE => 50,
            FilePosition::THREE_QUARTERS => 75,
            FilePosition::END => 100,
        }
    }

    /// How far into the file the position lies, in percent.
    pub fn percentage(&self) -> (r: u64)
        ensures
            r == self.percent(),
    {
        match self {
            FilePosition::START => 0,
            FilePosition::QUARTER => 25,
            FilePosition::MIDDLE => 50,
            FilePosition::THREE_QUARTERS => 75,
            FilePosition::END => 100,
        }
    }
}

} // verus!
