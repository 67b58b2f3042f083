//! Decisions of the workbench runtime that do not depend on the user interface.
use vstd::prelude::*;

pub mod demos;
pub mod runtime;

verus! {

/// The steps of the workbench inspector, in navigation order.
#[derive(Clone, Copy, PartialEq, Eq, Debug)]
pub enum Inspector {
    Room,
    Displays,
    Strip,
    Rules,
}

impl Inspector {
    pub open spec fn position(self) -> usize {
        match self {
            Inspector::Room => 0,
            Inspector::Displays => 1,
            Inspector::Strip => 2,
            Inspector::Rules => 3,
        }
    }

    /// Zero-based position in navigation order.
    pub fn index(self) -> (r: usize)
        ensures
            r == self.position(),
            r < 4,
    {
        match self {
            Inspector::Room => 0,
            Inspector::Displays => 1,
            Inspector::Strip => 2,
            Inspector::Rules => 3,
        }
    }

    pub fn label(self) -> (r: &'static str)
        ensures
            r@ == (match self {
                Inspector::Room => "Room"@,
                Inspector::Displays => "Displays"@,
                Inspector::Strip => "Strip"@,
                Inspector::Rules => "Rules"@,
            }),
    {
        match self {
            Inspector::Room => "Room",
            Inspector::Displays => "Displays",
            Inspector::Strip => "Strip",
            Inspector::Rules => "Rules",
        }
    }

    /// Every step, in navigation order.
    pub fn all() -> (r: [Inspector; 4])
        ensures
            forall|i: int| 0 <= i < 4 ==> (#[trigger] r@[i]).position() == i,
    {
        [Inspector::Room, Inspector::Displays, Inspector::Strip, Inspector::Rules]
    }
}

} // verus!
