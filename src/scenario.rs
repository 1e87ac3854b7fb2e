use vstd::prelude::*;

verus! {

/// The scenario with no agent, on a unit-square walkable area.
#[derive(Clone, Copy, Debug, PartialEq, Eq)]
pub struct EmptyScenario {}

impl EmptyScenario {
    pub fn new() -> (r: Self)
        ensures
            r == (EmptyScenario {}),
    {
        EmptyScenario {}
    }
}

impl Default for EmptyScenario {
    fn default() -> (r: Self)
        ensures
            r == (EmptyScenario {}),
    {
        EmptyScenario::new()
    }
}

} // verus!
