//! The studio's utility tools.

use vstd::prelude::*;

verus! {

/// A tool on the utilities page.
#[derive(Clone, Copy, PartialEq, Eq, Debug, Structural)]
pub enum Tool {
    /// The sprite cut editor, which the page opens on.
    Imgcut,
    /// The animation viewer.
    Animation,
    /// The unit cloner.
    Clone,
}

impl Default for Tool {
    fn default() -> (tool: Tool)
        ensures
            tool == Tool::Imgcut,
    {
        Tool::Imgcut
    }
}

} // verus!
