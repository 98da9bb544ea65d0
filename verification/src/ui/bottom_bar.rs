//! The bar that names the two branches.

use vstd::prelude::*;
use vstd::string::StringExecFns;

use crate::state::AppState;

verus! {

/// The bar at the foot of the display.
#[derive(Debug, Default)]
pub struct BottomBar {}

impl BottomBar {
    /// The three spans of the bar: the branch merged into, an arrow, and
    /// the branch that the commits come from.
    pub fn render(state: &AppState) -> (spans: (String, String, String))
        ensures
            spans.0@ == state.into_branch@,
            spans.1@ == seq![' ', '<', '-', ' '],
            spans.2@ == state.from_branch@,
    {
        proof {
            reveal_strlit(" <- ");
        }
        (state.into_branch.clone(), String::from_str(" <- "), state.from_branch.clone())
    }
}

} // verus!
