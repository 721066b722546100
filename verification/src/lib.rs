//! A verified core for a small file-organizing tool.
//!
//! The library plans how the files of a directory tree are sorted into
//! category subdirectories (derived from each file's extension), resolves
//! name collisions with numeric suffixes, and accounts for the moves and
//! directory creations.  All filesystem work is left to the caller: the
//! planner reads a listing of the tree and returns the actions to perform.

pub mod categories;
pub mod confirm;
pub mod laws;
pub mod naming;
pub mod planner;
pub mod text;

use vstd::prelude::*;
use crate::confirm::is_affirmative;
use crate::confirm::affirmative;
use crate::planner::Entry;
use crate::planner::Plan;
use crate::planner::plan_moves;
use crate::planner::run;

verus! {

/// One whole invocation: the user's answer gates the run.  An affirmative
/// answer yields the full plan of `run`; any other answer yields `None`,
/// and nothing at all is to be moved, created, or counted.
pub fn organize(input: &Vec<char>, entries: &Vec<Entry>) -> (r: Option<Plan>)
    ensures
        r is Some <==> affirmative(input@),
        r matches Some(p) ==> {
            &&& p.actions.deep_view() == run(entries.deep_view()).actions
            &&& p.actions@.len() == entries@.len()
            &&& p.files_moved as nat == run(entries.deep_view()).moved
            &&& p.dirs_created as nat == run(entries.deep_view()).created
        },
{
    if is_affirmative(input) {
        Some(plan_moves(entries))
    } else {
        None
    }
}

} // verus!
