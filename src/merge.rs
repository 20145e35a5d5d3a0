//! File-level resolution of one-sided and mismatched entries, as a plan of
//! filesystem steps.
use vstd::prelude::*;

use crate::directory::{DiffEntry, DiffType};
use crate::paths::RelPath;

verus! {

/// Action on a file-level entry (`LeftOnly`, `RightOnly`, `TypeMismatch`).
#[derive(Debug, Clone, Copy, PartialEq, Eq, Structural)]
pub enum FileAction {
    /// Copy to the other tree.
    Copy,
    /// Delete from the tree that holds it.
    Delete,
    /// Leave it as it is.
    Skip,
}

/// Older vocabulary of actions on an entry.
#[derive(Debug, Clone, Copy, PartialEq, Eq, Structural)]
pub enum MergeAction {
    UseLeft,
    UseRight,
    Keep,
    Delete,
    Skip,
}

/// One of the two compared trees.
#[derive(Debug, Clone, Copy, PartialEq, Eq, Structural)]
pub enum Side {
    Left,
    Right,
}

/// One filesystem step, on a path relative to the roots.
#[derive(Debug, Clone, PartialEq, Eq)]
pub enum FsStep {
    /// Copy the file or directory at `path` from side `from` to the other
    /// side, making parent directories as needed.
    Copy { from: Side, path: RelPath },
    /// Remove the file or directory at `path` on side `side`, if present.
    Remove { side: Side, path: RelPath },
}

/// What a step does, on the path's components.
pub enum StepModel {
    Copy { from: Side, path: Seq<Seq<char>> },
    Remove { side: Side, path: Seq<Seq<char>> },
}

impl View for FsStep {
    type V = StepModel;

    open spec fn view(&self) -> StepModel {
        match self {
            FsStep::Copy { from, path } => StepModel::Copy { from: *from, path: path@ },
            FsStep::Remove { side, path } => StepModel::Remove { side: *side, path: path@ },
        }
    }
}

/// The other side.
pub open spec fn other(s: Side) -> Side {
    match s {
        Side::Left => Side::Right,
        Side::Right => Side::Left,
    }
}

/// The steps that make the side `winner` hold on both sides at `p`: the
/// other side's entry is removed, then the winner's is copied over.
pub open spec fn replace_plan(p: Seq<Seq<char>>, winner: Side) -> Seq<StepModel> {
    seq![StepModel::Remove { side: other(winner), path: p }, StepModel::Copy { from: winner, path: p }]
}

/// The steps of `action` on an entry of kind `t` at `p`.
pub open spec fn action_plan(t: DiffType, action: FileAction, p: Seq<Seq<char>>) -> Seq<StepModel> {
    match (t, action) {
        (DiffType::LeftOnly, FileAction::Copy) => seq![StepModel::Copy { from: Side::Left, path: p }],
        (DiffType::LeftOnly, FileAction::Delete) => seq![StepModel::Remove { side: Side::Left, path: p }],
        (DiffType::RightOnly, FileAction::Copy) => seq![StepModel::Copy { from: Side::Right, path: p }],
        (DiffType::RightOnly, FileAction::Delete) => seq![StepModel::Remove { side: Side::Right, path: p }],
        (DiffType::TypeMismatch, FileAction::Copy) => replace_plan(p, Side::Left),
        (DiffType::TypeMismatch, FileAction::Delete) => seq![StepModel::Remove { side: Side::Right, path: p }],
        _ => Seq::<StepModel>::empty(),
    }
}

fn other_side(s: Side) -> (r: Side)
    ensures
        r == other(s),
{
    match s {
        Side::Left => Side::Right,
        Side::Right => Side::Left,
    }
}

/// The steps that make the side `winner` hold on both sides at `path`.
pub fn replace_steps(path: &RelPath, winner: Side) -> (r: Vec<FsStep>)
    ensures
        r@.map_values(|s: FsStep| s@) == replace_plan(path@, winner),
{
    let r = vec![
        FsStep::Remove { side: other_side(winner), path: path.clone_path() },
        FsStep::Copy { from: winner, path: path.clone_path() },
    ];
    proof {
        assert(r@.map_values(|s: FsStep| s@) =~= replace_plan(path@, winner));
    }
    r
}

/// The filesystem steps of a file-level action on an entry: a one-sided
/// entry is copied to the other side or deleted where it is; for a type
/// mismatch, copying puts the left entry in place of the right one and
/// deleting removes the right one. Skipping, and any action on a `Modified`
/// entry, takes no step.
pub fn apply_file_action(entry: &DiffEntry, action: FileAction) -> (r: Vec<FsStep>)
    ensures
        r@.map_values(|s: FsStep| s@) == action_plan(entry.diff_type, action, entry.path@),
{
    let p = &entry.path;
    let r = match (entry.diff_type, action) {
        (DiffType::LeftOnly, FileAction::Copy) => vec![FsStep::Copy { from: Side::Left, path: p.clone_path() }],
        (DiffType::LeftOnly, FileAction::Delete) => vec![FsStep::Remove { side: Side::Left, path: p.clone_path() }],
        (DiffType::RightOnly, FileAction::Copy) => vec![FsStep::Copy { from: Side::Right, path: p.clone_path() }],
        (DiffType::RightOnly, FileAction::Delete) => vec![FsStep::Remove { side: Side::Right, path: p.clone_path() }],
        (DiffType::TypeMismatch, FileAction::Copy) => replace_steps(p, Side::Left),
        (DiffType::TypeMismatch, FileAction::Delete) => vec![FsStep::Remove { side: Side::Right, path: p.clone_path() }],
        _ => Vec::new(),
    };
    proof {
        assert(r@.map_values(|s: FsStep| s@) =~= action_plan(entry.diff_type, action, entry.path@));
    }
    r
}

} // verus!
