//! Which filesystem operation a request calls for.

use vstd::prelude::*;
use crate::plan::{PlanStep, StepView};
use crate::text::{chars_of, string_of};

verus! {

/// The operation that removes a path.
#[derive(Debug, Clone, Copy, PartialEq, Eq, Structural)]
pub enum RemovalOp {
    /// Unlink a file or a symbolic link.
    RemoveFile,
    /// Remove an empty directory.
    RemoveDir,
    /// Remove a directory and everything below it.
    RemoveDirAll,
}

/// The removal for a path, from its metadata read without following links:
/// a symbolic link is unlinked (never followed, so its target is untouched
/// and a broken link stays removable); a directory is removed with its
/// contents when `recursive` is set and must be empty otherwise; anything
/// else is unlinked.
pub open spec fn spec_removal_op(is_symlink: bool, is_dir: bool, recursive: bool) -> RemovalOp {
    if is_symlink {
        RemovalOp::RemoveFile
    } else if is_dir {
        if recursive {
            RemovalOp::RemoveDirAll
        } else {
            RemovalOp::RemoveDir
        }
    } else {
        RemovalOp::RemoveFile
    }
}

/// The removal for a path (see [`spec_removal_op`]).
pub fn removal_op(is_symlink: bool, is_dir: bool, recursive: bool) -> (r: RemovalOp)
    ensures
        r == spec_removal_op(is_symlink, is_dir, recursive),
        is_symlink ==> r == RemovalOp::RemoveFile,
        !is_symlink && is_dir && recursive ==> r == RemovalOp::RemoveDirAll,
        !is_symlink && is_dir && !recursive ==> r == RemovalOp::RemoveDir,
        !is_symlink && !is_dir ==> r == RemovalOp::RemoveFile,
{
    if is_symlink {
        RemovalOp::RemoveFile
    } else if is_dir {
        if recursive {
            RemovalOp::RemoveDirAll
        } else {
            RemovalOp::RemoveDir
        }
    } else {
        RemovalOp::RemoveFile
    }
}

/// The deletion for a path, from its metadata read without following links:
/// a directory is removed with everything below it, anything else is
/// unlinked.
pub fn deletion_op(is_dir: bool) -> (r: RemovalOp)
    ensures
        r == (if is_dir {
            RemovalOp::RemoveDirAll
        } else {
            RemovalOp::RemoveFile
        }),
{
    if is_dir {
        RemovalOp::RemoveDirAll
    } else {
        RemovalOp::RemoveFile
    }
}

/// A symbolic link is always unlinked, never followed: whether or not the
/// removal is recursive, and whatever the link points to, the removal
/// chosen for a link unlinks the link itself.
pub proof fn lemma_links_are_unlinked(is_dir: bool, recursive: bool)
    ensures
        spec_removal_op(true, is_dir, recursive) == RemovalOp::RemoveFile,
{
}

/// A directory that is not a link is removed as a directory: with its
/// contents exactly when the removal is recursive. Anything else that is
/// not a link is unlinked.
pub proof fn lemma_directories_removed_as_directories(recursive: bool)
    ensures
        spec_removal_op(false, true, recursive) == (if recursive {
            RemovalOp::RemoveDirAll
        } else {
            RemovalOp::RemoveDir
        }),
        spec_removal_op(false, false, recursive) == RemovalOp::RemoveFile,
        spec_removal_op(false, true, true) != spec_removal_op(false, true, false),
{
}

/// Deleting a path does what removing it recursively does, for any metadata
/// read without following links (which never reports a link as a
/// directory).
pub proof fn lemma_delete_is_recursive_remove(is_symlink: bool, is_dir: bool)
    requires
        is_symlink ==> !is_dir,
    ensures
        (if is_dir {
            RemovalOp::RemoveDirAll
        } else {
            RemovalOp::RemoveFile
        }) == spec_removal_op(is_symlink, is_dir, true),
{
}

/// The operation that creates the directory `path`: with `recursive`,
/// missing parents are created too; otherwise the parent must exist.
pub fn mkdir(path: &str, recursive: bool) -> (r: PlanStep)
    ensures
        r@ == (if recursive {
            StepView::CreateDirAll(path@)
        } else {
            StepView::CreateDir(path@)
        }),
{
    let p = string_of(&chars_of(path));
    if recursive {
        PlanStep::CreateDirAll(p)
    } else {
        PlanStep::CreateDir(p)
    }
}

/// The operation that creates the directory `path` and all its missing
/// parents: the same as `mkdir(path, true)`.
pub fn create_dir(path: &str) -> (r: PlanStep)
    ensures
        r@ == StepView::CreateDirAll(path@),
{
    mkdir(path, true)
}

} // verus!
