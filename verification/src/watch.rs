//! What to watch, and when to run again.
//!
//! The shape of a tree can change with every edit: a directive is added,
//! removed, or pointed at another file. So the files to watch are listed
//! anew on every change, and the new list replaces the old one whole.

use vstd::prelude::*;
use crate::error::Error;
use crate::expansion::expansion;
use crate::segment::SegmentView;
use crate::store::World;
use crate::text::texts_of;
use crate::tree::includes;
use crate::tree::leads_to;
use crate::tree::lemma_reaches_joined;
use crate::tree::lemma_reaches_through;
use crate::tree::lemma_touched_is_the_tree;
use crate::tree::reaches;
use crate::tree::reaches_in;

verus! {

/// The kinds of change that a debounced file watcher reports.
#[derive(Debug, Clone, Copy, PartialEq, Eq, Structural)]
pub enum ChangeKind {
    /// A change, after which the file has been quiet.
    Any,
    /// A change to a file that is still changing.
    AnyContinuous,
}

/// Whether a batch of changes calls for a new run: it does where it holds
/// a change after which the file has been quiet.
pub fn calls_for_run(changes: &Vec<ChangeKind>) -> (run: bool)
    ensures
        run == exists|i: int| 0 <= i < changes.len() && changes[i] == ChangeKind::Any,
{
    let mut i: usize = 0;
    while i < changes.len()
        invariant
            i <= changes.len(),
            forall|j: int| 0 <= j < i ==> changes[j] != ChangeKind::Any,
        decreases changes.len() - i,
    {
        if changes[i] == ChangeKind::Any {
            return true;
        }
        i += 1;
    }
    false
}

/// Decides what the watcher is to do with a new listing of the tree.
///
/// Where the tree was listed, the list replaces `import_paths`, the paths
/// that are subscribed: the paths returned are the old ones, all of which
/// are to be unsubscribed before all of the new ones are subscribed. Where
/// listing failed, the subscriptions stay as they are and the error is
/// handed back to be reported.
pub fn reset_watcher(import_paths: &mut Vec<String>, listed: Result<Vec<String>, Error>) -> (dropped:
    Result<Vec<String>, Error>)
    ensures
        match listed {
            Ok(paths) => {
                &&& dropped == Ok::<Vec<String>, Error>(*old(import_paths))
                &&& *final(import_paths) == paths
            },
            Err(error) => {
                &&& dropped == Err::<Vec<String>, Error>(error)
                &&& *final(import_paths) == *old(import_paths)
            },
        },
{
    match listed {
        Ok(paths) => {
            let mut before = paths;
            std::mem::swap(import_paths, &mut before);
            Ok(before)
        },
        Err(error) => Err(error),
    }
}

/// Watching follows the tree. Let `world` hold the answers of the file
/// system after an edit, and let the watcher have been reset with the files
/// that the tree was then listed with, so that `subscribed` holds exactly
/// the files that the walk opened. Then the entry file is subscribed, and
/// so is every file that a directive of a subscribed document leads to:
/// among them the new target of a directive that was pointed at another
/// file. And a file that the entry document does not reach is not
/// subscribed: so the old target is subscribed no longer, unless the tree
/// still holds it.
pub proof fn lemma_watch_follows_tree(
    world: World,
    entry: Seq<char>,
    subscribed: Seq<String>,
    path: Seq<char>,
    reference: Seq<char>,
    target: Seq<char>,
    other: Seq<char>,
)
    requires
        world.finite(),
        expansion(world, entry).ending is Complete,
        texts_of(subscribed).to_set() == expansion(world, entry).touched,
    ensures
        world.links.contains_key((None, entry)),
        world.links[(None, entry)] matches Ok(root) && {
            &&& texts_of(subscribed).contains(root)
            &&& texts_of(subscribed).contains(path) && world.documents.contains_key(path)
                && world.documents[path].segments.contains(SegmentView::IncludeRef(reference))
                && leads_to(world, path, reference, target) ==> texts_of(subscribed).contains(
                target,
            )
            &&& !reaches(world, root, other) ==> !texts_of(subscribed).contains(other)
        },
{
    lemma_touched_is_the_tree(world, entry);
    let root = world.links[(None, entry)]->Ok_0;
    let files = expansion(world, entry).touched;
    assert(forall|file: Seq<char>| texts_of(subscribed).contains(file) <==> files.contains(file));
    assert(reaches_in(world, root, root, 0));
    assert(reaches(world, root, root));
    if texts_of(subscribed).contains(path) && world.documents.contains_key(path)
        && world.documents[path].segments.contains(SegmentView::IncludeRef(reference))
        && leads_to(world, path, reference, target) {
        assert(reaches(world, root, path));
        assert(reaches_in(world, target, target, 0));
        assert(includes(world, path, target));
        lemma_reaches_through(world, path, target, target);
        lemma_reaches_joined(world, root, path, target);
    }
}

} // verus!
