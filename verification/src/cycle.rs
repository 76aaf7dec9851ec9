//! Cycles: what the cycle error says of a tree, and when it comes.
//!
//! A document is on a cycle where it includes itself, directly or through
//! the documents that it includes. Two documents that include the same file
//! make no cycle.

use vstd::prelude::*;
use crate::error::ErrorView;
use crate::expansion::eval;
use crate::expansion::expansion;
use crate::expansion::follow;
use crate::expansion::leading_out;
use crate::expansion::lemma_leading_out_decreases;
use crate::expansion::visit;
use crate::expansion::walk;
use crate::expansion::Ending;
use crate::segment::SegmentView;
use crate::store::World;
use crate::tree::includes;
use crate::tree::leads_to;
use crate::tree::lemma_reaches_joined;
use crate::tree::lemma_reaches_through;
use crate::tree::reaches;
use crate::tree::reaches_in;

verus! {

/// Whether the document at `path` is on a cycle: one inclusion or more lead
/// from it back to it.
pub open spec fn on_cycle(world: World, path: Seq<char>) -> bool {
    exists|steps: nat| steps >= 1 && #[trigger] reaches_in(world, path, path, steps)
}

/// What reaches a document reaches, one step further, what it includes.
proof fn lemma_reaches_in_extended(
    world: World,
    from: Seq<char>,
    through: Seq<char>,
    to: Seq<char>,
    steps: nat,
)
    requires
        reaches_in(world, from, through, steps),
        includes(world, through, to),
    ensures
        reaches_in(world, from, to, steps + 1),
    decreases steps,
{
    if steps == 0 {
        assert(reaches_in(world, to, to, 0));
    } else {
        let next = choose|next: Seq<char>|
            #[trigger] includes(world, from, next) && reaches_in(
                world,
                next,
                through,
                (steps - 1) as nat,
            );
        lemma_reaches_in_extended(world, next, through, to, (steps - 1) as nat);
    }
}

/// Whether every document of `lineage` reaches the document at `path`.
spec fn above(world: World, lineage: Set<Seq<char>>, path: Seq<char>) -> bool {
    forall|ancestor: Seq<char>| #[trigger]
        lineage.contains(ancestor) ==> reaches(world, ancestor, path)
}

proof fn lemma_follow_names_cycle(
    world: World,
    path: Seq<char>,
    reference: Seq<char>,
    lineage: Set<Seq<char>>,
    named: Seq<char>,
)
    requires
        world.finite(),
        above(world, lineage, path),
        world.documents.contains_key(path),
        world.documents[path].segments.contains(SegmentView::IncludeRef(reference)),
        follow(world, Some(path), reference, lineage).ending == Ending::Failed(
            ErrorView::ImportCycle(named),
        ),
    ensures
        on_cycle(world, named),
        lineage.contains(named) || reaches(world, path, named),
    decreases leading_out(world, lineage).len(), 0nat, 0nat,
{
    let origin = (Some(path), reference);
    match world.links[origin] {
        Err(description) => {},
        Ok(target) => {
            assert(leads_to(world, path, reference, target));
            assert(includes(world, path, target));
            assert(reaches_in(world, target, target, 0));
            lemma_reaches_through(world, path, target, target);
            if lineage.contains(target) {
                let steps = choose|steps: nat| reaches_in(world, target, path, steps);
                lemma_reaches_in_extended(world, target, path, target, steps);
                assert(reaches_in(world, target, target, steps + 1));
            } else {
                let longer = lineage.insert(target);
                assert forall|ancestor: Seq<char>| #[trigger]
                    longer.contains(ancestor) implies reaches(world, ancestor, target) by {
                    if ancestor != target {
                        lemma_reaches_joined(world, ancestor, path, target);
                    }
                }
                lemma_leading_out_decreases(world, lineage, origin, target);
                lemma_visit_names_cycle(world, target, longer, named);
                if !longer.contains(named) {
                    lemma_reaches_joined(world, path, target, named);
                }
            }
        },
    }
}

proof fn lemma_visit_names_cycle(
    world: World,
    path: Seq<char>,
    lineage: Set<Seq<char>>,
    named: Seq<char>,
)
    requires
        world.finite(),
        above(world, lineage, path),
        visit(world, path, lineage).ending == Ending::Failed(ErrorView::ImportCycle(named)),
    ensures
        on_cycle(world, named),
        lineage.contains(named) || reaches(world, path, named),
    decreases leading_out(world, lineage).len(), 3nat, 0nat,
{
    let segments = world.documents[path].segments;
    lemma_walk_names_cycle(world, path, lineage, segments, named);
}

proof fn lemma_walk_names_cycle(
    world: World,
    path: Seq<char>,
    lineage: Set<Seq<char>>,
    segments: Seq<SegmentView>,
    named: Seq<char>,
)
    requires
        world.finite(),
        above(world, lineage, path),
        world.documents.contains_key(path),
        forall|i: int|
            0 <= i < segments.len() ==> world.documents[path].segments.contains(
                #[trigger] segments[i],
            ),
        walk(world, path, lineage, segments).ending == Ending::Failed(
            ErrorView::ImportCycle(named),
        ),
    ensures
        on_cycle(world, named),
        lineage.contains(named) || reaches(world, path, named),
    decreases leading_out(world, lineage).len(), 2nat, segments.len(),
{
    if segments.len() > 0 {
        if eval(world, path, lineage, segments.first()).ending is Complete {
            assert forall|i: int| 0 <= i < segments.drop_first().len() implies world.documents[path].segments.contains(
             #[trigger] segments.drop_first()[i]) by {
                assert(segments.drop_first()[i] == segments[i + 1]);
            }
            lemma_walk_names_cycle(world, path, lineage, segments.drop_first(), named);
        } else {
            match segments.first() {
                SegmentView::Text(text) => {},
                SegmentView::IncludeRef(reference) => {
                    assert(segments[0] == SegmentView::IncludeRef(reference));
                    lemma_follow_names_cycle(world, path, reference, lineage, named);
                },
            }
        }
    }
}

/// The cycle error names a cycle: where the walk of a tree fails with
/// `ImportCycle(named)`, the entry document reaches the document `named`,
/// and that document includes itself, directly or through the documents
/// that it includes. So a tree without such a document never fails with
/// this error, however often its documents include the same file.
pub proof fn lemma_cycle_error_names_cycle(world: World, entry: Seq<char>, named: Seq<char>)
    requires
        world.finite(),
        expansion(world, entry).ending == Ending::Failed(ErrorView::ImportCycle(named)),
    ensures
        on_cycle(world, named),
        world.links.contains_key((None, entry)),
        world.links[(None, entry)] matches Ok(root) && reaches(world, root, named),
{
    let origin = (None, entry);
    match world.links[origin] {
        Err(description) => {},
        Ok(root) => {
            let lineage = Set::<Seq<char>>::empty().insert(root);
            assert(reaches_in(world, root, root, 0));
            lemma_visit_names_cycle(world, root, lineage, named);
        },
    }
}

/// In a complete walk, every segment was expanded completely.
proof fn lemma_walk_complete_in_parts(
    world: World,
    path: Seq<char>,
    lineage: Set<Seq<char>>,
    segments: Seq<SegmentView>,
    at: int,
)
    requires
        world.finite(),
        walk(world, path, lineage, segments).ending is Complete,
        0 <= at < segments.len(),
    ensures
        eval(world, path, lineage, segments[at]).ending is Complete,
        eval(world, path, lineage, segments[at]).touched.subset_of(
            walk(world, path, lineage, segments).touched,
        ),
    decreases segments.len(),
{
    if at > 0 {
        lemma_walk_complete_in_parts(world, path, lineage, segments.drop_first(), at - 1);
    }
}

/// A document that was walked completely reaches no document of its own
/// lineage by one inclusion or more.
proof fn lemma_complete_visit_stays_below(
    world: World,
    path: Seq<char>,
    lineage: Set<Seq<char>>,
    ancestor: Seq<char>,
    steps: nat,
)
    requires
        world.finite(),
        visit(world, path, lineage).ending is Complete,
        lineage.contains(ancestor),
        steps >= 1,
    ensures
        !reaches_in(world, path, ancestor, steps),
    decreases steps,
{
    if reaches_in(world, path, ancestor, steps) {
        let next = choose|next: Seq<char>|
            #[trigger] includes(world, path, next) && reaches_in(
                world,
                next,
                ancestor,
                (steps - 1) as nat,
            );
        let reference = choose|reference: Seq<char>|
            world.documents[path].segments.contains(SegmentView::IncludeRef(reference))
                && #[trigger] leads_to(world, path, reference, next);
        let segments = world.documents[path].segments;
        let at = choose|at: int|
            0 <= at < segments.len() && segments[at] == SegmentView::IncludeRef(reference);
        lemma_walk_complete_in_parts(world, path, lineage, segments, at);
        assert(!lineage.contains(next));
        assert(visit(world, next, lineage.insert(next)).ending is Complete);
        if steps > 1 {
            lemma_complete_visit_stays_below(
                world,
                next,
                lineage.insert(next),
                ancestor,
                (steps - 1) as nat,
            );
        }
    }
}

proof fn lemma_visit_opens_no_cycle(
    world: World,
    path: Seq<char>,
    lineage: Set<Seq<char>>,
    opened: Seq<char>,
)
    requires
        world.finite(),
        lineage.contains(path),
        visit(world, path, lineage).ending is Complete,
        visit(world, path, lineage).touched.contains(opened),
    ensures
        !on_cycle(world, opened),
    decreases leading_out(world, lineage).len(), 3nat, 0nat,
{
    if opened == path {
        assert forall|steps: nat| steps >= 1 implies !#[trigger] reaches_in(
            world,
            path,
            path,
            steps,
        ) by {
            lemma_complete_visit_stays_below(world, path, lineage, path, steps);
        }
    } else {
        lemma_walk_opens_no_cycle(world, path, lineage, world.documents[path].segments, opened);
    }
}

proof fn lemma_walk_opens_no_cycle(
    world: World,
    path: Seq<char>,
    lineage: Set<Seq<char>>,
    segments: Seq<SegmentView>,
    opened: Seq<char>,
)
    requires
        world.finite(),
        walk(world, path, lineage, segments).ending is Complete,
        walk(world, path, lineage, segments).touched.contains(opened),
    ensures
        !on_cycle(world, opened),
    decreases leading_out(world, lineage).len(), 2nat, segments.len(),
{
    if segments.len() > 0 {
        if eval(world, path, lineage, segments.first()).touched.contains(opened) {
            match segments.first() {
                SegmentView::Text(text) => {},
                SegmentView::IncludeRef(reference) => {
                    let origin = (Some(path), reference);
                    let target = world.links[origin]->Ok_0;
                    lemma_leading_out_decreases(world, lineage, origin, target);
                    lemma_visit_opens_no_cycle(world, target, lineage.insert(target), opened);
                },
            }
        } else {
            lemma_walk_opens_no_cycle(world, path, lineage, segments.drop_first(), opened);
        }
    }
}

/// A tree that was walked completely holds no cycle: none of its files
/// includes itself, directly or through the documents that it includes.
pub proof fn lemma_complete_tree_has_no_cycle(world: World, entry: Seq<char>, path: Seq<char>)
    requires
        world.finite(),
        expansion(world, entry).ending is Complete,
        expansion(world, entry).touched.contains(path),
    ensures
        !on_cycle(world, path),
{
    let root = world.links[(None, entry)]->Ok_0;
    lemma_visit_opens_no_cycle(world, root, Set::<Seq<char>>::empty().insert(root), path);
}

} // verus!
