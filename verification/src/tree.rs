//! The files of a tree: those that the entry document reaches along the
//! directives of the documents.

use vstd::prelude::*;
use crate::expansion::eval;
use crate::expansion::expansion;
use crate::expansion::follow;
use crate::expansion::leading_out;
use crate::expansion::lemma_leading_out_decreases;
use crate::expansion::visit;
use crate::expansion::walk;
use crate::segment::SegmentView;
use crate::store::World;

verus! {

/// Whether the reference, written in the document at `path`, leads to the
/// file at `target`.
pub open spec fn leads_to(
    world: World,
    path: Seq<char>,
    reference: Seq<char>,
    target: Seq<char>,
) -> bool {
    &&& world.links.contains_key((Some(path), reference))
    &&& world.links[(Some(path), reference)] == Ok::<Seq<char>, Seq<char>>(target)
}

/// Whether `segment`, of the document at `path`, is a directive that leads
/// to the file at `target`.
pub open spec fn led(world: World, path: Seq<char>, segment: SegmentView, target: Seq<char>) -> bool {
    segment matches SegmentView::IncludeRef(reference) && leads_to(world, path, reference, target)
}

/// Whether the document at `path` includes the file at `target`: it holds a
/// directive that leads there.
pub open spec fn includes(world: World, path: Seq<char>, target: Seq<char>) -> bool {
    &&& world.documents.contains_key(path)
    &&& exists|reference: Seq<char>|
        world.documents[path].segments.contains(SegmentView::IncludeRef(reference))
            && #[trigger] leads_to(world, path, reference, target)
}

/// Whether `steps` inclusions lead from the document at `from` to the file
/// at `to`.
pub open spec fn reaches_in(world: World, from: Seq<char>, to: Seq<char>, steps: nat) -> bool
    decreases steps,
{
    if steps == 0 {
        from == to
    } else {
        exists|next: Seq<char>|
            #[trigger] includes(world, from, next) && reaches_in(
                world,
                next,
                to,
                (steps - 1) as nat,
            )
    }
}

/// Whether the document at `from` reaches the file at `to`: the two are
/// the same, or inclusions lead from the one to the other.
pub open spec fn reaches(world: World, from: Seq<char>, to: Seq<char>) -> bool {
    exists|steps: nat| reaches_in(world, from, to, steps)
}

/// Whether every directive of the documents in `files` leads to a file in
/// `files`.
pub open spec fn closed(world: World, files: Set<Seq<char>>) -> bool {
    forall|path: Seq<char>, reference: Seq<char>|
        files.contains(path) && world.documents.contains_key(path)
            && #[trigger] world.documents[path].segments.contains(
            SegmentView::IncludeRef(reference),
        ) ==> exists|target: Seq<char>|
            #[trigger] leads_to(world, path, reference, target) && files.contains(target)
}

/// A document reaches what a file that it includes reaches.
pub proof fn lemma_reaches_through(world: World, from: Seq<char>, next: Seq<char>, to: Seq<char>)
    requires
        includes(world, from, next),
        reaches(world, next, to),
    ensures
        reaches(world, from, to),
{
    let steps = choose|steps: nat| reaches_in(world, next, to, steps);
    assert(reaches_in(world, from, to, steps + 1));
}

/// What reaches a document reaches what the document reaches.
pub proof fn lemma_reaches_joined(world: World, from: Seq<char>, through: Seq<char>, to: Seq<char>)
    requires
        reaches(world, from, through),
        reaches(world, through, to),
    ensures
        reaches(world, from, to),
{
    let steps = choose|steps: nat| reaches_in(world, from, through, steps);
    lemma_reaches_in_joined(world, from, through, to, steps);
}

proof fn lemma_reaches_in_joined(
    world: World,
    from: Seq<char>,
    through: Seq<char>,
    to: Seq<char>,
    steps: nat,
)
    requires
        reaches_in(world, from, through, steps),
        reaches(world, through, to),
    ensures
        reaches(world, from, to),
    decreases steps,
{
    if steps > 0 {
        let next = choose|next: Seq<char>|
            #[trigger] includes(world, from, next) && reaches_in(
                world,
                next,
                through,
                (steps - 1) as nat,
            );
        lemma_reaches_in_joined(world, next, through, to, (steps - 1) as nat);
        lemma_reaches_through(world, from, next, to);
    }
}

/// What a complete walk from a reference opened: the file that the
/// reference leads to, and files that this file reaches; and every
/// directive of the documents that were opened leads to a file that was
/// opened.
proof fn lemma_follow_opens(
    world: World,
    from: Option<Seq<char>>,
    reference: Seq<char>,
    lineage: Set<Seq<char>>,
)
    requires
        world.finite(),
        follow(world, from, reference, lineage).ending is Complete,
    ensures
        world.links.contains_key((from, reference)),
        world.links[(from, reference)] matches Ok(target) && ({
            let opened = follow(world, from, reference, lineage).touched;
            &&& opened.contains(target)
            &&& closed(world, opened)
            &&& forall|path: Seq<char>| #[trigger]
                opened.contains(path) ==> reaches(world, target, path)
        }),
    decreases leading_out(world, lineage).len(), 0nat, 0nat,
{
    let origin = (from, reference);
    match world.links[origin] {
        Err(description) => {},
        Ok(target) => {
            lemma_leading_out_decreases(world, lineage, origin, target);
            lemma_visit_opens(world, target, lineage.insert(target));
        },
    }
}

/// What a complete walk of a document opened: the document, and files that
/// it reaches; and every directive of the documents that were opened leads
/// to a file that was opened.
proof fn lemma_visit_opens(world: World, path: Seq<char>, lineage: Set<Seq<char>>)
    requires
        world.finite(),
        visit(world, path, lineage).ending is Complete,
    ensures
        world.documents.contains_key(path),
        visit(world, path, lineage).touched.contains(path),
        closed(world, visit(world, path, lineage).touched),
        forall|to: Seq<char>| #[trigger]
            visit(world, path, lineage).touched.contains(to) ==> reaches(world, path, to),
    decreases leading_out(world, lineage).len(), 3nat, 0nat,
{
    let segments = world.documents[path].segments;
    let opened = visit(world, path, lineage).touched;
    let below = walk(world, path, lineage, segments);
    lemma_walk_opens(world, path, lineage, segments);
    assert(opened =~= set![path].union(below.touched));
    assert(reaches_in(world, path, path, 0));
    assert forall|to: Seq<char>| #[trigger] opened.contains(to) implies reaches(
        world,
        path,
        to,
    ) by {
        if to != path {
            let (at, target) = choose|at: int, target: Seq<char>|
                0 <= at < segments.len() && #[trigger] led(world, path, segments[at], target)
                    && reaches(world, target, to);
            let reference = segments[at]->IncludeRef_0;
            assert(segments.contains(SegmentView::IncludeRef(reference)));
            assert(leads_to(world, path, reference, target));
            lemma_reaches_through(world, path, target, to);
        }
    }
    assert forall|from: Seq<char>, reference: Seq<char>|
        opened.contains(from) && world.documents.contains_key(from)
            && #[trigger] world.documents[from].segments.contains(
            SegmentView::IncludeRef(reference),
        ) implies exists|target: Seq<char>|
        #[trigger] leads_to(world, from, reference, target) && opened.contains(target) by {
        if below.touched.contains(from) {
            let target = choose|target: Seq<char>|
                #[trigger] leads_to(world, from, reference, target) && below.touched.contains(
                    target,
                );
            assert(opened.contains(target));
        } else {
            let at = choose|at: int|
                0 <= at < segments.len() && segments[at] == SegmentView::IncludeRef(reference);
            let target = choose|target: Seq<char>|
                #[trigger] led(world, path, segments[at], target) && below.touched.contains(
                    target,
                );
            assert(leads_to(world, from, reference, target) && opened.contains(target));
        }
    }
}

/// What a complete walk of segments of the document at `path` opened: for
/// each directive among the segments the file that it leads to, and files
/// that those files reach; and every directive of the documents that were
/// opened leads to a file that was opened.
proof fn lemma_walk_opens(
    world: World,
    path: Seq<char>,
    lineage: Set<Seq<char>>,
    segments: Seq<SegmentView>,
)
    requires
        world.finite(),
        walk(world, path, lineage, segments).ending is Complete,
    ensures
        closed(world, walk(world, path, lineage, segments).touched),
        forall|at: int|
            0 <= at < segments.len() && (#[trigger] segments[at]) is IncludeRef ==> exists|
                target: Seq<char>,
            |
                #[trigger] led(world, path, segments[at], target) && walk(
                    world,
                    path,
                    lineage,
                    segments,
                ).touched.contains(target),
        forall|to: Seq<char>| #[trigger]
            walk(world, path, lineage, segments).touched.contains(to) ==> exists|
                at: int,
                target: Seq<char>,
            |
                0 <= at < segments.len() && #[trigger] led(world, path, segments[at], target)
                    && reaches(world, target, to),
    decreases leading_out(world, lineage).len(), 2nat, segments.len(),
{
    let opened = walk(world, path, lineage, segments).touched;
    if segments.len() > 0 {
        let first = eval(world, path, lineage, segments.first());
        let rest = walk(world, path, lineage, segments.drop_first());
        lemma_walk_opens(world, path, lineage, segments.drop_first());
        assert(opened =~= first.touched.union(rest.touched));
        match segments.first() {
            SegmentView::Text(text) => {},
            SegmentView::IncludeRef(reference) => {
                lemma_follow_opens(world, Some(path), reference, lineage);
            },
        }
        assert forall|at: int|
            0 <= at < segments.len() && (#[trigger] segments[at]) is IncludeRef implies exists|
            target: Seq<char>,
        | #[trigger] led(world, path, segments[at], target) && opened.contains(target) by {
            if at == 0 {
                let reference = segments[0]->IncludeRef_0;
                let target = world.links[(Some(path), reference)]->Ok_0;
                assert(led(world, path, segments[at], target) && opened.contains(target));
            } else {
                assert(segments.drop_first()[at - 1] == segments[at]);
                let target = choose|target: Seq<char>|
                    #[trigger] led(world, path, segments.drop_first()[at - 1], target)
                        && rest.touched.contains(target);
                assert(led(world, path, segments[at], target) && opened.contains(target));
            }
        }
        assert forall|to: Seq<char>| #[trigger] opened.contains(to) implies exists|
            at: int,
            target: Seq<char>,
        |
            0 <= at < segments.len() && #[trigger] led(world, path, segments[at], target)
                && reaches(world, target, to) by {
            if first.touched.contains(to) {
                match segments.first() {
                    SegmentView::Text(text) => {},
                    SegmentView::IncludeRef(reference) => {
                        let target = world.links[(Some(path), reference)]->Ok_0;
                        assert(led(world, path, segments[0], target) && reaches(
                            world,
                            target,
                            to,
                        ));
                    },
                }
            } else {
                let (at, target) = choose|at: int, target: Seq<char>|
                    0 <= at < segments.drop_first().len() && #[trigger] led(
                        world,
                        path,
                        segments.drop_first()[at],
                        target,
                    ) && reaches(world, target, to);
                assert(segments[at + 1] == segments.drop_first()[at]);
                assert(led(world, path, segments[at + 1], target));
            }
        }
        assert forall|from: Seq<char>, reference: Seq<char>|
            opened.contains(from) && world.documents.contains_key(from)
                && #[trigger] world.documents[from].segments.contains(
                SegmentView::IncludeRef(reference),
            ) implies exists|target: Seq<char>|
            #[trigger] leads_to(world, from, reference, target) && opened.contains(target) by {
            if first.touched.contains(from) {
                let target = choose|target: Seq<char>|
                    #[trigger] leads_to(world, from, reference, target) && first.touched.contains(
                        target,
                    );
                assert(opened.contains(target));
            } else {
                let target = choose|target: Seq<char>|
                    #[trigger] leads_to(world, from, reference, target) && rest.touched.contains(
                        target,
                    );
                assert(opened.contains(target));
            }
        }
    }
}

/// A set of files that is closed holds every file that one of its
/// documents reaches.
proof fn lemma_closed_holds_reached(
    world: World,
    files: Set<Seq<char>>,
    from: Seq<char>,
    to: Seq<char>,
    steps: nat,
)
    requires
        closed(world, files),
        files.contains(from),
        reaches_in(world, from, to, steps),
    ensures
        files.contains(to),
    decreases steps,
{
    if steps > 0 {
        let next = choose|next: Seq<char>|
            #[trigger] includes(world, from, next) && reaches_in(
                world,
                next,
                to,
                (steps - 1) as nat,
            );
        let reference = choose|reference: Seq<char>|
            world.documents[from].segments.contains(SegmentView::IncludeRef(reference))
                && #[trigger] leads_to(world, from, reference, next);
        lemma_closed_holds_reached(world, files, next, to, (steps - 1) as nat);
    }
}

/// The files that a complete walk of a tree opened are the files of the
/// tree: the entry file, and every file that it reaches along the
/// directives of the documents; no other.
pub proof fn lemma_touched_is_the_tree(world: World, entry: Seq<char>)
    requires
        world.finite(),
        expansion(world, entry).ending is Complete,
    ensures
        world.links.contains_key((None, entry)),
        world.links[(None, entry)] matches Ok(root) && forall|path: Seq<char>|
            expansion(world, entry).touched.contains(path) <==> #[trigger] reaches(
                world,
                root,
                path,
            ),
{
    lemma_follow_opens(world, None, entry, Set::empty());
    let root = world.links[(None, entry)]->Ok_0;
    let opened = expansion(world, entry).touched;
    assert forall|path: Seq<char>| #[trigger] reaches(world, root, path) implies opened.contains(
        path,
    ) by {
        let steps = choose|steps: nat| reaches_in(world, root, path, steps);
        lemma_closed_holds_reached(world, opened, root, path, steps);
    }
}

} // verus!
