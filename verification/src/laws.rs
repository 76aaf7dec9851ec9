//! What holds of every expansion.

use vstd::prelude::*;
use crate::error::ErrorView;
use crate::expansion::eval;
use crate::expansion::expansion;
use crate::expansion::follow;
use crate::expansion::leading_out;
use crate::expansion::lemma_leading_out_decreases;
use crate::expansion::visit;
use crate::expansion::walk;
use crate::expansion::Ending;
use crate::expansion::Outcome;
use crate::segment::holds_directive;
use crate::segment::lemma_parsed_without_directive;
use crate::segment::parsed;
use crate::segment::segments_of;
use crate::segment::SegmentView;
use crate::store::Origin;
use crate::store::RequestView;
use crate::store::World;

verus! {

/// Text is written as it stands, with one line terminator after it.
pub proof fn lemma_text_is_written(
    world: World,
    path: Seq<char>,
    lineage: Set<Seq<char>>,
    text: Seq<char>,
)
    requires
        world.finite(),
    ensures
        walk(world, path, lineage, seq![SegmentView::Text(text)]) == Outcome::wrote(
            text.push('\n'),
        ),
{
    let only = seq![SegmentView::Text(text)];
    let written = Outcome::wrote(text.push('\n'));
    assert(eval(world, path, lineage, only.first()) == written);
    assert(walk(world, path, lineage, only.drop_first()) == Outcome::ended(Ending::Complete));
    written.lemma_followed_by_nothing();
}

/// The texts of segments that are all text, each with a line terminator
/// after it.
pub open spec fn lines_of(segments: Seq<SegmentView>) -> Seq<char>
    decreases segments.len(),
{
    if segments.len() == 0 {
        Seq::empty()
    } else {
        match segments.first() {
            SegmentView::Text(text) => text.push('\n') + lines_of(segments.drop_first()),
            SegmentView::IncludeRef(reference) => lines_of(segments.drop_first()),
        }
    }
}

/// Segments that are all text are written one after the other, each with one
/// line terminator after it, whatever the document and its lineage; no file
/// is opened for them.
pub proof fn lemma_texts_are_written(
    world: World,
    path: Seq<char>,
    lineage: Set<Seq<char>>,
    segments: Seq<SegmentView>,
)
    requires
        world.finite(),
        forall|i: int| 0 <= i < segments.len() ==> (#[trigger] segments[i]) is Text,
    ensures
        walk(world, path, lineage, segments) == Outcome::wrote(lines_of(segments)),
    decreases segments.len(),
{
    if segments.len() > 0 {
        let rest = segments.drop_first();
        assert forall|i: int| 0 <= i < rest.len() implies (#[trigger] rest[i]) is Text by {
            assert(rest[i] == segments[i + 1]);
        }
        lemma_texts_are_written(world, path, lineage, rest);
        let text = segments.first()->Text_0;
        let whole = walk(world, path, lineage, segments);
        assert(eval(world, path, lineage, segments.first()) == Outcome::wrote(text.push('\n')));
        assert(whole.touched =~= Set::<Seq<char>>::empty());
    }
}

/// A line that holds no directive is written unchanged, with exactly one
/// line terminator after it.
pub proof fn lemma_line_without_directive(
    world: World,
    path: Seq<char>,
    lineage: Set<Seq<char>>,
    line: Seq<char>,
)
    requires
        world.finite(),
        !holds_directive(line),
    ensures
        walk(world, path, lineage, parsed(line)) == Outcome::wrote(line.push('\n')),
{
    lemma_parsed_without_directive(line);
    lemma_text_is_written(world, path, lineage, line);
}

/// The segments of a document are expanded one after the other, each from
/// the lineage of the document: what one directive included is not held
/// against the directives after it.
pub proof fn lemma_walk_in_parts(
    world: World,
    path: Seq<char>,
    lineage: Set<Seq<char>>,
    first: Seq<SegmentView>,
    second: Seq<SegmentView>,
)
    requires
        world.finite(),
    ensures
        walk(world, path, lineage, first + second) == walk(world, path, lineage, first).followed_by(
            walk(world, path, lineage, second),
        ),
    decreases first.len(),
{
    if first.len() == 0 {
        walk(world, path, lineage, second).lemma_followed_by_nothing();
    } else {
        assert((first + second).drop_first() =~= first.drop_first() + second);
        lemma_walk_in_parts(world, path, lineage, first.drop_first(), second);
        eval(world, path, lineage, first.first()).lemma_followed_by_associates(
            walk(world, path, lineage, first.drop_first()),
            walk(world, path, lineage, second),
        );
    }
}

/// The lines of a document are expanded in order: what the lines with one
/// more line after them expand to is what the lines expand to, and then
/// what the last line expands to.
pub proof fn lemma_lines_in_order(
    world: World,
    path: Seq<char>,
    lineage: Set<Seq<char>>,
    lines: Seq<Seq<char>>,
    last: Seq<char>,
)
    requires
        world.finite(),
    ensures
        walk(world, path, lineage, segments_of(lines.push(last))) == walk(
            world,
            path,
            lineage,
            segments_of(lines),
        ).followed_by(walk(world, path, lineage, parsed(last))),
{
    assert(lines.push(last).drop_last() =~= lines);
    lemma_walk_in_parts(world, path, lineage, segments_of(lines), parsed(last));
}

/// The lines, each with a line terminator after it.
pub open spec fn terminated(lines: Seq<Seq<char>>) -> Seq<char>
    decreases lines.len(),
{
    if lines.len() == 0 {
        Seq::empty()
    } else {
        terminated(lines.drop_last()) + lines.last().push('\n')
    }
}

/// A document without directives is written as it is: where no line holds
/// a directive, the lines are written unchanged and in order, each with
/// exactly one line terminator after it, and no other file is opened.
pub proof fn lemma_lines_without_directive(
    world: World,
    path: Seq<char>,
    lineage: Set<Seq<char>>,
    lines: Seq<Seq<char>>,
)
    requires
        world.finite(),
        forall|i: int| 0 <= i < lines.len() ==> !holds_directive(#[trigger] lines[i]),
    ensures
        walk(world, path, lineage, segments_of(lines)) == Outcome::wrote(terminated(lines)),
    decreases lines.len(),
{
    if lines.len() > 0 {
        let before = lines.drop_last();
        assert(before.push(lines.last()) =~= lines);
        lemma_lines_without_directive(world, path, lineage, before);
        lemma_lines_in_order(world, path, lineage, before, lines.last());
        lemma_line_without_directive(world, path, lineage, lines.last());
        let whole = walk(world, path, lineage, segments_of(lines));
        assert(whole.touched =~= Set::<Seq<char>>::empty());
    }
}

/// A directive that leads to a document of its own lineage is a cycle: the
/// walk fails, and the error names that document.
pub proof fn lemma_cycle_is_refused(
    world: World,
    path: Seq<char>,
    lineage: Set<Seq<char>>,
    reference: Seq<char>,
    target: Seq<char>,
)
    requires
        world.finite(),
        world.links.contains_key((Some(path), reference)),
        world.links[(Some(path), reference)] == Ok::<Seq<char>, Seq<char>>(target),
        lineage.contains(target),
    ensures
        eval(world, path, lineage, SegmentView::IncludeRef(reference)) == Outcome::ended(
            Ending::Failed(ErrorView::ImportCycle(target)),
        ),
{
}

/// A document that includes itself fails with a cycle error that names it:
/// where the entry path leads to the document at `path`, the segment at
/// `at` of that document is a directive that leads back to `path`, and the
/// segments before it expand completely, the expansion fails with
/// `ImportCycle(path)`.
pub proof fn lemma_self_inclusion(
    world: World,
    entry: Seq<char>,
    path: Seq<char>,
    at: int,
    reference: Seq<char>,
)
    requires
        world.finite(),
        world.links.contains_key((None, entry)),
        world.links[(None, entry)] == Ok::<Seq<char>, Seq<char>>(path),
        world.documents.contains_key(path),
        0 <= at < world.documents[path].segments.len(),
        world.documents[path].segments[at] == SegmentView::IncludeRef(reference),
        world.links.contains_key((Some(path), reference)),
        world.links[(Some(path), reference)] == Ok::<Seq<char>, Seq<char>>(path),
        walk(world, path, set![path], world.documents[path].segments.take(at)).ending is Complete,
    ensures
        expansion(world, entry).ending == Ending::Failed(ErrorView::ImportCycle(path)),
{
    let lineage = set![path];
    let segments = world.documents[path].segments;
    let before = segments.take(at);
    let itself = seq![segments[at]];
    let after = segments.skip(at + 1);
    assert(segments =~= before + (itself + after));
    lemma_walk_in_parts(world, path, lineage, before, itself + after);
    lemma_walk_in_parts(world, path, lineage, itself, after);
    lemma_cycle_is_refused(world, path, lineage, reference, path);
}

/// Whatever answers are added to the world, a walk that was not blocked
/// gives what it gave: the same tree, asked twice, expands to the same
/// text, the same files and the same ending.
pub proof fn lemma_expansion_is_stable(world: World, larger: World, entry: Seq<char>)
    requires
        world.finite(),
        larger.finite(),
        world.within(larger),
        !(expansion(world, entry).ending is Blocked),
    ensures
        expansion(larger, entry) == expansion(world, entry),
{
    lemma_follow_is_stable(world, larger, None, entry, Set::empty());
}

/// A file expands to the same wherever it is included: walked completely
/// from two lineages, the document at `path` gives the same text and the
/// same files. So a file that two documents include appears once for each
/// of them, both times alike.
pub proof fn lemma_included_alike(
    world: World,
    path: Seq<char>,
    first: Set<Seq<char>>,
    second: Set<Seq<char>>,
)
    requires
        world.finite(),
        visit(world, path, first).ending is Complete,
        visit(world, path, second).ending is Complete,
    ensures
        visit(world, path, first) == visit(world, path, second),
    decreases leading_out(world, first).len(), 3nat, 0nat,
{
    lemma_walked_alike(world, path, first, second, world.documents[path].segments);
}

proof fn lemma_walked_alike(
    world: World,
    path: Seq<char>,
    first: Set<Seq<char>>,
    second: Set<Seq<char>>,
    segments: Seq<SegmentView>,
)
    requires
        world.finite(),
        walk(world, path, first, segments).ending is Complete,
        walk(world, path, second, segments).ending is Complete,
    ensures
        walk(world, path, first, segments) == walk(world, path, second, segments),
    decreases leading_out(world, first).len(), 2nat, segments.len(),
{
    if segments.len() > 0 {
        let rest = segments.drop_first();
        assert(walk(world, path, first, segments) == eval(
            world,
            path,
            first,
            segments.first(),
        ).followed_by(walk(world, path, first, rest)));
        assert(walk(world, path, second, segments) == eval(
            world,
            path,
            second,
            segments.first(),
        ).followed_by(walk(world, path, second, rest)));
        lemma_walked_alike(world, path, first, second, rest);
        match segments.first() {
            SegmentView::Text(text) => {},
            SegmentView::IncludeRef(reference) => {
                let origin = (Some(path), reference);
                let target = world.links[origin]->Ok_0;
                lemma_leading_out_decreases(world, first, origin, target);
                lemma_included_alike(world, target, first.insert(target), second.insert(target));
            },
        }
    }
}

/// Two runs over the same files give the same: where each of two worlds
/// holds answers of one file system, `whole`, and neither walk is blocked,
/// the two walks write the same text, open the same files and end alike.
pub proof fn lemma_runs_agree(first: World, second: World, whole: World, entry: Seq<char>)
    requires
        first.finite(),
        second.finite(),
        whole.finite(),
        first.within(whole),
        second.within(whole),
        !(expansion(first, entry).ending is Blocked),
        !(expansion(second, entry).ending is Blocked),
    ensures
        expansion(first, entry) == expansion(second, entry),
{
    lemma_expansion_is_stable(first, whole, entry);
    lemma_expansion_is_stable(second, whole, entry);
}

proof fn lemma_follow_is_stable(
    world: World,
    larger: World,
    from: Option<Seq<char>>,
    reference: Seq<char>,
    lineage: Set<Seq<char>>,
)
    requires
        world.finite(),
        larger.finite(),
        world.within(larger),
        !(follow(world, from, reference, lineage).ending is Blocked),
    ensures
        follow(larger, from, reference, lineage) == follow(world, from, reference, lineage),
    decreases leading_out(world, lineage).len(), 0nat, 0nat,
{
    let origin = (from, reference);
    match world.links[origin] {
        Err(description) => {},
        Ok(target) => {
            if !lineage.contains(target) {
                lemma_leading_out_decreases(world, lineage, origin, target);
                lemma_visit_is_stable(world, larger, target, lineage.insert(target));
            }
        },
    }
}

proof fn lemma_visit_is_stable(
    world: World,
    larger: World,
    path: Seq<char>,
    lineage: Set<Seq<char>>,
)
    requires
        world.finite(),
        larger.finite(),
        world.within(larger),
        !(visit(world, path, lineage).ending is Blocked),
    ensures
        visit(larger, path, lineage) == visit(world, path, lineage),
    decreases leading_out(world, lineage).len(), 3nat, 0nat,
{
    lemma_walk_is_stable(world, larger, path, lineage, world.documents[path].segments);
}

proof fn lemma_walk_is_stable(
    world: World,
    larger: World,
    path: Seq<char>,
    lineage: Set<Seq<char>>,
    segments: Seq<SegmentView>,
)
    requires
        world.finite(),
        larger.finite(),
        world.within(larger),
        !(walk(world, path, lineage, segments).ending is Blocked),
    ensures
        walk(larger, path, lineage, segments) == walk(world, path, lineage, segments),
    decreases leading_out(world, lineage).len(), 2nat, segments.len(),
{
    if segments.len() > 0 {
        lemma_eval_is_stable(world, larger, path, lineage, segments.first());
        if eval(world, path, lineage, segments.first()).ending is Complete {
            lemma_walk_is_stable(world, larger, path, lineage, segments.drop_first());
        }
    }
}

proof fn lemma_eval_is_stable(
    world: World,
    larger: World,
    path: Seq<char>,
    lineage: Set<Seq<char>>,
    segment: SegmentView,
)
    requires
        world.finite(),
        larger.finite(),
        world.within(larger),
        !(eval(world, path, lineage, segment).ending is Blocked),
    ensures
        eval(larger, path, lineage, segment) == eval(world, path, lineage, segment),
    decreases leading_out(world, lineage).len(), 1nat, 0nat,
{
    match segment {
        SegmentView::Text(text) => {},
        SegmentView::IncludeRef(reference) => {
            lemma_follow_is_stable(world, larger, Some(path), reference, lineage);
        },
    }
}

/// A walk is blocked only on a request that the world does not answer.
pub proof fn lemma_blocked_on_unanswered(world: World, entry: Seq<char>, request: RequestView)
    requires
        world.finite(),
        expansion(world, entry).ending == Ending::Blocked(request),
    ensures
        !world.answers(request),
{
    lemma_follow_blocked(world, None, entry, Set::empty(), request);
}

/// An answer brings the walk on: once the request that a walk was blocked
/// on has its answer, no walk is blocked on that request again.
pub proof fn lemma_answer_unblocks(
    world: World,
    answered: World,
    entry: Seq<char>,
    request: RequestView,
)
    requires
        world.finite(),
        answered.finite(),
        expansion(world, entry).ending == Ending::Blocked(request),
        answered.answers(request),
    ensures
        !world.answers(request),
        expansion(answered, entry).ending != Ending::Blocked(request),
{
    lemma_blocked_on_unanswered(world, entry, request);
    if expansion(answered, entry).ending == Ending::Blocked(request) {
        lemma_blocked_on_unanswered(answered, entry, request);
    }
}

/// Whether the world holds a failure with this description: a reference
/// that could not be located, or a file that could not be read to its end.
pub open spec fn holds_failure(world: World, description: Seq<char>) -> bool {
    ||| exists|origin: Origin|
        world.links.contains_key(origin) && #[trigger] world.links[origin] == Err::<
            Seq<char>,
            Seq<char>,
        >(description)
    ||| exists|path: Seq<char>|
        world.documents.contains_key(path) && (#[trigger] world.documents[path]).failure == Some(
            description,
        )
}

/// A walk fails with an I/O error only where the file system reported the
/// failure that the error describes.
pub proof fn lemma_io_error_was_reported(world: World, entry: Seq<char>, description: Seq<char>)
    requires
        world.finite(),
        expansion(world, entry).ending == Ending::Failed(ErrorView::Io(description)),
    ensures
        holds_failure(world, description),
{
    lemma_follow_io_error(world, None, entry, Set::empty(), description);
}

proof fn lemma_follow_io_error(
    world: World,
    from: Option<Seq<char>>,
    reference: Seq<char>,
    lineage: Set<Seq<char>>,
    description: Seq<char>,
)
    requires
        world.finite(),
        follow(world, from, reference, lineage).ending == Ending::Failed(
            ErrorView::Io(description),
        ),
    ensures
        holds_failure(world, description),
    decreases leading_out(world, lineage).len(), 0nat, 0nat,
{
    let origin = (from, reference);
    match world.links[origin] {
        Err(reported) => {},
        Ok(target) => {
            lemma_leading_out_decreases(world, lineage, origin, target);
            lemma_visit_io_error(world, target, lineage.insert(target), description);
        },
    }
}

proof fn lemma_visit_io_error(
    world: World,
    path: Seq<char>,
    lineage: Set<Seq<char>>,
    description: Seq<char>,
)
    requires
        world.finite(),
        visit(world, path, lineage).ending == Ending::Failed(ErrorView::Io(description)),
    ensures
        holds_failure(world, description),
    decreases leading_out(world, lineage).len(), 3nat, 0nat,
{
    let document = world.documents[path];
    if !(walk(world, path, lineage, document.segments).ending is Complete) {
        lemma_walk_io_error(world, path, lineage, document.segments, description);
    }
}

proof fn lemma_walk_io_error(
    world: World,
    path: Seq<char>,
    lineage: Set<Seq<char>>,
    segments: Seq<SegmentView>,
    description: Seq<char>,
)
    requires
        world.finite(),
        walk(world, path, lineage, segments).ending == Ending::Failed(ErrorView::Io(description)),
    ensures
        holds_failure(world, description),
    decreases leading_out(world, lineage).len(), 2nat, segments.len(),
{
    if segments.len() > 0 {
        if eval(world, path, lineage, segments.first()).ending is Complete {
            lemma_walk_io_error(world, path, lineage, segments.drop_first(), description);
        } else {
            match segments.first() {
                SegmentView::Text(text) => {},
                SegmentView::IncludeRef(reference) => {
                    lemma_follow_io_error(world, Some(path), reference, lineage, description);
                },
            }
        }
    }
}

proof fn lemma_follow_blocked(
    world: World,
    from: Option<Seq<char>>,
    reference: Seq<char>,
    lineage: Set<Seq<char>>,
    request: RequestView,
)
    requires
        world.finite(),
        follow(world, from, reference, lineage).ending == Ending::Blocked(request),
    ensures
        !world.answers(request),
    decreases leading_out(world, lineage).len(), 0nat, 0nat,
{
    let origin = (from, reference);
    if world.links.contains_key(origin) {
        match world.links[origin] {
            Err(description) => {},
            Ok(target) => {
                if !lineage.contains(target) {
                    lemma_leading_out_decreases(world, lineage, origin, target);
                    lemma_visit_blocked(world, target, lineage.insert(target), request);
                }
            },
        }
    }
}

proof fn lemma_visit_blocked(
    world: World,
    path: Seq<char>,
    lineage: Set<Seq<char>>,
    request: RequestView,
)
    requires
        world.finite(),
        visit(world, path, lineage).ending == Ending::Blocked(request),
    ensures
        !world.answers(request),
    decreases leading_out(world, lineage).len(), 3nat, 0nat,
{
    if world.documents.contains_key(path) {
        lemma_walk_blocked(world, path, lineage, world.documents[path].segments, request);
    }
}

proof fn lemma_walk_blocked(
    world: World,
    path: Seq<char>,
    lineage: Set<Seq<char>>,
    segments: Seq<SegmentView>,
    request: RequestView,
)
    requires
        world.finite(),
        walk(world, path, lineage, segments).ending == Ending::Blocked(request),
    ensures
        !world.answers(request),
    decreases leading_out(world, lineage).len(), 2nat, segments.len(),
{
    if segments.len() > 0 {
        if eval(world, path, lineage, segments.first()).ending is Complete {
            lemma_walk_blocked(world, path, lineage, segments.drop_first(), request);
        } else {
            match segments.first() {
                SegmentView::Text(text) => {},
                SegmentView::IncludeRef(reference) => {
                    lemma_follow_blocked(world, Some(path), reference, lineage, request);
                },
            }
        }
    }
}

} // verus!
