//! What a document tree expands to.
//!
//! The expansion is a function of the answers that the file system has
//! given, the [`World`], and of the entry path. It walks the tree depth
//! first. Each document is walked with its lineage: the canonical paths of
//! the documents from the entry down to it. A directive that leads back into
//! the lineage of its own document is a cycle. The lineage belongs to the
//! branch: two directives of one document start from the same lineage, so
//! that both may include the same file.
//!
//! The expansion is stated of worlds that hold finitely many answers, as
//! the world of every store does.

use vstd::prelude::*;
use crate::error::ErrorView;
use crate::segment::SegmentView;
use crate::store::Origin;
use crate::store::RequestView;
use crate::store::World;

verus! {

/// How a walk ended.
pub enum Ending {
    /// Everything was expanded.
    Complete,
    /// The walk was given up.
    Failed(ErrorView),
    /// The walk needs an answer that the world does not hold.
    Blocked(RequestView),
}

/// What a walk gave: the text that it wrote, the canonical paths of the
/// files that it opened, and how it ended. Of a walk that did not end
/// `Complete`, these are the text and the files up to the point where it
/// stopped.
pub struct Outcome {
    pub text: Seq<char>,
    pub touched: Set<Seq<char>>,
    pub ending: Ending,
}

impl Outcome {
    /// A walk that wrote `text` and opened nothing.
    pub open spec fn wrote(text: Seq<char>) -> Outcome {
        Outcome { text, touched: Set::empty(), ending: Ending::Complete }
    }

    /// A walk that opened the file at `path` and wrote nothing.
    pub open spec fn opened(path: Seq<char>) -> Outcome {
        Outcome { text: Seq::empty(), touched: set![path], ending: Ending::Complete }
    }

    /// A walk that ended at once.
    pub open spec fn ended(ending: Ending) -> Outcome {
        Outcome { text: Seq::empty(), touched: Set::empty(), ending }
    }

    /// This walk, and `next` after it if this one was complete.
    pub open spec fn followed_by(self, next: Outcome) -> Outcome {
        if self.ending is Complete {
            Outcome {
                text: self.text + next.text,
                touched: self.touched.union(next.touched),
                ending: next.ending,
            }
        } else {
            self
        }
    }
}

/// The references that lead out of `lineage`: those that are known to lead
/// to a file that `lineage` does not hold.
pub open spec fn leading_out(world: World, lineage: Set<Seq<char>>) -> Set<Origin> {
    world.links.dom().filter(
        |origin: Origin|
            world.links[origin] matches Ok(target) && !lineage.contains(target),
    )
}

/// Following a reference to a new file leaves fewer references that lead
/// out of the lineage.
pub proof fn lemma_leading_out_decreases(
    world: World,
    lineage: Set<Seq<char>>,
    origin: Origin,
    target: Seq<char>,
)
    requires
        world.links.dom().finite(),
        world.links.contains_key(origin),
        world.links[origin] == Ok::<Seq<char>, Seq<char>>(target),
        !lineage.contains(target),
    ensures
        leading_out(world, lineage.insert(target)).len() < leading_out(world, lineage).len(),
{
    let before = leading_out(world, lineage);
    let after = leading_out(world, lineage.insert(target));
    vstd::set_lib::lemma_len_subset(before, world.links.dom());
    after.lemma_subset_not_in_lt(before, origin);
}

/// What following `reference` gives, written in the document `from` (or
/// given as the entry path, where `from` is `None`), and met along
/// `lineage`.
pub open spec fn follow(
    world: World,
    from: Option<Seq<char>>,
    reference: Seq<char>,
    lineage: Set<Seq<char>>,
) -> Outcome
    decreases leading_out(world, lineage).len(), 0nat, 0nat,
    when world.finite()
{
    if !world.links.contains_key((from, reference)) {
        Outcome::ended(Ending::Blocked(RequestView::Locate { from, reference }))
    } else {
        match world.links[(from, reference)] {
            Err(description) => Outcome::ended(Ending::Failed(ErrorView::Io(description))),
            Ok(target) => if lineage.contains(target) {
                Outcome::ended(Ending::Failed(ErrorView::ImportCycle(target)))
            } else {
                proof {
                    lemma_leading_out_decreases(world, lineage, (from, reference), target);
                }
                visit(world, target, lineage.insert(target))
            },
        }
    }
}

/// What the document at `path` expands to; `lineage` holds `path` and the
/// documents above it. The file counts as opened, its segments are expanded
/// in order, and where the reading of the file ended with a failure, the
/// walk fails with it after the segments that were read.
pub open spec fn visit(world: World, path: Seq<char>, lineage: Set<Seq<char>>) -> Outcome
    decreases leading_out(world, lineage).len(), 3nat, 0nat,
    when world.finite()
{
    if !world.documents.contains_key(path) {
        Outcome::ended(Ending::Blocked(RequestView::Read { path }))
    } else {
        let document = world.documents[path];
        Outcome::opened(path).followed_by(walk(world, path, lineage, document.segments)).followed_by(
            match document.failure {
                Some(description) => Outcome::ended(Ending::Failed(ErrorView::Io(description))),
                None => Outcome::ended(Ending::Complete),
            },
        )
    }
}

/// What `segments` of the document at `path` expand to, one after the
/// other, each from the same `lineage`.
pub open spec fn walk(
    world: World,
    path: Seq<char>,
    lineage: Set<Seq<char>>,
    segments: Seq<SegmentView>,
) -> Outcome
    decreases leading_out(world, lineage).len(), 2nat, segments.len(),
    when world.finite()
{
    if segments.len() == 0 {
        Outcome::ended(Ending::Complete)
    } else {
        eval(world, path, lineage, segments.first()).followed_by(
            walk(world, path, lineage, segments.drop_first()),
        )
    }
}

/// What one segment of the document at `path` expands to: text is written
/// with a line terminator after it; a reference gives what the file that it
/// leads to expands to.
pub open spec fn eval(
    world: World,
    path: Seq<char>,
    lineage: Set<Seq<char>>,
    segment: SegmentView,
) -> Outcome
    decreases leading_out(world, lineage).len(), 1nat, 0nat,
    when world.finite()
{
    match segment {
        SegmentView::Text(text) => Outcome::wrote(text.push('\n')),
        SegmentView::IncludeRef(reference) => follow(world, Some(path), reference, lineage),
    }
}

/// What the tree under the entry path expands to.
pub open spec fn expansion(world: World, entry: Seq<char>) -> Outcome {
    follow(world, None, entry, Set::empty())
}

impl Outcome {
    /// Walks that follow one another may be grouped either way.
    pub proof fn lemma_followed_by_associates(self, second: Outcome, third: Outcome)
        ensures
            self.followed_by(second).followed_by(third) == self.followed_by(
                second.followed_by(third),
            ),
    {
        let left = self.followed_by(second).followed_by(third);
        let right = self.followed_by(second.followed_by(third));
        assert(left.text =~= right.text);
        assert(left.touched =~= right.touched);
    }

    /// A complete walk that wrote and opened nothing changes nothing.
    pub proof fn lemma_followed_by_nothing(self)
        ensures
            self.followed_by(Outcome::ended(Ending::Complete)) == self,
            Outcome::ended(Ending::Complete).followed_by(self) == self,
    {
        let after = self.followed_by(Outcome::ended(Ending::Complete));
        assert(after.touched =~= self.touched);
        let before = Outcome::ended(Ending::Complete).followed_by(self);
        assert(before.touched =~= self.touched);
    }
}

} // verus!
