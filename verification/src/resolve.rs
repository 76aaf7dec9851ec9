//! Stitching a tree and listing its files, with the answers that a store
//! holds.

use vstd::prelude::*;
use crate::error::Error;
use crate::expansion::eval;
use crate::expansion::expansion;
use crate::expansion::follow;
use crate::expansion::leading_out;
use crate::expansion::lemma_leading_out_decreases;
use crate::expansion::visit;
use crate::expansion::walk;
use crate::expansion::Ending;
use crate::expansion::Outcome;
use crate::format::Format;
use crate::segment::segment_views;
use crate::segment::Segment;
use crate::store::Request;
use crate::store::Store;
use crate::text::text_of;
use crate::text::texts_of;

verus! {

/// How far a run got with the answers that the store holds.
#[derive(Debug)]
pub enum Progress<T> {
    /// The store lacks the answer to this request. Put the request to the
    /// file system, record the answer in the store and run again.
    Blocked(Request),
    /// The run came to its end, with this result.
    Finished(T),
}

/// The entry point of the library.
pub struct DocDoc;

/// How a walk ended.
enum Halt {
    Complete,
    Failed(Error),
    Blocked(Request),
}

impl View for Halt {
    type V = Ending;

    closed spec fn view(&self) -> Ending {
        match self {
            Halt::Complete => Ending::Complete,
            Halt::Failed(error) => Ending::Failed(error@),
            Halt::Blocked(request) => Ending::Blocked(request@),
        }
    }
}

/// Whether the walk that gave `outcome` is what took the output and the list
/// of opened files from their state before to their state after, and ended
/// as `halt` says. A walk that is not `writing` leaves the output as it is.
spec fn carried(
    outcome: Outcome,
    halt: Halt,
    writing: bool,
    output_before: Seq<char>,
    output_after: Seq<char>,
    touched_before: Seq<String>,
    touched_after: Seq<String>,
) -> bool {
    &&& output_after == if writing {
        output_before + outcome.text
    } else {
        output_before
    }
    &&& texts_of(touched_after).no_duplicates()
    &&& texts_of(touched_after).to_set() == texts_of(touched_before).to_set().union(
        outcome.touched,
    )
    &&& halt@ == outcome.ending
}

fn holds(paths: &Vec<String>, path: &String) -> (found: bool)
    ensures
        found == texts_of(paths@).contains(path@),
{
    let mut i: usize = 0;
    while i < paths.len()
        invariant
            i <= paths.len(),
            forall|j: int| 0 <= j < i ==> texts_of(paths@)[j] != path@,
        decreases paths.len() - i,
    {
        if paths[i].eq(path) {
            assert(texts_of(paths@)[i as int] == path@);
            return true;
        }
        i += 1;
    }
    false
}

fn note(paths: &mut Vec<String>, path: &String)
    requires
        texts_of(old(paths)@).no_duplicates(),
    ensures
        texts_of(final(paths)@).no_duplicates(),
        texts_of(final(paths)@).to_set() == texts_of(old(paths)@).to_set().insert(path@),
{
    if !holds(paths, path) {
        paths.push(path.clone());
        proof {
            assert(texts_of(paths@) =~= texts_of(old(paths)@).push(path@));
            texts_of(old(paths)@).lemma_push_to_set_commute(path@);
        }
    }
}

fn copy_of(text: &Option<String>) -> (copy: Option<String>)
    ensures
        text_of(copy) == text_of(*text),
{
    match text {
        Some(text) => Some(text.clone()),
        None => None,
    }
}

/// The lineage that a list of paths stands for.
spec fn lineage_of(paths: Seq<String>) -> Set<Seq<char>> {
    texts_of(paths).to_set()
}

fn follow_reference(
    store: &Store,
    from: &Option<String>,
    reference: &String,
    lineage: &mut Vec<String>,
    writing: bool,
    output: &mut String,
    touched: &mut Vec<String>,
) -> (halt: Halt)
    requires
        texts_of(old(touched)@).no_duplicates(),
    ensures
        final(lineage)@ == old(lineage)@,
        carried(
            follow(store@, text_of(*from), reference@, lineage_of(old(lineage)@)),
            halt,
            writing,
            old(output)@,
            final(output)@,
            old(touched)@,
            final(touched)@,
        ),
    decreases leading_out(store@, lineage_of(old(lineage)@)).len(), 0nat, 0nat,
{
    proof {
        store.lemma_finite();
        assert(texts_of(touched@).to_set().union(Set::empty()) =~= texts_of(touched@).to_set());
    }
    match store.location(from, reference) {
        None => Halt::Blocked(
            Request::Locate { from: copy_of(from), reference: reference.clone() },
        ),
        Some(Err(description)) => Halt::Failed(Error::Io(description.clone())),
        Some(Ok(target)) => {
            if holds(lineage, target) {
                Halt::Failed(Error::ImportCycle(target.clone()))
            } else {
                proof {
                    lemma_leading_out_decreases(
                        store@,
                        lineage_of(lineage@),
                        (text_of(*from), reference@),
                        target@,
                    );
                    texts_of(lineage@).lemma_push_to_set_commute(target@);
                    assert(texts_of(lineage@.push(*target)) =~= texts_of(lineage@).push(target@));
                }
                lineage.push(target.clone());
                let halt = DocDoc::traverse(store, target, lineage, writing, output, touched);
                lineage.pop();
                halt
            }
        },
    }
}

impl Segment {
    /// Expands this segment of the document at `path`: text is written to
    /// `output` with a line terminator after it, a reference is followed.
    /// Nothing is written where the walk is not `writing`.
    fn eval(
        &self,
        store: &Store,
        path: &String,
        lineage: &mut Vec<String>,
        writing: bool,
        output: &mut String,
        touched: &mut Vec<String>,
    ) -> (halt: Halt)
        requires
            texts_of(old(touched)@).no_duplicates(),
        ensures
            final(lineage)@ == old(lineage)@,
            carried(
                eval(store@, path@, lineage_of(old(lineage)@), self@),
                halt,
                writing,
                old(output)@,
                final(output)@,
                old(touched)@,
                final(touched)@,
            ),
        decreases leading_out(store@, lineage_of(old(lineage)@)).len(), 1nat, 0nat,
    {
        proof {
            store.lemma_finite();
        }
        match self {
            Segment::Text(text) => {
                if writing {
                    output.append(text.as_str());
                    output.append("\n");
                }
                proof {
                    reveal_strlit("\n");
                    assert(writing ==> output@ =~= old(output)@ + text@.push('\n'));
                    assert(texts_of(touched@).to_set().union(Set::empty()) =~= texts_of(
                        touched@,
                    ).to_set());
                }
                Halt::Complete
            },
            Segment::IncludeRef(reference) => {
                let from = Some(path.clone());
                follow_reference(store, &from, reference, lineage, writing, output, touched)
            },
        }
    }
}

impl DocDoc {
    /// Expands the document at the canonical path `path`, which `lineage`
    /// ends with: writes its text to `output`, where the walk is `writing`,
    /// and adds the files that were opened to `touched`.
    fn traverse(
        store: &Store,
        path: &String,
        lineage: &mut Vec<String>,
        writing: bool,
        output: &mut String,
        touched: &mut Vec<String>,
    ) -> (halt: Halt)
        requires
            texts_of(old(touched)@).no_duplicates(),
        ensures
            final(lineage)@ == old(lineage)@,
            carried(
                visit(store@, path@, lineage_of(old(lineage)@)),
                halt,
                writing,
                old(output)@,
                final(output)@,
                old(touched)@,
                final(touched)@,
            ),
        decreases leading_out(store@, lineage_of(old(lineage)@)).len(), 3nat, 0nat,
    {
        proof {
            store.lemma_finite();
        }
        let ghost lineage_before = lineage@;
        let ghost along = lineage_of(lineage@);
        match store.document(path) {
            None => {
                proof {
                    assert(texts_of(touched@).to_set().union(Set::empty()) =~= texts_of(
                        touched@,
                    ).to_set());
                }
                Halt::Blocked(Request::Read { path: path.clone() })
            },
            Some((segments, failure)) => {
                let ghost all = segment_views(segments@);
                let ghost whole = Outcome::opened(path@).followed_by(
                    walk(store@, path@, along, all),
                );
                let ghost mut done = Outcome::opened(path@);
                note(touched, path);
                proof {
                    assert(all.skip(0) =~= all);
                }
                let mut i: usize = 0;
                while i < segments.len()
                    invariant
                        i <= segments.len(),
                        store@.finite(),
                        lineage@ == lineage_before,
                        lineage_before == old(lineage)@,
                        along == lineage_of(lineage_before),
                        all == segment_views(segments@),
                        store@.documents.contains_key(path@),
                        store@.documents[path@].segments == all,
                        whole == Outcome::opened(path@).followed_by(
                            walk(store@, path@, along, all),
                        ),
                        done.ending is Complete,
                        done.followed_by(walk(store@, path@, along, all.skip(i as int))) == whole,
                        output@ == if writing {
                            old(output)@ + done.text
                        } else {
                            old(output)@
                        },
                        texts_of(touched@).no_duplicates(),
                        texts_of(touched@).to_set() == texts_of(old(touched)@).to_set().union(
                            done.touched,
                        ),
                    decreases segments.len() - i,
                {
                    let ghost rest = walk(store@, path@, along, all.skip(i as int + 1));
                    let ghost this = eval(store@, path@, along, all[i as int]);
                    proof {
                        assert(all.skip(i as int).drop_first() =~= all.skip(i as int + 1));
                        done.lemma_followed_by_associates(this, rest);
                    }
                    let halt = segments[i].eval(store, path, lineage, writing, output, touched);
                    proof {
                        assert(writing ==> output@ =~= old(output)@ + done.followed_by(this).text);
                        assert(texts_of(touched@).to_set() =~= texts_of(
                            old(touched)@,
                        ).to_set().union(done.followed_by(this).touched));
                    }
                    match halt {
                        Halt::Complete => {},
                        other => {
                            return other;
                        },
                    }
                    proof {
                        done = done.followed_by(this);
                    }
                    i += 1;
                }
                proof {
                    done.lemma_followed_by_nothing();
                }
                match failure {
                    Some(description) => Halt::Failed(Error::Io(description.clone())),
                    None => Halt::Complete,
                }
            },
        }
    }

    /// Walks the tree under `entry_path` with the answers that `store`
    /// holds.
    fn expand(
        store: &Store,
        entry_path: &str,
        writing: bool,
        output: &mut String,
        touched: &mut Vec<String>,
    ) -> (halt: Halt)
        requires
            old(touched)@.len() == 0,
        ensures
            carried(
                expansion(store@, entry_path@),
                halt,
                writing,
                old(output)@,
                final(output)@,
                old(touched)@,
                final(touched)@,
            ),
    {
        let mut lineage: Vec<String> = Vec::new();
        let reference = entry_path.to_owned();
        proof {
            assert(lineage_of(lineage@) =~= Set::empty());
        }
        follow_reference(store, &None, &reference, &mut lineage, writing, output, touched)
    }

    /// Walks the import tree from the entry path, and returns the canonical
    /// paths of all the files that the tree is made of, the entry file among
    /// them, each path once.
    ///
    /// The tree is walked exactly as [`DocDoc::stitch`] walks it, so the two
    /// fail on the same trees with the same error, and are blocked on the
    /// same request. No text is put together on the way.
    pub fn list_imports(_format: Format, store: &Store, entry_path: &str) -> (progress: Progress<
        Result<Vec<String>, Error>,
    >)
        ensures
            match progress {
                Progress::Blocked(request) => expansion(store@, entry_path@).ending
                    == Ending::Blocked(request@),
                Progress::Finished(Ok(paths)) => {
                    &&& expansion(store@, entry_path@).ending is Complete
                    &&& texts_of(paths@).no_duplicates()
                    &&& texts_of(paths@).to_set() == expansion(store@, entry_path@).touched
                },
                Progress::Finished(Err(error)) => expansion(store@, entry_path@).ending
                    == Ending::Failed(error@),
            },
    {
        let mut unwritten = String::new();
        let mut touched: Vec<String> = Vec::new();
        let halt = Self::expand(store, entry_path, false, &mut unwritten, &mut touched);
        match halt {
            Halt::Complete => Progress::Finished(Ok(touched)),
            Halt::Failed(error) => Progress::Finished(Err(error)),
            Halt::Blocked(request) => Progress::Blocked(request),
        }
    }

    /// Walks the import tree from the entry path, and appends the text that
    /// it expands to to `output`: every text segment with a line terminator
    /// after it, every directive replaced by what its file expands to.
    ///
    /// Where the walk fails, `output` has received the text up to the point
    /// of failure. Where the walk is blocked, `output` is left as it was.
    pub fn stitch(_format: Format, output: &mut String, store: &Store, entry_path: &str) -> (progress:
        Progress<Result<(), Error>>)
        ensures
            match progress {
                Progress::Blocked(request) => {
                    &&& expansion(store@, entry_path@).ending == Ending::Blocked(request@)
                    &&& final(output)@ == old(output)@
                },
                Progress::Finished(Ok(_)) => {
                    &&& expansion(store@, entry_path@).ending is Complete
                    &&& final(output)@ == old(output)@ + expansion(store@, entry_path@).text
                },
                Progress::Finished(Err(error)) => {
                    &&& expansion(store@, entry_path@).ending == Ending::Failed(error@)
                    &&& final(output)@ == old(output)@ + expansion(store@, entry_path@).text
                },
            },
    {
        let mut text = String::new();
        let mut touched: Vec<String> = Vec::new();
        let halt = Self::expand(store, entry_path, true, &mut text, &mut touched);
        match halt {
            Halt::Complete => {
                output.append(text.as_str());
                Progress::Finished(Ok(()))
            },
            Halt::Failed(error) => {
                output.append(text.as_str());
                Progress::Finished(Err(error))
            },
            Halt::Blocked(request) => Progress::Blocked(request),
        }
    }
}

} // verus!
