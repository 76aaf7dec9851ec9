//! What is known of the file system: the answers that it has given so far.

use vstd::prelude::*;
use crate::segment::segment_views;
use crate::segment::segments_of;
use crate::segment::Segment;
use crate::segment::SegmentView;
use crate::text::text_of;
use crate::text::texts_of;

verus! {

/// A question for the file system.
#[derive(Debug)]
pub enum Request {
    /// Which file does `reference` name? Where `from` is the canonical path
    /// of a document, `reference` was written in that document and is
    /// relative to the directory that holds it; where `from` is `None`,
    /// `reference` is the entry path as the caller gave it. The answer is
    /// the canonical path of that file.
    Locate { from: Option<String>, reference: String },
    /// What are the lines of the file at this canonical path?
    Read { path: String },
}

/// A [`Request`] as its mathematical value.
pub enum RequestView {
    Locate { from: Option<Seq<char>>, reference: Seq<char> },
    Read { path: Seq<char> },
}

impl View for Request {
    type V = RequestView;

    open spec fn view(&self) -> RequestView {
        match self {
            Request::Locate { from, reference } => RequestView::Locate {
                from: text_of(*from),
                reference: reference@,
            },
            Request::Read { path } => RequestView::Read { path: path@ },
        }
    }
}

/// Where a reference was written, and what it says.
pub type Origin = (Option<Seq<char>>, Seq<char>);

/// Where a reference leads: to a canonical path, or to the description of
/// the failure to find one.
pub type Resolution = Result<Seq<char>, Seq<char>>;

/// An answer to [`Request::Locate`] as its mathematical value.
pub open spec fn resolution_of(target: Result<String, String>) -> Resolution {
    match target {
        Ok(path) => Ok(path@),
        Err(description) => Err(description@),
    }
}

/// What reading a file gave: the segments of the lines that were read, in
/// order, and the description of the failure that ended the reading, if one
/// did.
pub struct DocumentView {
    pub segments: Seq<SegmentView>,
    pub failure: Option<Seq<char>>,
}

/// The file system as far as it has answered.
pub struct World {
    pub links: Map<Origin, Resolution>,
    pub documents: Map<Seq<char>, DocumentView>,
}

impl World {
    /// Nothing has been answered yet.
    pub open spec fn empty() -> World {
        World { links: Map::empty(), documents: Map::empty() }
    }

    /// Finitely many questions have been answered.
    pub open spec fn finite(self) -> bool {
        self.links.dom().finite() && self.documents.dom().finite()
    }

    /// Whether a request has its answer.
    pub open spec fn answers(self, request: RequestView) -> bool {
        match request {
            RequestView::Locate { from, reference } => self.links.contains_key((from, reference)),
            RequestView::Read { path } => self.documents.contains_key(path),
        }
    }

    /// Whether `other` holds every answer of `self`.
    pub open spec fn within(self, other: World) -> bool {
        self.links.submap_of(other.links) && self.documents.submap_of(other.documents)
    }
}

struct Link {
    from: Option<String>,
    reference: String,
    target: Result<String, String>,
}

struct Document {
    path: String,
    segments: Vec<Segment>,
    failure: Option<String>,
}

impl Link {
    spec fn origin(self) -> Origin {
        (text_of(self.from), self.reference@)
    }

    spec fn resolution(self) -> Resolution {
        resolution_of(self.target)
    }
}

impl Document {
    spec fn contents(self) -> DocumentView {
        DocumentView {
            segments: segment_views(self.segments@),
            failure: text_of(self.failure),
        }
    }
}

/// The map that a list of entries stands for: a later entry replaces an
/// earlier one with the same key.
spec fn table<K, V>(entries: Seq<(K, V)>) -> Map<K, V>
    decreases entries.len(),
{
    if entries.len() == 0 {
        Map::empty()
    } else {
        table(entries.drop_last()).insert(entries.last().0, entries.last().1)
    }
}

/// Whether the entry at `i` is the one that answers for `key`: no later
/// entry has the key.
spec fn decides<K, V>(entries: Seq<(K, V)>, i: int, key: K) -> bool {
    &&& 0 <= i < entries.len()
    &&& entries[i].0 == key
    &&& forall|j: int| i < j < entries.len() ==> (#[trigger] entries[j]).0 != key
}

proof fn lemma_table<K, V>(entries: Seq<(K, V)>, key: K)
    ensures
        table(entries).dom().finite(),
        (forall|i: int| 0 <= i < entries.len() ==> (#[trigger] entries[i]).0 != key) ==> !table(
            entries,
        ).contains_key(key),
        forall|i: int| #[trigger]
            decides(entries, i, key) ==> table(entries).contains_key(key) && table(entries)[key]
                == entries[i].1,
    decreases entries.len(),
{
    if entries.len() > 0 {
        let shorter = entries.drop_last();
        let last = entries.len() - 1;
        lemma_table(shorter, key);
        if forall|i: int| 0 <= i < entries.len() ==> (#[trigger] entries[i]).0 != key {
            assert forall|i: int| 0 <= i < shorter.len() implies (#[trigger] shorter[i]).0
                != key by {
                assert(entries[i].0 != key);
            }
        }
        assert forall|i: int| #[trigger] decides(entries, i, key) implies table(
            entries,
        ).contains_key(key) && table(entries)[key] == entries[i].1 by {
            if i < last {
                assert forall|j: int| i < j < shorter.len() implies (#[trigger] shorter[j]).0
                    != key by {
                    assert(entries[j].0 != key);
                }
                assert(decides(shorter, i, key));
            }
        }
    }
}

/// What a list of links says: for each, where the reference was written,
/// and where it leads.
spec fn links_in(links: Seq<Link>) -> Seq<(Origin, Resolution)> {
    links.map_values(|link: Link| (link.origin(), link.resolution()))
}

/// What a list of documents says: for each, its path and what reading it
/// gave.
spec fn documents_in(documents: Seq<Document>) -> Seq<(Seq<char>, DocumentView)> {
    documents.map_values(|document: Document| (document.path@, document.contents()))
}

/// The answers of the file system that have been recorded.
pub struct Store {
    links: Vec<Link>,
    documents: Vec<Document>,
}

impl View for Store {
    type V = World;

    closed spec fn view(&self) -> World {
        World {
            links: table(links_in(self.links@)),
            documents: table(documents_in(self.documents@)),
        }
    }
}

fn same_origin(from: &Option<String>, other: &Option<String>) -> (same: bool)
    ensures
        same == (text_of(*from) == text_of(*other)),
{
    match (from, other) {
        (Some(a), Some(b)) => a.eq(b),
        (None, None) => true,
        _ => false,
    }
}

impl Store {
    /// A store that holds no answer.
    pub fn new() -> (store: Store)
        ensures
            store@ == World::empty(),
    {
        Store { links: Vec::new(), documents: Vec::new() }
    }

    /// A store holds finitely many answers, so what its world expands to is
    /// stated.
    pub proof fn lemma_finite(&self)
        ensures
            self@.finite(),
    {
        lemma_table(links_in(self.links@), (None, Seq::empty()));
        lemma_table(documents_in(self.documents@), Seq::empty());
    }

    /// Records where `reference`, written in the document `from` (or given
    /// as the entry path, where `from` is `None`), leads: `Ok` with the
    /// canonical path of the file, or `Err` with the description of the
    /// failure to find it. An earlier answer to the same question is
    /// replaced.
    pub fn record_location(
        &mut self,
        from: Option<String>,
        reference: String,
        target: Result<String, String>,
    )
        ensures
            final(self)@.documents == old(self)@.documents,
            final(self)@.links == old(self)@.links.insert(
                (text_of(from), reference@),
                resolution_of(target),
            ),
    {
        let link = Link { from, reference, target };
        self.links.push(link);
        assert(links_in(self.links@).drop_last() =~= links_in(old(self).links@));
    }

    /// Where the reference leads, if that has been recorded.
    pub(crate) fn location(&self, from: &Option<String>, reference: &String) -> (found: Option<
        &Result<String, String>,
    >)
        ensures
            match found {
                Some(target) => self@.links.contains_key((text_of(*from), reference@))
                    && self@.links[(text_of(*from), reference@)] == resolution_of(*target),
                None => !self@.links.contains_key((text_of(*from), reference@)),
            },
    {
        let ghost origin: Origin = (text_of(*from), reference@);
        let mut i: usize = self.links.len();
        while i > 0
            invariant
                i <= self.links.len(),
                origin == (text_of(*from), reference@),
                forall|j: int|
                    i <= j < self.links.len() ==> (#[trigger] links_in(self.links@)[j]).0
                        != origin,
            decreases i,
        {
            i = i - 1;
            let link = &self.links[i];
            if same_origin(&link.from, from) && link.reference.eq(reference) {
                proof {
                    assert(decides(links_in(self.links@), i as int, origin));
                    lemma_table(links_in(self.links@), origin);
                }
                return Some(&link.target);
            }
        }
        proof {
            lemma_table(links_in(self.links@), origin);
        }
        None
    }

    /// Records what reading the file at the canonical path `path` gave: the
    /// lines that were read, in order and without their terminators, and
    /// the description of the failure that ended the reading, if one did. A
    /// file that could not be opened gave no lines and a failure. An earlier
    /// answer for the same path is replaced.
    pub fn record_document(&mut self, path: String, lines: &Vec<String>, failure: Option<String>)
        ensures
            final(self)@.links == old(self)@.links,
            final(self)@.documents == old(self)@.documents.insert(
                path@,
                DocumentView {
                    segments: segments_of(texts_of(lines@)),
                    failure: text_of(failure),
                },
            ),
    {
        let segments = Segment::parse_lines(lines);
        self.record_segments(path, segments, failure);
    }

    /// Records what reading the file at the canonical path `path` gave: the
    /// segments of the lines that were read, in order, and the description
    /// of the failure that ended the reading, if one did. An earlier answer
    /// for the same path is replaced.
    pub fn record_segments(&mut self, path: String, segments: Vec<Segment>, failure: Option<String>)
        ensures
            final(self)@.links == old(self)@.links,
            final(self)@.documents == old(self)@.documents.insert(
                path@,
                DocumentView { segments: segment_views(segments@), failure: text_of(failure) },
            ),
    {
        let document = Document { path, segments, failure };
        self.documents.push(document);
        assert(documents_in(self.documents@).drop_last() =~= documents_in(old(self).documents@));
    }

    /// What reading the file at `path` gave, if that has been recorded.
    pub(crate) fn document(&self, path: &String) -> (found: Option<(&Vec<Segment>, &Option<String>)>)
        ensures
            match found {
                Some((segments, failure)) => self@.documents.contains_key(path@)
                    && self@.documents[path@] == (DocumentView {
                    segments: segment_views(segments@),
                    failure: text_of(*failure),
                }),
                None => !self@.documents.contains_key(path@),
            },
    {
        let mut i: usize = self.documents.len();
        while i > 0
            invariant
                i <= self.documents.len(),
                forall|j: int|
                    i <= j < self.documents.len() ==> (#[trigger] documents_in(
                        self.documents@,
                    )[j]).0 != path@,
            decreases i,
        {
            i = i - 1;
            let document = &self.documents[i];
            if document.path.eq(path) {
                proof {
                    assert(decides(documents_in(self.documents@), i as int, path@));
                    lemma_table(documents_in(self.documents@), path@);
                }
                return Some((&document.segments, &document.failure));
            }
        }
        proof {
            lemma_table(documents_in(self.documents@), path@);
        }
        None
    }
}

} // verus!
