//! The pieces that a line of a document is made of.

use vstd::prelude::*;
use crate::matcher::dissect;
use crate::matcher::regex_accepts;
use crate::matcher::regex_groups;
use crate::matcher::regex_split;
use crate::text::optional_texts_of;
use crate::text::texts_of;

verus! {

/// The regular expression that finds a directive in a line. Its first group
/// is the path that the directive names.
pub const DIRECTIVE_PATTERN: &'static str = r#"\#\[docdoc:path="([^"\#]*)"\]"#;

/// One piece of a line: literal text, or a request to include another
/// document in its place.
#[derive(Debug)]
pub enum Segment {
    /// Text that is written out as it stands.
    Text(String),
    /// The path, as written in the directive, of a document to include.
    IncludeRef(String),
}

/// A [`Segment`] as its mathematical value.
pub enum SegmentView {
    Text(Seq<char>),
    IncludeRef(Seq<char>),
}

impl View for Segment {
    type V = SegmentView;

    open spec fn view(&self) -> SegmentView {
        match self {
            Segment::Text(text) => SegmentView::Text(text@),
            Segment::IncludeRef(path) => SegmentView::IncludeRef(path@),
        }
    }
}

/// The values of a sequence of segments.
pub open spec fn segment_views(segments: Seq<Segment>) -> Seq<SegmentView> {
    segments.map_values(|segment: Segment| segment@)
}

/// The directive that names `path`, as it is written in a line.
pub open spec fn directive(path: Seq<char>) -> Seq<char> {
    "#[docdoc:path=\""@ + path + "\"]"@
}

/// Whether a directive can name `path`: it holds neither a double quote nor
/// a hash sign.
pub open spec fn is_plain(path: Seq<char>) -> bool {
    forall|i: int| 0 <= i < path.len() ==> path[i] != '"' && path[i] != '#'
}

impl SegmentView {
    /// The text of the line that this segment stands for.
    pub open spec fn source(self) -> Seq<char> {
        match self {
            SegmentView::Text(text) => text,
            SegmentView::IncludeRef(path) => directive(path),
        }
    }
}

/// The text of the line that these segments stand for, one after the other.
pub open spec fn source_of(segments: Seq<SegmentView>) -> Seq<char>
    decreases segments.len(),
{
    if segments.len() == 0 {
        Seq::empty()
    } else {
        source_of(segments.drop_last()) + segments.last().source()
    }
}

/// Text as a list of segments: none where there is no text.
pub open spec fn text_segment(text: Seq<char>) -> Seq<SegmentView> {
    if text.len() == 0 {
        Seq::empty()
    } else {
        seq![SegmentView::Text(text)]
    }
}

/// The paths that the groups hold.
pub open spec fn paths_in(groups: Seq<Option<Seq<char>>>) -> Seq<Seq<char>> {
    groups.map_values(
        |group: Option<Seq<char>>|
            match group {
                Some(path) => path,
                None => Seq::empty(),
            },
    )
}

/// The line that has the directives naming `paths`, in order, with
/// `between` before, between and after them.
pub open spec fn spelled(between: Seq<Seq<char>>, paths: Seq<Seq<char>>) -> Seq<char>
    recommends
        between.len() == paths.len() + 1,
    decreases paths.len(),
{
    if paths.len() == 0 {
        between[0]
    } else {
        spelled(between.drop_last(), paths.drop_last()) + directive(paths.last()) + between.last()
    }
}

/// The segments of the line that has the directives naming `paths`, in
/// order, with `between` before, between and after them: each directive is
/// a reference, and what lies between is text, left out where it is empty.
pub open spec fn woven(between: Seq<Seq<char>>, paths: Seq<Seq<char>>) -> Seq<SegmentView>
    recommends
        between.len() == paths.len() + 1,
    decreases paths.len(),
{
    if paths.len() == 0 {
        text_segment(between[0])
    } else {
        woven(between.drop_last(), paths.drop_last()) + seq![
            SegmentView::IncludeRef(paths.last()),
        ] + text_segment(between.last())
    }
}

/// Whether `between` and `groups` take `line` apart: each group holds a
/// path that a directive can name, and the directives with `between` around
/// them spell the line.
pub open spec fn fits(
    line: Seq<char>,
    between: Seq<Seq<char>>,
    groups: Seq<Option<Seq<char>>>,
) -> bool {
    &&& between.len() == groups.len() + 1
    &&& forall|i: int|
        0 <= i < groups.len() ==> ((#[trigger] groups[i]) matches Some(path) && is_plain(path))
    &&& spelled(between, paths_in(groups)) == line
}

/// The segments of `line`, given what a search for directives found in it:
/// `between`, the text before, between and after the directives, and
/// `groups`, the path of each. Where the search found no directive, the
/// line is one text segment, also where it is empty. `None` where what was
/// found does not take the line apart.
pub open spec fn assembled(
    line: Seq<char>,
    between: Seq<Seq<char>>,
    groups: Seq<Option<Seq<char>>>,
) -> Option<Seq<SegmentView>> {
    if !fits(line, between, groups) {
        None
    } else if groups.len() == 0 {
        Some(seq![SegmentView::Text(line)])
    } else {
        Some(woven(between, paths_in(groups)))
    }
}

/// The segments of a line: what the search for [`DIRECTIVE_PATTERN`] found
/// in it, put together; the line as one text segment where that cannot be
/// done.
pub open spec fn parsed(line: Seq<char>) -> Seq<SegmentView> {
    if regex_accepts(DIRECTIVE_PATTERN@) {
        match assembled(
            line,
            regex_split(DIRECTIVE_PATTERN@, line),
            regex_groups(DIRECTIVE_PATTERN@, line),
        ) {
            Some(segments) => segments,
            None => seq![SegmentView::Text(line)],
        }
    } else {
        seq![SegmentView::Text(line)]
    }
}

/// The segments of the lines of a document, in order.
pub open spec fn segments_of(lines: Seq<Seq<char>>) -> Seq<SegmentView>
    decreases lines.len(),
{
    if lines.len() == 0 {
        Seq::empty()
    } else {
        segments_of(lines.drop_last()) + parsed(lines.last())
    }
}

/// Whether `line` holds a directive: the directive that names some path
/// stands somewhere in it.
pub open spec fn holds_directive(line: Seq<char>) -> bool {
    exists|at: int, path: Seq<char>| #[trigger] stands_at(line, at, path)
}

/// Whether the directive that names `path` stands in `line` at `at`.
pub open spec fn stands_at(line: Seq<char>, at: int, path: Seq<char>) -> bool {
    &&& is_plain(path)
    &&& 0 <= at
    &&& at + directive(path).len() <= line.len()
    &&& line.subrange(at, at + directive(path).len()) == directive(path)
}

/// The text that a list of segments stands for is the text of its parts,
/// one after the other.
pub proof fn lemma_source_of_concatenation(first: Seq<SegmentView>, second: Seq<SegmentView>)
    ensures
        source_of(first + second) == source_of(first) + source_of(second),
    decreases second.len(),
{
    if second.len() > 0 {
        assert((first + second).drop_last() =~= first + second.drop_last());
        lemma_source_of_concatenation(first, second.drop_last());
    }
}

/// One segment stands for its own text.
pub proof fn lemma_source_of_one(segment: SegmentView)
    ensures
        source_of(seq![segment]) == segment.source(),
{
    assert(source_of(seq![segment].drop_last()) =~= Seq::<char>::empty());
}

/// The segments that are woven from a search spell the line that the search
/// spells, and each of them is a reference to one of the paths, or text
/// that is not empty.
pub proof fn lemma_woven(between: Seq<Seq<char>>, paths: Seq<Seq<char>>)
    requires
        between.len() == paths.len() + 1,
    ensures
        source_of(woven(between, paths)) == spelled(between, paths),
        forall|i: int|
            0 <= i < woven(between, paths).len() ==> match #[trigger] woven(between, paths)[i] {
                SegmentView::Text(text) => text.len() > 0,
                SegmentView::IncludeRef(path) => paths.contains(path),
            },
        paths.len() > 0 ==> woven(between, paths).len() > 0,
    decreases paths.len(),
{
    if paths.len() == 0 {
        if between[0].len() > 0 {
            lemma_source_of_one(SegmentView::Text(between[0]));
        }
    } else {
        let before = woven(between.drop_last(), paths.drop_last());
        let reference = seq![SegmentView::IncludeRef(paths.last())];
        let after = text_segment(between.last());
        lemma_woven(between.drop_last(), paths.drop_last());
        lemma_source_of_concatenation(before + reference, after);
        lemma_source_of_concatenation(before, reference);
        lemma_source_of_one(SegmentView::IncludeRef(paths.last()));
        if between.last().len() > 0 {
            lemma_source_of_one(SegmentView::Text(between.last()));
        }
        assert forall|i: int| 0 <= i < woven(between, paths).len() implies match #[trigger] woven(
            between,
            paths,
        )[i] {
            SegmentView::Text(text) => text.len() > 0,
            SegmentView::IncludeRef(path) => paths.contains(path),
        } by {
            if i < before.len() {
                if let SegmentView::IncludeRef(path) = before[i] {
                    let j = choose|j: int|
                        0 <= j < paths.drop_last().len() && paths.drop_last()[j] == path;
                    assert(paths[j] == path);
                }
            } else if i == before.len() {
                assert(paths[paths.len() - 1] == paths.last());
            }
        }
    }
}

/// The segments of a line spell the line: the texts and the directives of
/// the references, one after the other, are the line again.
pub proof fn lemma_parsed_spells_line(line: Seq<char>)
    ensures
        source_of(parsed(line)) == line,
{
    let between = regex_split(DIRECTIVE_PATTERN@, line);
    let groups = regex_groups(DIRECTIVE_PATTERN@, line);
    if regex_accepts(DIRECTIVE_PATTERN@) && fits(line, between, groups) && groups.len() > 0 {
        lemma_woven(between, paths_in(groups));
    } else {
        lemma_source_of_one(SegmentView::Text(line));
    }
}

/// A line has at least one segment; text that is empty is a segment only
/// where it is the whole line; and the path of each reference is one that a
/// directive can name: it holds neither a double quote nor a hash sign.
pub proof fn lemma_parsed_segments(line: Seq<char>)
    ensures
        parsed(line).len() > 0,
        forall|i: int|
            0 <= i < parsed(line).len() ==> match #[trigger] parsed(line)[i] {
                SegmentView::Text(text) => text.len() > 0 || parsed(line).len() == 1,
                SegmentView::IncludeRef(path) => is_plain(path),
            },
{
    let between = regex_split(DIRECTIVE_PATTERN@, line);
    let groups = regex_groups(DIRECTIVE_PATTERN@, line);
    if regex_accepts(DIRECTIVE_PATTERN@) && fits(line, between, groups) && groups.len() > 0 {
        let paths = paths_in(groups);
        lemma_woven(between, paths);
        assert forall|i: int| 0 <= i < parsed(line).len() implies match #[trigger] parsed(line)[i] {
            SegmentView::Text(text) => text.len() > 0 || parsed(line).len() == 1,
            SegmentView::IncludeRef(path) => is_plain(path),
        } by {
            if let SegmentView::IncludeRef(path) = parsed(line)[i] {
                let j = choose|j: int| 0 <= j < paths.len() && paths[j] == path;
                assert(groups[j] == Some(path));
            }
        }
    }
}

/// A line that holds no directive is one text segment: the line as it
/// stands.
pub proof fn lemma_parsed_without_directive(line: Seq<char>)
    requires
        !holds_directive(line),
    ensures
        parsed(line) == seq![SegmentView::Text(line)],
{
    let between = regex_split(DIRECTIVE_PATTERN@, line);
    let groups = regex_groups(DIRECTIVE_PATTERN@, line);
    if regex_accepts(DIRECTIVE_PATTERN@) && fits(line, between, groups) && groups.len() > 0 {
        let paths = paths_in(groups);
        let before = spelled(between.drop_last(), paths.drop_last());
        let path = paths.last();
        let at = before.len() as int;
        assert(line.subrange(at, at + directive(path).len()) =~= directive(path));
        assert(stands_at(line, at, path));
    }
}

/// Whether `line` holds the two characters that every directive begins
/// with: a hash sign with an opening square bracket after it.
pub open spec fn opens_directive(line: Seq<char>) -> bool {
    exists|at: int| 0 <= at < line.len() - 1 && #[trigger] line[at] == '#' && line[at + 1] == '['
}

/// A line that nowhere opens a directive holds none.
pub proof fn lemma_directive_is_opened(line: Seq<char>)
    requires
        !opens_directive(line),
    ensures
        !holds_directive(line),
{
    if holds_directive(line) {
        let (at, path) = choose|at: int, path: Seq<char>| #[trigger] stands_at(line, at, path);
        let found = line.subrange(at, at + directive(path).len());
        reveal_strlit("#[docdoc:path=\"");
        assert(directive(path)[0] == '#' && directive(path)[1] == '[');
        assert(found[0] == line[at] && found[1] == line[at + 1]);
    }
}

/// Whether a directive can name `path`.
fn names_path(path: &str) -> (plain: bool)
    ensures
        plain == is_plain(path@),
{
    for character in iter: path.chars()
        invariant
            iter.seq() == path@,
            forall|i: int| 0 <= i < iter.index() ==> path@[i] != '"' && path@[i] != '#',
    {
        if character == '"' || character == '#' {
            return false;
        }
    }
    true
}

/// Whether `line` opens a directive somewhere.
fn has_opening(line: &str) -> (found: bool)
    ensures
        found == opens_directive(line@),
{
    let mut after_hash = false;
    for character in iter: line.chars()
        invariant
            iter.seq() == line@,
            after_hash == (iter.index() > 0 && line@[iter.index() - 1] == '#'),
            forall|at: int|
                0 <= at < iter.index() - 1 ==> !(#[trigger] line@[at] == '#' && line@[at + 1]
                    == '['),
    {
        if after_hash && character == '[' {
            return true;
        }
        after_hash = character == '#';
    }
    false
}

/// The line as one text segment.
fn whole_line(line: &str) -> (segments: Vec<Segment>)
    ensures
        segment_views(segments@) == seq![SegmentView::Text(line@)],
{
    let mut segments: Vec<Segment> = Vec::new();
    segments.push(Segment::Text(line.to_owned()));
    segments
}

impl Segment {
    /// Puts the segments of `line` together from what a search for
    /// directives found in it: `between`, the text before, between and
    /// after the directives, and `groups`, the path of each.
    ///
    /// The search is not believed: the segments are returned only where the
    /// paths are ones that a directive can name and, written back as
    /// directives with `between` around them, spell `line`.
    pub fn weave(line: &str, between: &Vec<String>, groups: &Vec<Option<String>>) -> (segments:
        Option<Vec<Segment>>)
        ensures
            match segments {
                Some(segments) => assembled(
                    line@,
                    texts_of(between@),
                    optional_texts_of(groups@),
                ) == Some(segment_views(segments@)),
                None => assembled(line@, texts_of(between@), optional_texts_of(groups@)) is None,
            },
    {
        if between.len() == 0 || between.len() - 1 != groups.len() {
            return None;
        }
        let ghost gaps = texts_of(between@);
        let ghost found = optional_texts_of(groups@);
        let ghost paths = paths_in(found);
        let mut line_spelled = between[0].clone();
        let mut segments: Vec<Segment> = Vec::new();
        if !between[0].as_str().is_empty() {
            segments.push(Segment::Text(between[0].clone()));
        }
        let mut k: usize = 0;
        while k < groups.len()
            invariant
                k <= groups.len(),
                between.len() == groups.len() + 1,
                gaps == texts_of(between@),
                found == optional_texts_of(groups@),
                paths == paths_in(found),
                line_spelled@ == spelled(gaps.take(k + 1), paths.take(k as int)),
                segment_views(segments@) == woven(gaps.take(k + 1), paths.take(k as int)),
                forall|i: int|
                    0 <= i < k ==> ((#[trigger] found[i]) matches Some(path) && is_plain(path)),
            decreases groups.len() - k,
        {
            match &groups[k] {
                None => {
                    assert(found[k as int] is None);
                    return None;
                },
                Some(path) => {
                    if !names_path(path.as_str()) {
                        return None;
                    }
                    let after = &between[k + 1];
                    line_spelled.append("#[docdoc:path=\"");
                    line_spelled.append(path.as_str());
                    line_spelled.append("\"]");
                    line_spelled.append(after.as_str());
                    segments.push(Segment::IncludeRef(path.clone()));
                    if !after.as_str().is_empty() {
                        segments.push(Segment::Text(after.clone()));
                    }
                    proof {
                        let gaps_next = gaps.take(k + 2);
                        let paths_next = paths.take(k + 1);
                        assert(gaps_next.drop_last() =~= gaps.take(k + 1));
                        assert(paths_next.drop_last() =~= paths.take(k as int));
                    }
                },
            }
            k += 1;
        }
        proof {
            assert(gaps.take(k + 1) =~= gaps);
            assert(paths.take(k as int) =~= paths);
        }
        let whole = line.to_owned();
        if !line_spelled.eq(&whole) {
            return None;
        }
        if groups.len() == 0 {
            Some(whole_line(line))
        } else {
            Some(segments)
        }
    }

    /// Takes a line apart into its segments: each directive that is found
    /// in it becomes a reference that carries the path as it is written,
    /// and the text before, between and after the directives becomes text.
    /// A line in which no directive is found is one text segment.
    ///
    /// The directives are found by the regular-expression engine, with
    /// [`DIRECTIVE_PATTERN`]; what it finds is put together by
    /// [`Segment::weave`]. The engine is not asked about a line that
    /// nowhere opens a directive.
    pub fn parse(line: &str) -> (segments: Vec<Segment>)
        ensures
            segment_views(segments@) == parsed(line@),
    {
        if !has_opening(line) {
            proof {
                lemma_directive_is_opened(line@);
                lemma_parsed_without_directive(line@);
            }
            return whole_line(line);
        }
        match dissect(DIRECTIVE_PATTERN, line) {
            Some((between, groups)) => match Self::weave(line, &between, &groups) {
                Some(segments) => segments,
                None => whole_line(line),
            },
            None => whole_line(line),
        }
    }

    /// Takes the lines of a document apart, one after the other.
    pub fn parse_lines(lines: &Vec<String>) -> (segments: Vec<Segment>)
        ensures
            segment_views(segments@) == segments_of(texts_of(lines@)),
    {
        let mut segments: Vec<Segment> = Vec::new();
        let mut i: usize = 0;
        while i < lines.len()
            invariant
                i <= lines.len(),
                segment_views(segments@) == segments_of(texts_of(lines@).take(i as int)),
            decreases lines.len() - i,
        {
            let mut found = Self::parse(lines[i].as_str());
            proof {
                assert(texts_of(lines@).take(i + 1).drop_last() =~= texts_of(lines@).take(
                    i as int,
                ));
            }
            segments.append(&mut found);
            i += 1;
        }
        proof {
            assert(texts_of(lines@).take(i as int) =~= texts_of(lines@));
        }
        segments
    }
}

} // verus!
