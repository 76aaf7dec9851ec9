use docdoc::error::Error;
use docdoc::{DocDoc, Format, Progress, Request, Segment, Store};

fn lines(text: &[&str]) -> Vec<String> {
    text.iter().map(|line| line.to_string()).collect()
}

fn entry_at(store: &mut Store, entry: &str, path: &str) {
    store.record_location(None, entry.to_string(), Ok(path.to_string()));
}

fn link(store: &mut Store, from: &str, reference: &str, path: &str) {
    store.record_location(Some(from.to_string()), reference.to_string(), Ok(path.to_string()));
}

fn file(store: &mut Store, path: &str, text: &[&str]) {
    store.record_document(path.to_string(), &lines(text), None);
}

fn stitched(store: &Store, entry: &str) -> (String, Progress<Result<(), Error>>) {
    let mut output = String::new();
    let progress = DocDoc::stitch(Format::Markdown, &mut output, store, entry);
    (output, progress)
}

fn diamond() -> Store {
    let mut store = Store::new();
    entry_at(&mut store, "a.md", "/d/a.md");
    file(&mut store, "/d/a.md", &["A", "#[docdoc:path=\"b.md\"]", "#[docdoc:path=\"c.md\"]"]);
    link(&mut store, "/d/a.md", "b.md", "/d/b.md");
    link(&mut store, "/d/a.md", "c.md", "/d/c.md");
    file(&mut store, "/d/b.md", &["B", "#[docdoc:path=\"d.md\"]"]);
    file(&mut store, "/d/c.md", &["C", "#[docdoc:path=\"./d.md\"]"]);
    link(&mut store, "/d/b.md", "d.md", "/d/d.md");
    link(&mut store, "/d/c.md", "./d.md", "/d/d.md");
    file(&mut store, "/d/d.md", &["D1", "D2"]);
    store
}

#[test]
fn entry_with_one_include_is_stitched() {
    let mut store = Store::new();
    entry_at(&mut store, "entry.md", "/docs/entry.md");
    file(&mut store, "/docs/entry.md", &["# Title", "#[docdoc:path=\"body.md\"]", "Footer"]);
    link(&mut store, "/docs/entry.md", "body.md", "/docs/body.md");
    file(&mut store, "/docs/body.md", &["Hello", "World"]);

    let (output, progress) = stitched(&store, "entry.md");
    assert!(matches!(progress, Progress::Finished(Ok(()))));
    assert_eq!(output, "# Title\nHello\nWorld\nFooter\n");
}

#[test]
fn stitching_twice_gives_the_same_output() {
    let store = diamond();
    let (first, first_progress) = stitched(&store, "a.md");
    let (second, second_progress) = stitched(&store, "a.md");
    assert!(matches!(first_progress, Progress::Finished(Ok(()))));
    assert!(matches!(second_progress, Progress::Finished(Ok(()))));
    assert_eq!(first, second);
    assert_eq!(first.as_bytes(), second.as_bytes());
}

#[test]
fn answers_that_are_not_asked_for_change_nothing() {
    let mut store = diamond();
    let (before, _) = stitched(&store, "a.md");
    link(&mut store, "/d/d.md", "unused.md", "/d/unused.md");
    file(&mut store, "/d/unused.md", &["never read"]);
    let (after, progress) = stitched(&store, "a.md");
    assert!(matches!(progress, Progress::Finished(Ok(()))));
    assert_eq!(before, after);
}

#[test]
fn line_without_directive_is_written_with_one_terminator() {
    let mut store = Store::new();
    entry_at(&mut store, "one.md", "/one.md");
    file(&mut store, "/one.md", &["no directive # here"]);
    let (output, progress) = stitched(&store, "one.md");
    assert!(matches!(progress, Progress::Finished(Ok(()))));
    assert_eq!(output, "no directive # here\n");
}

#[test]
fn empty_line_is_written_as_a_terminator() {
    let mut store = Store::new();
    entry_at(&mut store, "one.md", "/one.md");
    file(&mut store, "/one.md", &["a", "", "b"]);
    let (output, _) = stitched(&store, "one.md");
    assert_eq!(output, "a\n\nb\n");
}

#[test]
fn empty_document_writes_nothing() {
    let mut store = Store::new();
    entry_at(&mut store, "one.md", "/one.md");
    file(&mut store, "/one.md", &[]);
    let (output, progress) = stitched(&store, "one.md");
    assert!(matches!(progress, Progress::Finished(Ok(()))));
    assert_eq!(output, "");
}

#[test]
fn output_is_appended_to_what_is_there() {
    let mut store = Store::new();
    entry_at(&mut store, "one.md", "/one.md");
    file(&mut store, "/one.md", &["text"]);
    let mut output = "kept|".to_string();
    let progress = DocDoc::stitch(Format::Markdown, &mut output, &store, "one.md");
    assert!(matches!(progress, Progress::Finished(Ok(()))));
    assert_eq!(output, "kept|text\n");
}

#[test]
fn every_text_segment_gets_a_terminator() {
    let mut store = Store::new();
    entry_at(&mut store, "e.md", "/e.md");
    file(&mut store, "/e.md", &["before #[docdoc:path=\"in.md\"] after"]);
    link(&mut store, "/e.md", "in.md", "/in.md");
    file(&mut store, "/in.md", &["inner 1", "inner 2"]);
    let (output, _) = stitched(&store, "e.md");
    assert_eq!(output, "before \ninner 1\ninner 2\n after\n");
}

#[test]
fn self_inclusion_fails_with_a_cycle_error_naming_the_document() {
    let mut store = Store::new();
    entry_at(&mut store, "self.md", "/docs/self.md");
    file(&mut store, "/docs/self.md", &["first", "#[docdoc:path=\"./self.md\"]", "last"]);
    link(&mut store, "/docs/self.md", "./self.md", "/docs/self.md");
    let (output, progress) = stitched(&store, "self.md");
    match progress {
        Progress::Finished(Err(Error::ImportCycle(path))) => assert_eq!(path, "/docs/self.md"),
        other => panic!("{:?}", other),
    }
    assert_eq!(output, "first\n");
}

#[test]
fn mutual_inclusion_fails_with_a_cycle_error() {
    let mut store = Store::new();
    entry_at(&mut store, "a.md", "/a.md");
    file(&mut store, "/a.md", &["A", "#[docdoc:path=\"b.md\"]"]);
    link(&mut store, "/a.md", "b.md", "/b.md");
    file(&mut store, "/b.md", &["B", "#[docdoc:path=\"a.md\"]"]);
    link(&mut store, "/b.md", "a.md", "/a.md");
    let (output, progress) = stitched(&store, "a.md");
    match progress {
        Progress::Finished(Err(Error::ImportCycle(path))) => assert_eq!(path, "/a.md"),
        other => panic!("{:?}", other),
    }
    assert_eq!(output, "A\nB\n");
}

#[test]
fn cycle_below_the_entry_names_the_document_that_is_met_again() {
    let mut store = Store::new();
    entry_at(&mut store, "a.md", "/a.md");
    file(&mut store, "/a.md", &["#[docdoc:path=\"b.md\"]"]);
    link(&mut store, "/a.md", "b.md", "/b.md");
    file(&mut store, "/b.md", &["#[docdoc:path=\"c.md\"]"]);
    link(&mut store, "/b.md", "c.md", "/c.md");
    file(&mut store, "/c.md", &["#[docdoc:path=\"b.md\"]"]);
    link(&mut store, "/c.md", "b.md", "/b.md");
    match stitched(&store, "a.md").1 {
        Progress::Finished(Err(Error::ImportCycle(path))) => assert_eq!(path, "/b.md"),
        other => panic!("{:?}", other),
    }
}

#[test]
fn diamond_inclusion_is_stitched_with_the_shared_file_twice() {
    let store = diamond();
    let (output, progress) = stitched(&store, "a.md");
    assert!(matches!(progress, Progress::Finished(Ok(()))));
    assert_eq!(output, "A\nB\nD1\nD2\nC\nD1\nD2\n");
}

#[test]
fn same_file_twice_in_one_line_is_no_cycle() {
    let mut store = Store::new();
    entry_at(&mut store, "e.md", "/e.md");
    file(&mut store, "/e.md", &["#[docdoc:path=\"x.md\"]#[docdoc:path=\"x.md\"]"]);
    link(&mut store, "/e.md", "x.md", "/x.md");
    file(&mut store, "/x.md", &["x"]);
    let (output, progress) = stitched(&store, "e.md");
    assert!(matches!(progress, Progress::Finished(Ok(()))));
    assert_eq!(output, "x\nx\n");
}

#[test]
fn missing_answers_are_asked_for_in_order() {
    let mut store = Store::new();
    let mut output = String::new();
    match DocDoc::stitch(Format::Markdown, &mut output, &store, "entry.md") {
        Progress::Blocked(Request::Locate { from: None, reference }) => {
            assert_eq!(reference, "entry.md")
        }
        other => panic!("{:?}", other),
    }
    entry_at(&mut store, "entry.md", "/docs/entry.md");
    match DocDoc::stitch(Format::Markdown, &mut output, &store, "entry.md") {
        Progress::Blocked(Request::Read { path }) => assert_eq!(path, "/docs/entry.md"),
        other => panic!("{:?}", other),
    }
    file(&mut store, "/docs/entry.md", &["a #[docdoc:path=\"x.md\"] b"]);
    match DocDoc::stitch(Format::Markdown, &mut output, &store, "entry.md") {
        Progress::Blocked(Request::Locate { from: Some(from), reference }) => {
            assert_eq!(from, "/docs/entry.md");
            assert_eq!(reference, "x.md");
        }
        other => panic!("{:?}", other),
    }
    assert_eq!(output, "");
    store.record_location(
        Some("/docs/entry.md".to_string()),
        "x.md".to_string(),
        Err("No such file or directory (os error 2)".to_string()),
    );
    match DocDoc::stitch(Format::Markdown, &mut output, &store, "entry.md") {
        Progress::Finished(Err(Error::Io(description))) => {
            assert_eq!(description, "No such file or directory (os error 2)")
        }
        other => panic!("{:?}", other),
    }
    assert_eq!(output, "a \n");
}

#[test]
fn reference_is_located_from_the_document_that_holds_it() {
    let mut store = Store::new();
    entry_at(&mut store, "top.md", "/top.md");
    file(&mut store, "/top.md", &["#[docdoc:path=\"sub/mid.md\"]"]);
    link(&mut store, "/top.md", "sub/mid.md", "/sub/mid.md");
    file(&mut store, "/sub/mid.md", &["#[docdoc:path=\"leaf.md\"]"]);
    match stitched(&store, "top.md").1 {
        Progress::Blocked(Request::Locate { from: Some(from), reference }) => {
            assert_eq!(from, "/sub/mid.md");
            assert_eq!(reference, "leaf.md");
        }
        other => panic!("{:?}", other),
    }
}

#[test]
fn entry_that_cannot_be_found_is_an_io_error() {
    let mut store = Store::new();
    store.record_location(None, "gone.md".to_string(), Err("not found".to_string()));
    let (output, progress) = stitched(&store, "gone.md");
    match progress {
        Progress::Finished(Err(Error::Io(description))) => assert_eq!(description, "not found"),
        other => panic!("{:?}", other),
    }
    assert_eq!(output, "");
}

#[test]
fn file_that_cannot_be_opened_is_an_io_error() {
    let mut store = Store::new();
    entry_at(&mut store, "e.md", "/e.md");
    file(&mut store, "/e.md", &["head", "#[docdoc:path=\"locked.md\"]", "tail"]);
    link(&mut store, "/e.md", "locked.md", "/locked.md");
    store.record_document(
        "/locked.md".to_string(),
        &Vec::new(),
        Some("Permission denied (os error 13)".to_string()),
    );
    let (output, progress) = stitched(&store, "e.md");
    match progress {
        Progress::Finished(Err(Error::Io(description))) => {
            assert_eq!(description, "Permission denied (os error 13)")
        }
        other => panic!("{:?}", other),
    }
    assert_eq!(output, "head\n");
}

#[test]
fn reading_that_fails_midway_keeps_the_lines_before() {
    let mut store = Store::new();
    entry_at(&mut store, "e.md", "/e.md");
    store.record_document(
        "/e.md".to_string(),
        &lines(&["one", "two"]),
        Some("stream did not contain valid UTF-8".to_string()),
    );
    let (output, progress) = stitched(&store, "e.md");
    match progress {
        Progress::Finished(Err(Error::Io(description))) => {
            assert_eq!(description, "stream did not contain valid UTF-8")
        }
        other => panic!("{:?}", other),
    }
    assert_eq!(output, "one\ntwo\n");
}

#[test]
fn error_stops_the_walk_at_once() {
    let mut store = Store::new();
    entry_at(&mut store, "e.md", "/e.md");
    file(&mut store, "/e.md", &["#[docdoc:path=\"e.md\"]", "#[docdoc:path=\"never.md\"]"]);
    link(&mut store, "/e.md", "e.md", "/e.md");
    match stitched(&store, "e.md").1 {
        Progress::Finished(Err(Error::ImportCycle(path))) => assert_eq!(path, "/e.md"),
        other => panic!("{:?}", other),
    }
}

#[test]
fn later_answer_replaces_an_earlier_one() {
    let mut store = Store::new();
    entry_at(&mut store, "e.md", "/old.md");
    entry_at(&mut store, "e.md", "/new.md");
    file(&mut store, "/old.md", &["old"]);
    file(&mut store, "/new.md", &["stale"]);
    file(&mut store, "/new.md", &["new"]);
    assert_eq!(stitched(&store, "e.md").0, "new\n");
}

#[test]
fn document_can_be_recorded_as_segments() {
    let mut store = Store::new();
    entry_at(&mut store, "e.md", "/e.md");
    store.record_segments(
        "/e.md".to_string(),
        vec![
            Segment::Text("a".to_string()),
            Segment::IncludeRef("b".to_string()),
            Segment::Text("c".to_string()),
        ],
        None,
    );
    link(&mut store, "/e.md", "b", "/b");
    store.record_segments("/b".to_string(), vec![Segment::Text("#[docdoc:path=\"x\"]".to_string())], None);
    assert_eq!(stitched(&store, "e.md").0, "a\n#[docdoc:path=\"x\"]\nc\n");
}

#[test]
fn deep_chain_is_stitched() {
    let mut store = Store::new();
    entry_at(&mut store, "0.md", "/0.md");
    for depth in 0..200 {
        let here = format!("/{}.md", depth);
        let next = format!("{}.md", depth + 1);
        let head = format!("head {}", depth);
        let directive = format!("#[docdoc:path=\"{}\"]", next);
        file(&mut store, &here, &[head.as_str(), directive.as_str()]);
        link(&mut store, &here, &next, &format!("/{}", next));
    }
    file(&mut store, "/200.md", &["leaf"]);
    let (output, progress) = stitched(&store, "0.md");
    assert!(matches!(progress, Progress::Finished(Ok(()))));
    let mut expected = String::new();
    for depth in 0..200 {
        expected.push_str(&format!("head {}\n", depth));
    }
    expected.push_str("leaf\n");
    assert_eq!(output, expected);
}

#[test]
fn same_reference_in_two_documents_may_lead_to_two_files() {
    let mut store = Store::new();
    entry_at(&mut store, "top.md", "/top.md");
    file(&mut store, "/top.md", &["#[docdoc:path=\"part.md\"]", "#[docdoc:path=\"sub/index.md\"]"]);
    link(&mut store, "/top.md", "part.md", "/part.md");
    link(&mut store, "/top.md", "sub/index.md", "/sub/index.md");
    file(&mut store, "/part.md", &["top part"]);
    file(&mut store, "/sub/index.md", &["#[docdoc:path=\"part.md\"]"]);
    link(&mut store, "/sub/index.md", "part.md", "/sub/part.md");
    file(&mut store, "/sub/part.md", &["sub part"]);
    assert_eq!(stitched(&store, "top.md").0, "top part\nsub part\n");
}
