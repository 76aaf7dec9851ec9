use docdoc::error::Error;
use docdoc::{DocDoc, Format, Progress, Request, Store};

fn text_lines(text: &[&str]) -> Vec<String> {
    text.iter().map(|line| line.to_string()).collect()
}

fn sorted(mut paths: Vec<String>) -> Vec<String> {
    paths.sort();
    paths
}

fn diamond_store() -> Store {
    let mut store = Store::new();
    store.record_location(None, "a.md".to_string(), Ok("/d/a.md".to_string()));
    store.record_document(
        "/d/a.md".to_string(),
        &text_lines(&["#[docdoc:path=\"b.md\"] and #[docdoc:path=\"c.md\"]"]),
        None,
    );
    store.record_location(Some("/d/a.md".to_string()), "b.md".to_string(), Ok("/d/b.md".to_string()));
    store.record_location(Some("/d/a.md".to_string()), "c.md".to_string(), Ok("/d/c.md".to_string()));
    store.record_document("/d/b.md".to_string(), &text_lines(&["#[docdoc:path=\"d.md\"]"]), None);
    store.record_document("/d/c.md".to_string(), &text_lines(&["#[docdoc:path=\"d.md\"]"]), None);
    store.record_location(Some("/d/b.md".to_string()), "d.md".to_string(), Ok("/d/d.md".to_string()));
    store.record_location(Some("/d/c.md".to_string()), "d.md".to_string(), Ok("/d/d.md".to_string()));
    store.record_document("/d/d.md".to_string(), &text_lines(&["D"]), None);
    store
}

#[test]
fn diamond_lists_each_file_once() {
    let store = diamond_store();
    match DocDoc::list_imports(Format::Markdown, &store, "a.md") {
        Progress::Finished(Ok(paths)) => {
            assert_eq!(paths.len(), 4);
            assert_eq!(sorted(paths), vec!["/d/a.md", "/d/b.md", "/d/c.md", "/d/d.md"]);
        }
        other => panic!("{:?}", other),
    }
}

#[test]
fn entry_alone_is_listed() {
    let mut store = Store::new();
    store.record_location(None, "lone.md".to_string(), Ok("/lone.md".to_string()));
    store.record_document("/lone.md".to_string(), &text_lines(&["text"]), None);
    match DocDoc::list_imports(Format::Markdown, &store, "lone.md") {
        Progress::Finished(Ok(paths)) => assert_eq!(paths, vec!["/lone.md"]),
        other => panic!("{:?}", other),
    }
}

#[test]
fn empty_entry_is_listed() {
    let mut store = Store::new();
    store.record_location(None, "empty.md".to_string(), Ok("/empty.md".to_string()));
    store.record_document("/empty.md".to_string(), &Vec::new(), None);
    match DocDoc::list_imports(Format::Markdown, &store, "empty.md") {
        Progress::Finished(Ok(paths)) => assert_eq!(paths, vec!["/empty.md"]),
        other => panic!("{:?}", other),
    }
}

#[test]
fn listing_fails_on_a_cycle_as_stitching_does() {
    let mut store = Store::new();
    store.record_location(None, "a.md".to_string(), Ok("/a.md".to_string()));
    store.record_document(
        "/a.md".to_string(),
        &text_lines(&["#[docdoc:path=\"b.md\"]", "#[docdoc:path=\"c.md\"]"]),
        None,
    );
    store.record_location(Some("/a.md".to_string()), "b.md".to_string(), Ok("/b.md".to_string()));
    store.record_document("/b.md".to_string(), &text_lines(&["#[docdoc:path=\"a.md\"]"]), None);
    store.record_location(Some("/b.md".to_string()), "a.md".to_string(), Ok("/a.md".to_string()));
    let listed = DocDoc::list_imports(Format::Markdown, &store, "a.md");
    let mut output = String::new();
    let stitched = DocDoc::stitch(Format::Markdown, &mut output, &store, "a.md");
    match (listed, stitched) {
        (
            Progress::Finished(Err(Error::ImportCycle(listed))),
            Progress::Finished(Err(Error::ImportCycle(stitched))),
        ) => {
            assert_eq!(listed, "/a.md");
            assert_eq!(stitched, "/a.md");
        }
        other => panic!("{:?}", other),
    }
}

#[test]
fn listing_is_blocked_where_stitching_is() {
    let mut store = diamond_store();
    store.record_document("/d/d.md".to_string(), &text_lines(&["#[docdoc:path=\"e.md\"]"]), None);
    let mut output = String::new();
    match (
        DocDoc::list_imports(Format::Markdown, &store, "a.md"),
        DocDoc::stitch(Format::Markdown, &mut output, &store, "a.md"),
    ) {
        (
            Progress::Blocked(Request::Locate { from: Some(listed), reference: listed_reference }),
            Progress::Blocked(Request::Locate { from: Some(stitched), reference }),
        ) => {
            assert_eq!(listed, "/d/d.md");
            assert_eq!(stitched, "/d/d.md");
            assert_eq!(listed_reference, "e.md");
            assert_eq!(reference, "e.md");
        }
        other => panic!("{:?}", other),
    }
}

#[test]
fn listing_follows_a_directive_that_was_pointed_elsewhere() {
    let mut before = Store::new();
    before.record_location(None, "e.md".to_string(), Ok("/e.md".to_string()));
    before.record_document("/e.md".to_string(), &text_lines(&["#[docdoc:path=\"old.md\"]"]), None);
    before.record_location(Some("/e.md".to_string()), "old.md".to_string(), Ok("/old.md".to_string()));
    before.record_document("/old.md".to_string(), &text_lines(&["old"]), None);

    let mut after = Store::new();
    after.record_location(None, "e.md".to_string(), Ok("/e.md".to_string()));
    after.record_document("/e.md".to_string(), &text_lines(&["#[docdoc:path=\"new.md\"]"]), None);
    after.record_location(Some("/e.md".to_string()), "new.md".to_string(), Ok("/new.md".to_string()));
    after.record_document("/new.md".to_string(), &text_lines(&["new"]), None);

    match (
        DocDoc::list_imports(Format::Markdown, &before, "e.md"),
        DocDoc::list_imports(Format::Markdown, &after, "e.md"),
    ) {
        (Progress::Finished(Ok(first)), Progress::Finished(Ok(second))) => {
            assert_eq!(sorted(first), vec!["/e.md", "/old.md"]);
            assert_eq!(sorted(second), vec!["/e.md", "/new.md"]);
        }
        other => panic!("{:?}", other),
    }
}
