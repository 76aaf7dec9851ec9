use docdoc::Format;

#[test]
fn markdown_is_detected_by_its_extension() {
    assert_eq!(Format::detect("notes.md"), Some(Format::Markdown));
    assert_eq!(Format::detect("/docs/book/chapter.one.md"), Some(Format::Markdown));
    assert_eq!(Format::detect("relative/dir/readme.md"), Some(Format::Markdown));
}

#[test]
fn other_extensions_are_not_detected() {
    assert_eq!(Format::detect("notes.txt"), None);
    assert_eq!(Format::detect("notes.MD"), None);
    assert_eq!(Format::detect("notes.md.bak"), None);
    assert_eq!(Format::detect("notes.mdx"), None);
}

#[test]
fn path_without_extension_is_not_detected() {
    assert_eq!(Format::detect("notes"), None);
    assert_eq!(Format::detect(".md"), None);
    assert_eq!(Format::detect("dir.md/notes"), None);
    assert_eq!(Format::detect(""), None);
    assert_eq!(Format::detect("notes."), None);
}

#[test]
fn md_names_markdown() {
    assert_eq!(Format::from_extension("md"), Some(Format::Markdown));
    assert_eq!(Format::from_extension("markdown"), None);
    assert_eq!(Format::from_extension(""), None);
    assert_eq!(Format::from_extension("m"), None);
}
