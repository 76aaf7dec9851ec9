use docdoc::error::Error;

#[test]
fn cycle_error_names_the_file() {
    let error = Error::ImportCycle("/docs/a.md".to_string());
    assert_eq!(error.message(), "File at /docs/a.md was imported multiple times");
}

#[test]
fn io_error_shows_its_description() {
    let error = Error::Io("No such file or directory (os error 2)".to_string());
    assert_eq!(error.message(), "IO Error: No such file or directory (os error 2)");
}
