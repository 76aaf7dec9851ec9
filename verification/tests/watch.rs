use docdoc::error::Error;
use docdoc::watch::{calls_for_run, reset_watcher, ChangeKind};

fn paths(texts: &[&str]) -> Vec<String> {
    texts.iter().map(|text| text.to_string()).collect()
}

#[test]
fn settled_change_calls_for_a_run() {
    assert!(calls_for_run(&vec![ChangeKind::Any]));
    assert!(calls_for_run(&vec![ChangeKind::AnyContinuous, ChangeKind::Any]));
    assert!(calls_for_run(&vec![ChangeKind::Any, ChangeKind::AnyContinuous]));
}

#[test]
fn continuing_changes_call_for_no_run() {
    assert!(!calls_for_run(&vec![]));
    assert!(!calls_for_run(&vec![ChangeKind::AnyContinuous]));
    assert!(!calls_for_run(&vec![ChangeKind::AnyContinuous, ChangeKind::AnyContinuous]));
}

#[test]
fn first_listing_subscribes_everything() {
    let mut subscribed = Vec::new();
    let dropped = reset_watcher(&mut subscribed, Ok(paths(&["/e.md", "/a.md"])));
    assert_eq!(dropped.unwrap(), Vec::<String>::new());
    assert_eq!(subscribed, paths(&["/e.md", "/a.md"]));
}

#[test]
fn retargeted_directive_moves_the_subscription() {
    let mut subscribed = paths(&["/e.md", "/old.md"]);
    let dropped = reset_watcher(&mut subscribed, Ok(paths(&["/e.md", "/new.md"])));
    assert_eq!(dropped.unwrap(), paths(&["/e.md", "/old.md"]));
    assert_eq!(subscribed, paths(&["/e.md", "/new.md"]));
    assert!(!subscribed.contains(&"/old.md".to_string()));
    assert!(subscribed.contains(&"/new.md".to_string()));
}

#[test]
fn failed_listing_keeps_the_subscriptions() {
    let mut subscribed = paths(&["/e.md", "/a.md"]);
    let dropped = reset_watcher(&mut subscribed, Err(Error::ImportCycle("/e.md".to_string())));
    match dropped {
        Err(Error::ImportCycle(path)) => assert_eq!(path, "/e.md"),
        other => panic!("{:?}", other),
    }
    assert_eq!(subscribed, paths(&["/e.md", "/a.md"]));
}
