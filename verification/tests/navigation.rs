use datara::listing::{DirectoryEntry, EntryKind};
use datara::nav::{activation_of, child_path, parent_of, Activation, Browser, ScanError};

fn ok() -> Result<Vec<DirectoryEntry>, ScanError> {
    Ok(Vec::new())
}

fn err(msg: &str) -> Result<Vec<DirectoryEntry>, ScanError> {
    Err(ScanError { message: msg.to_string() })
}

#[test]
fn navigate_and_up_tracks_history() {
    let mut b = Browser::new("/a/b".to_string(), ok());
    assert_eq!(b.location, "/a/b");
    assert!(b.back.is_empty());
    assert!(b.forward.is_empty());

    b.navigate_to("/a/b/c".to_string(), true, ok());
    assert_eq!(b.location, "/a/b/c");
    assert_eq!(b.back, vec!["/a/b".to_string()]);
    assert!(b.forward.is_empty());

    b.navigate_up(ok());
    assert_eq!(b.location, "/a/b");
    assert_eq!(b.back, vec!["/a/b".to_string(), "/a/b/c".to_string()]);
    assert!(b.forward.is_empty());
}

#[test]
fn history_symmetry_two_steps() {
    let mut b = Browser::new("/one".to_string(), ok());
    b.navigate_to("/two".to_string(), true, ok());
    b.navigate_to("/three".to_string(), true, ok());
    b.navigate_to("/four".to_string(), true, ok());
    let loc_before = b.location.clone();
    let back_depth = b.back.len();
    let fwd_depth = b.forward.len();

    b.navigate_back(ok());
    b.navigate_back(ok());
    b.navigate_forward(ok());
    b.navigate_forward(ok());

    assert_eq!(b.location, loc_before);
    assert_eq!(b.back.len(), back_depth);
    assert_eq!(b.forward.len(), fwd_depth);
    assert_eq!(b.back, vec!["/one".to_string(), "/two".to_string(), "/three".to_string()]);
}

#[test]
fn forward_cleared_by_fresh_navigation() {
    let mut b = Browser::new("/one".to_string(), ok());
    b.navigate_to("/two".to_string(), true, ok());
    b.navigate_back(ok());
    assert_eq!(b.forward, vec!["/two".to_string()]);

    b.navigate_to("/branch".to_string(), true, ok());
    assert!(b.forward.is_empty());
    assert_eq!(b.back, vec!["/one".to_string()]);
}

#[test]
fn back_is_noop_without_history() {
    let mut b = Browser::new("/top".to_string(), ok());
    b.navigate_back(ok());
    assert_eq!(b.location, "/top");
    assert!(b.back.is_empty());
    assert!(b.forward.is_empty());
    assert!(b.last_error.is_none());
}

#[test]
fn forward_is_noop_without_future() {
    let mut b = Browser::new("/top".to_string(), ok());
    b.navigate_forward(ok());
    assert_eq!(b.location, "/top");
    assert!(b.back.is_empty());
    assert!(b.forward.is_empty());
}

#[test]
fn failed_scan_rolls_back_navigation() {
    let mut b = Browser::new("/home".to_string(), ok());
    b.navigate_to("/gone".to_string(), true, err("permission denied"));
    assert_eq!(b.location, "/home");
    assert!(b.back.is_empty());
    assert!(b.forward.is_empty());
    assert_eq!(b.last_error, Some("permission denied".to_string()));
}

#[test]
fn failed_scan_rolls_back_back_step() {
    let mut b = Browser::new("/one".to_string(), ok());
    b.navigate_to("/two".to_string(), true, ok());
    b.navigate_back(err("vanished"));
    assert_eq!(b.location, "/two");
    assert_eq!(b.back, vec!["/one".to_string()]);
    assert!(b.forward.is_empty());
    assert_eq!(b.last_error, Some("vanished".to_string()));
}

#[test]
fn up_is_noop_at_root() {
    let mut b = Browser::new("/".to_string(), ok());
    b.navigate_up(ok());
    assert_eq!(b.location, "/");
    assert!(b.back.is_empty());
}

#[test]
fn failed_start_scan_keeps_error_and_empty_listing() {
    let b = Browser::new("/nowhere".to_string(), err("not a directory"));
    assert_eq!(b.location, "/nowhere");
    assert!(b.listing.is_empty());
    assert_eq!(b.last_error, Some("not a directory".to_string()));
}

#[test]
fn targets_peek_at_the_stacks() {
    let mut b = Browser::new("/one".to_string(), ok());
    assert_eq!(b.back_target(), None);
    assert_eq!(b.forward_target(), None);
    b.navigate_to("/two".to_string(), true, ok());
    assert_eq!(b.back_target(), Some("/one".to_string()));
    b.navigate_back(ok());
    assert_eq!(b.forward_target(), Some("/two".to_string()));
}

#[test]
fn clicks_enter_directories_and_request_opens_for_files() {
    let d = DirectoryEntry {
        name: "docs".to_string(),
        kind: EntryKind::Directory,
        size: None,
        modified: None,
    };
    let f = DirectoryEntry {
        name: "a.txt".to_string(),
        kind: EntryKind::File,
        size: Some(1),
        modified: None,
    };
    assert_eq!(activation_of(&d), Activation::Navigate);
    assert_eq!(activation_of(&f), Activation::Open);
}

#[test]
fn child_paths_join_with_one_slash() {
    assert_eq!(child_path("/a/b", "c"), "/a/b/c");
    assert_eq!(child_path("/", "c"), "/c");
    assert_eq!(child_path("", "c"), "/c");
}

#[test]
fn parent_of_paths() {
    assert_eq!(parent_of("/a/b"), Some("/a".to_string()));
    assert_eq!(parent_of("/a"), Some("/".to_string()));
    assert_eq!(parent_of("/"), None);
    assert_eq!(parent_of("name"), None);
    assert_eq!(parent_of(""), None);
    assert_eq!(parent_of("/a/b/c"), Some("/a/b".to_string()));
}
