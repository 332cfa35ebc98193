use datara::listing::{entry_from_metadata, scan, DirectoryEntry, EntryKind};

fn file(name: &str) -> DirectoryEntry {
    DirectoryEntry { name: name.to_string(), kind: EntryKind::File, size: Some(1), modified: None }
}

fn dir(name: &str) -> DirectoryEntry {
    DirectoryEntry { name: name.to_string(), kind: EntryKind::Directory, size: None, modified: None }
}

fn names(entries: &[DirectoryEntry]) -> Vec<String> {
    entries.iter().map(|e| e.name.clone()).collect()
}

#[test]
fn folder_first_then_case_insensitive_names() {
    let raw = vec![file("b.txt"), dir("A"), file(".hidden"), file("a.txt")];
    let listing = scan(raw, false);
    assert_eq!(names(&listing), vec!["A", "a.txt", "b.txt"]);
}

#[test]
fn directories_precede_files_with_mixed_case() {
    let raw = vec![dir("zeta"), file("Alpha"), dir("beta"), file("Gamma")];
    let listing = scan(raw, false);
    assert_eq!(names(&listing), vec!["beta", "zeta", "Alpha", "Gamma"]);
}

#[test]
fn hidden_entries_kept_when_toggled_on() {
    let raw = vec![file("b.txt"), dir("A"), file(".hidden"), file("a.txt")];
    let listing = scan(raw, true);
    assert_eq!(names(&listing), vec!["A", ".hidden", "a.txt", "b.txt"]);
}

fn dotted_sample() -> Vec<DirectoryEntry> {
    vec![file(".a"), dir(".b"), file("c"), dir("d"), file(".e")]
}

#[test]
fn hidden_off_never_shows_dot_names_and_on_is_superset() {
    let off = scan(dotted_sample(), false);
    let on = scan(dotted_sample(), true);
    for e in &off {
        assert!(!e.name.starts_with('.'));
        assert!(on.iter().any(|x| x.name == e.name && x.kind == e.kind));
    }
    assert_eq!(off.len(), 2);
    assert_eq!(on.len(), 5);
}

#[test]
fn empty_directory_scans_empty() {
    let listing = scan(Vec::new(), false);
    assert!(listing.is_empty());
}

#[test]
fn metadata_failure_defaults_to_file_with_unknown_fields() {
    let e = entry_from_metadata("broken".to_string(), None);
    assert_eq!(e.name, "broken");
    assert_eq!(e.kind, EntryKind::File);
    assert_eq!(e.size, None);
    assert_eq!(e.modified, None);
}

#[test]
fn directory_metadata_carries_no_size() {
    let e = entry_from_metadata("folder".to_string(), Some((true, 4096, Some(1700000000))));
    assert_eq!(e.kind, EntryKind::Directory);
    assert_eq!(e.size, None);
    assert_eq!(e.modified, Some(1700000000));
}

#[test]
fn file_metadata_carries_size_and_date() {
    let e = entry_from_metadata("notes.txt".to_string(), Some((false, 123, Some(5))));
    assert_eq!(e.kind, EntryKind::File);
    assert_eq!(e.size, Some(123));
    assert_eq!(e.modified, Some(5));
}
