use hunter::entry::{DirectoryEntry, EntryKind};
use hunter::sort::sort_entries;

fn entry(name: &str, kind: EntryKind) -> DirectoryEntry {
    DirectoryEntry {
        name: name.as_bytes().to_vec(),
        kind,
        size: None,
        modified: None,
        permissions: 0,
        symlink_target: None,
    }
}

fn names(v: &Vec<DirectoryEntry>) -> Vec<String> {
    v.iter().map(|e| String::from_utf8(e.name.clone()).unwrap()).collect()
}

#[test]
fn directories_come_first() {
    let sorted = sort_entries(vec![
        entry("a.txt", EntryKind::File),
        entry("B", EntryKind::Directory),
    ]);
    assert_eq!(names(&sorted), vec!["B", "a.txt"]);
}

#[test]
fn names_compare_case_insensitively() {
    let sorted = sort_entries(vec![
        entry("b.txt", EntryKind::File),
        entry("A.txt", EntryKind::File),
        entry("C.txt", EntryKind::File),
    ]);
    assert_eq!(names(&sorted), vec!["A.txt", "b.txt", "C.txt"]);
}

#[test]
fn equal_folded_names_break_ties_on_raw_bytes() {
    let sorted = sort_entries(vec![
        entry("readme", EntryKind::File),
        entry("README", EntryKind::File),
        entry("ReadMe", EntryKind::File),
    ]);
    // upper-case bytes are smaller, so the most-capitalised spelling wins
    assert_eq!(names(&sorted), vec!["README", "ReadMe", "readme"]);
}

#[test]
fn same_contents_sort_identically_whatever_the_arrival_order() {
    let a = sort_entries(vec![
        entry("zeta", EntryKind::File),
        entry("Alpha", EntryKind::Directory),
        entry(".config", EntryKind::Directory),
        entry("beta", EntryKind::File),
        entry("Beta", EntryKind::Symlink),
    ]);
    let b = sort_entries(vec![
        entry("beta", EntryKind::File),
        entry("Beta", EntryKind::Symlink),
        entry("zeta", EntryKind::File),
        entry(".config", EntryKind::Directory),
        entry("Alpha", EntryKind::Directory),
    ]);
    assert_eq!(names(&a), names(&b));
    assert_eq!(names(&a), vec![".config", "Alpha", "Beta", "beta", "zeta"]);
}

#[test]
fn sorting_nothing_is_nothing() {
    let sorted = sort_entries(Vec::new());
    assert!(sorted.is_empty());
}

#[test]
fn one_entry_stays_put() {
    let sorted = sort_entries(vec![entry("only", EntryKind::File)]);
    assert_eq!(names(&sorted), vec!["only"]);
}

#[test]
fn unknown_kind_sorts_with_the_files() {
    let sorted = sort_entries(vec![
        entry("b", EntryKind::Unknown),
        entry("a", EntryKind::Directory),
        entry("c", EntryKind::Directory),
    ]);
    assert_eq!(names(&sorted), vec!["a", "c", "b"]);
}

#[test]
fn degraded_entries_keep_their_name_only() {
    let e = DirectoryEntry::degraded(b"broken".to_vec());
    assert_eq!(e.name, b"broken".to_vec());
    assert_eq!(e.kind, EntryKind::Unknown);
    assert!(e.size.is_none());
    assert!(e.modified.is_none());
    assert!(e.symlink_target.is_none());
}

#[test]
fn hidden_follows_the_dot_convention() {
    assert!(entry(".profile", EntryKind::File).is_hidden());
    assert!(!entry("profile", EntryKind::File).is_hidden());
    assert!(!DirectoryEntry::degraded(Vec::new()).is_hidden());
}
