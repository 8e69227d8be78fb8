use hunter::cache::LoadOutcome;
use hunter::entry::{DirectoryEntry, EntryKind};
use hunter::listing::{remap_selection, visible_entries, LoadError, Status};
use hunter::nav::{NavEngine, Role};
use hunter::path::{child_path, is_root, name_ok, parent_path};
use hunter::sort::sort_entries;
use hunter::status::{show_status, status_indicator, StatusBar};

fn entry(name: &str, kind: EntryKind) -> DirectoryEntry {
    DirectoryEntry {
        name: name.as_bytes().to_vec(),
        kind,
        size: None,
        modified: None,
        permissions: 0,
        symlink_target: None,
    }
}

fn names(v: &Vec<DirectoryEntry>) -> Vec<String> {
    v.iter().map(|e| String::from_utf8(e.name.clone()).unwrap()).collect()
}

#[test]
fn focusing_a_directory_renders_it_sorted_and_unhidden() {
    // an empty cache, a focus on /tmp/x holding {a.txt, B, .hidden}
    let x = b"/tmp/x".to_vec();
    let (mut engine, jobs) = NavEngine::new(&x, false, 100, 16);
    let token = jobs.iter().find(|j| j.path == x).unwrap().token;
    let loaded = sort_entries(vec![
        entry("a.txt", EntryKind::File),
        entry("B", EntryKind::Directory),
        entry(".hidden", EntryKind::File),
    ]);
    assert!(engine.apply_result(&x, token, LoadOutcome::Entries(loaded)));

    let snapshot = engine.current_snapshot();
    let current = snapshot.iter().find(|c| matches!(c.role, Role::Current)).unwrap();
    assert_eq!(names(&current.entries), vec!["B", "a.txt"]);
    let shown_generation = current.generation;

    // showing hidden entries re-derives the view of the same listing:
    // no reload, same generation, the hidden entry appears in order
    engine.set_show_hidden(true);
    let snapshot = engine.current_snapshot();
    let current = snapshot.iter().find(|c| matches!(c.role, Role::Current)).unwrap();
    assert_eq!(names(&current.entries), vec!["B", ".hidden", "a.txt"]);
    assert_eq!(current.generation, shown_generation);
}

#[test]
fn hidden_filter_is_a_pure_view_of_the_listing() {
    let all = sort_entries(vec![
        entry(".git", EntryKind::Directory),
        entry("src", EntryKind::Directory),
        entry(".env", EntryKind::File),
        entry("readme", EntryKind::File),
    ]);
    assert_eq!(names(&visible_entries(&all, false)), vec!["src", "readme"]);
    assert_eq!(names(&visible_entries(&all, true)), vec![".git", "src", ".env", "readme"]);
}

#[test]
fn reversed_order_is_a_pure_view_too() {
    let x = b"/tmp/x".to_vec();
    let (mut engine, jobs) = NavEngine::new(&x, false, 100, 16);
    let token = jobs.iter().find(|j| j.path == x).unwrap().token;
    assert!(engine.apply_result(&x, token, LoadOutcome::Entries(sort_entries(vec![
        entry("a", EntryKind::File),
        entry("b", EntryKind::File),
    ]))));
    engine.set_sort_reversed(true);
    let snapshot = engine.current_snapshot();
    let current = snapshot.iter().find(|c| matches!(c.role, Role::Current)).unwrap();
    assert_eq!(names(&current.entries), vec!["b", "a"]);
}

#[test]
fn remap_prefers_the_name_then_the_old_index_then_the_end() {
    let olds = vec![
        entry("a", EntryKind::File),
        entry("b", EntryKind::File),
        entry("c", EntryKind::File),
    ];
    let with_b = vec![
        entry("a", EntryKind::File),
        entry("b", EntryKind::File),
        entry("d", EntryKind::File),
    ];
    assert_eq!(remap_selection(&olds, 1, &with_b), 1);
    let without_b = vec![entry("a", EntryKind::File), entry("c", EntryKind::File)];
    assert_eq!(remap_selection(&olds, 1, &without_b), 1);
    let shrunk = vec![entry("z", EntryKind::File)];
    assert_eq!(remap_selection(&olds, 2, &shrunk), 0);
    let empty: Vec<DirectoryEntry> = Vec::new();
    assert_eq!(remap_selection(&olds, 2, &empty), 0);
}

#[test]
fn parents_and_children_round_trip() {
    assert_eq!(parent_path(&b"/tmp/x".to_vec()), b"/tmp".to_vec());
    assert_eq!(parent_path(&b"/tmp".to_vec()), b"/".to_vec());
    assert!(is_root(&b"/".to_vec()));
    assert!(!is_root(&b"/tmp".to_vec()));
    assert_eq!(child_path(&b"/".to_vec(), &b"tmp".to_vec()), b"/tmp".to_vec());
    assert_eq!(child_path(&b"/tmp".to_vec(), &b"x".to_vec()), b"/tmp/x".to_vec());
    assert_eq!(parent_path(&child_path(&b"/tmp".to_vec(), &b"x".to_vec())), b"/tmp".to_vec());
    assert!(name_ok(&b"plain".to_vec()));
    assert!(!name_ok(&b"".to_vec()));
    assert!(!name_ok(&b"a/b".to_vec()));
}

#[test]
fn the_status_line_holds_the_last_message() {
    let mut bar = StatusBar::new();
    assert!(bar.content.is_none());
    show_status(&mut bar, "copying 3 files");
    assert_eq!(bar.content.as_deref(), Some("copying 3 files"));
    show_status(&mut bar, "done");
    assert_eq!(bar.content.as_deref(), Some("done"));
    bar.clear();
    assert!(bar.content.is_none());
}

#[test]
fn each_load_state_has_its_indicator() {
    assert_eq!(status_indicator(&Status::Ready), None);
    assert_eq!(status_indicator(&Status::Loading), Some("loading"));
    assert_eq!(status_indicator(&Status::Stale), Some("refreshing"));
    assert_eq!(status_indicator(&Status::Failed(LoadError::NotFound)), Some("not found"));
    assert_eq!(
        status_indicator(&Status::Failed(LoadError::PermissionDenied)),
        Some("permission denied")
    );
    assert_eq!(
        status_indicator(&Status::Failed(LoadError::NotADirectory)),
        Some("not a directory")
    );
    assert_eq!(
        status_indicator(&Status::Failed(LoadError::IoError(b"timeout".to_vec()))),
        Some("read error")
    );
}

#[test]
fn the_column_stack_walks_the_ancestor_chain() {
    let x = b"/usr/share/doc".to_vec();
    let (engine, _) = NavEngine::new(&x, false, 100, 16);
    let snapshot = engine.current_snapshot();
    let paths: Vec<Vec<u8>> = snapshot.iter().map(|c| c.path.clone()).collect();
    assert_eq!(
        paths,
        vec![b"/".to_vec(), b"/usr".to_vec(), b"/usr/share".to_vec(), b"/usr/share/doc".to_vec()]
    );
    assert!(matches!(snapshot[0].role, Role::Ancestor));
    assert!(matches!(snapshot[1].role, Role::Ancestor));
    assert!(matches!(snapshot[2].role, Role::Ancestor));
    assert!(matches!(snapshot[3].role, Role::Current));
    // nothing is loaded yet, so every column reports Loading
    assert!(snapshot.iter().all(|c| matches!(c.status, Status::Loading)));
}
