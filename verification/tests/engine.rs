use hunter::cache::{DirCache, LoadJob, LoadOutcome};
use hunter::entry::{DirectoryEntry, EntryKind};
use hunter::listing::{LoadError, Status};
use hunter::nav::{EnterOutcome, NavEngine, Role};
use hunter::sort::sort_entries;

fn entry(name: &str, kind: EntryKind) -> DirectoryEntry {
    DirectoryEntry {
        name: name.as_bytes().to_vec(),
        kind,
        size: None,
        modified: None,
        permissions: 0,
        symlink_target: None,
    }
}

fn job_for<'a>(jobs: &'a [LoadJob], path: &[u8]) -> &'a LoadJob {
    jobs.iter().find(|j| j.path == path).expect("no load dispatched for path")
}

#[test]
fn generation_fencing_newer_result_wins_in_either_order() {
    // slow old load loses to a fresh one, whichever lands first
    let p = b"/tmp/x".to_vec();

    // B lands first, then A arrives late and is discarded
    let mut cache = DirCache::new(100);
    let (_, job_a) = cache.get_or_load(&p);
    let token_a = job_a.expect("first lookup must dispatch").token;
    let job_b = cache.invalidate(&p).expect("invalidate must dispatch");
    let token_b = job_b.token;
    assert!(token_a < token_b);
    assert!(cache.apply_result(&p, token_b, LoadOutcome::Entries(vec![entry("new", EntryKind::File)])));
    assert!(!cache.apply_result(&p, token_a, LoadOutcome::Entries(vec![entry("old", EntryKind::File)])));
    let l = cache.peek(&p).unwrap();
    assert_eq!(l.entries.len(), 1);
    assert_eq!(l.entries[0].name, b"new".to_vec());

    // A lands first but B was already dispatched, so A is discarded at once
    let mut cache = DirCache::new(100);
    let (_, job_a) = cache.get_or_load(&p);
    let token_a = job_a.unwrap().token;
    let token_b = cache.invalidate(&p).unwrap().token;
    assert!(!cache.apply_result(&p, token_a, LoadOutcome::Entries(vec![entry("old", EntryKind::File)])));
    assert!(cache.apply_result(&p, token_b, LoadOutcome::Entries(vec![entry("new", EntryKind::File)])));
    let l = cache.peek(&p).unwrap();
    assert_eq!(l.entries[0].name, b"new".to_vec());
}

#[test]
fn at_most_one_load_in_flight_per_path() {
    let p = b"/tmp/x".to_vec();
    let mut cache = DirCache::new(100);
    let (_, first) = cache.get_or_load(&p);
    assert!(first.is_some());
    // further lookups while Loading attach to the outstanding load
    for _ in 0..5 {
        let (snapshot, job) = cache.get_or_load(&p);
        assert!(job.is_none());
        assert!(matches!(snapshot.status, Status::Loading));
    }
}

#[test]
fn selection_follows_its_entry_name_across_reload() {
    let p = b"/tmp/x".to_vec();
    let mut cache = DirCache::new(100);
    let token = cache.get_or_load(&p).1.unwrap().token;
    assert!(cache.apply_result(&p, token, LoadOutcome::Entries(vec![
        entry("a", EntryKind::File),
        entry("b", EntryKind::File),
        entry("c", EntryKind::File),
    ])));
    assert!(cache.set_selected(&p, 1)); // "b"
    let token = cache.invalidate(&p).unwrap().token;
    assert!(cache.apply_result(&p, token, LoadOutcome::Entries(vec![
        entry("a", EntryKind::File),
        entry("b", EntryKind::File),
        entry("d", EntryKind::File),
    ])));
    let l = cache.peek(&p).unwrap();
    assert_eq!(l.selected_index, 1);
    assert_eq!(l.entries[l.selected_index].name, b"b".to_vec());
}

#[test]
fn selection_clamps_when_its_entry_disappears() {
    let p = b"/tmp/x".to_vec();
    let mut cache = DirCache::new(100);
    let token = cache.get_or_load(&p).1.unwrap().token;
    assert!(cache.apply_result(&p, token, LoadOutcome::Entries(vec![
        entry("a", EntryKind::File),
        entry("b", EntryKind::File),
        entry("c", EntryKind::File),
    ])));
    assert!(cache.set_selected(&p, 1)); // "b"
    let token = cache.invalidate(&p).unwrap().token;
    assert!(cache.apply_result(&p, token, LoadOutcome::Entries(vec![
        entry("a", EntryKind::File),
        entry("c", EntryKind::File),
    ])));
    let l = cache.peek(&p).unwrap();
    assert_eq!(l.selected_index, 1); // still in bounds
    // and when the listing shrinks past the cursor, it clamps to the end
    assert!(cache.set_selected(&p, 1));
    let token = cache.invalidate(&p).unwrap().token;
    assert!(cache.apply_result(&p, token, LoadOutcome::Entries(vec![entry("z", EntryKind::File)])));
    let l = cache.peek(&p).unwrap();
    assert_eq!(l.selected_index, 0);
}

#[test]
fn invalidate_marks_stale_and_dispatches_one_refresh() {
    let p = b"/tmp/x".to_vec();
    let mut cache = DirCache::new(100);
    let token = cache.get_or_load(&p).1.unwrap().token;
    assert!(cache.apply_result(&p, token, LoadOutcome::Entries(vec![entry("a", EntryKind::File)])));
    assert!(matches!(cache.peek(&p).unwrap().status, Status::Ready));

    let refresh = cache.invalidate(&p);
    assert!(refresh.is_some());
    let l = cache.peek(&p).unwrap();
    assert!(matches!(l.status, Status::Stale));
    // the old entries are still visible while the refresh runs
    assert_eq!(l.entries.len(), 1);
    assert_eq!(l.entries[0].name, b"a".to_vec());
    // and no second refresh is dispatched by a mere lookup
    let (_, job) = cache.get_or_load(&p);
    assert!(job.is_none());
}

#[test]
fn invalidating_an_unknown_path_is_a_no_op() {
    let mut cache = DirCache::new(100);
    assert!(cache.invalidate(&b"/nowhere".to_vec()).is_none());
}

#[test]
fn a_late_result_for_a_left_directory_fills_the_cache_not_the_view() {
    let x = b"/tmp/x".to_vec();
    let y = b"/tmp/y".to_vec();
    let (mut engine, jobs_x) = NavEngine::new(&x, false, 100, 16);
    let token_x = job_for(&jobs_x, &x).token;

    // the user moves on before the first load completes
    let (ok, _jobs_y) = engine.focus(&y);
    assert!(ok);

    // the old load completes now: it may populate the cache...
    assert!(engine.apply_result(&x, token_x, LoadOutcome::Entries(vec![entry("a", EntryKind::File)])));
    assert!(matches!(engine.cache.peek(&x).unwrap().status, Status::Ready));

    // ...but what is displayed is still /tmp/y
    let snapshot = engine.current_snapshot();
    let current = snapshot.iter().find(|c| matches!(c.role, Role::Current)).unwrap();
    assert_eq!(current.path, y);
    assert!(current.entries.is_empty());
}

#[test]
fn enter_descends_into_a_directory_and_up_returns() {
    let x = b"/tmp/x".to_vec();
    let (mut engine, jobs) = NavEngine::new(&x, false, 100, 16);
    let token = job_for(&jobs, &x).token;
    assert!(engine.apply_result(&x, token, LoadOutcome::Entries(sort_entries(vec![
        entry("sub", EntryKind::Directory),
        entry("note", EntryKind::File),
    ]))));

    // the sorted listing puts the directory first; the cursor sits on it
    let (outcome, _) = engine.enter();
    assert!(matches!(outcome, EnterOutcome::Entered));
    let snapshot = engine.current_snapshot();
    let current = snapshot.iter().find(|c| matches!(c.role, Role::Current)).unwrap();
    assert_eq!(current.path, b"/tmp/x/sub".to_vec());

    let (ok, _) = engine.up();
    assert!(ok);
    let snapshot = engine.current_snapshot();
    let current = snapshot.iter().find(|c| matches!(c.role, Role::Current)).unwrap();
    assert_eq!(current.path, x);
    // the parent's recorded selection is restored with its listing
    assert_eq!(current.selected_name.as_deref(), Some(b"sub".as_slice()));
}

#[test]
fn entering_a_file_hands_it_to_an_opener() {
    let x = b"/tmp/x".to_vec();
    let (mut engine, jobs) = NavEngine::new(&x, false, 100, 16);
    let token = job_for(&jobs, &x).token;
    assert!(engine.apply_result(&x, token, LoadOutcome::Entries(vec![entry("note", EntryKind::File)])));
    let (outcome, jobs) = engine.enter();
    assert!(jobs.is_empty());
    match outcome {
        EnterOutcome::OpenFile(p) => assert_eq!(p, b"/tmp/x/note".to_vec()),
        other => panic!("expected OpenFile, got {:?}", outcome_name(&other)),
    }
}

fn outcome_name(o: &EnterOutcome) -> &'static str {
    match o {
        EnterOutcome::Entered => "Entered",
        EnterOutcome::OpenFile(_) => "OpenFile",
        EnterOutcome::Refused => "Refused",
        EnterOutcome::NotReady => "NotReady",
    }
}

#[test]
fn navigation_into_a_failed_directory_is_refused() {
    let x = b"/tmp/x".to_vec();
    let bad = b"/tmp/x/bad".to_vec();
    let (mut engine, jobs) = NavEngine::new(&x, false, 100, 16);
    let token = job_for(&jobs, &x).token;
    assert!(engine.apply_result(&x, token, LoadOutcome::Entries(vec![entry("bad", EntryKind::Directory)])));
    // the eager preview has requested the child; fail that load
    let snapshot_jobs = engine.move_selection(0);
    let bad_token = job_for(&snapshot_jobs, &bad).token;
    assert!(engine.apply_result(&bad, bad_token, LoadOutcome::Failure(LoadError::PermissionDenied)));

    let (outcome, _) = engine.enter();
    assert!(matches!(outcome, EnterOutcome::Refused));
    // the focus did not move
    let snapshot = engine.current_snapshot();
    let current = snapshot.iter().find(|c| matches!(c.role, Role::Current)).unwrap();
    assert_eq!(current.path, x);
}

#[test]
fn move_selection_clamps_and_previews_directories() {
    let x = b"/tmp/x".to_vec();
    let (mut engine, jobs) = NavEngine::new(&x, false, 100, 16);
    let token = job_for(&jobs, &x).token;
    assert!(engine.apply_result(&x, token, LoadOutcome::Entries(sort_entries(vec![
        entry("dir", EntryKind::Directory),
        entry("a", EntryKind::File),
        entry("b", EntryKind::File),
    ]))));
    // listing is [dir, a, b]; cursor starts at 0
    engine.move_selection(10); // clamps to the end
    let snapshot = engine.current_snapshot();
    let current = snapshot.iter().find(|c| matches!(c.role, Role::Current)).unwrap();
    assert_eq!(current.selected_name.as_deref(), Some(b"b".as_slice()));
    engine.move_selection(-10); // clamps to the start, which is a directory
    let snapshot = engine.current_snapshot();
    let current = snapshot.iter().find(|c| matches!(c.role, Role::Current)).unwrap();
    assert_eq!(current.selected_name.as_deref(), Some(b"dir".as_slice()));
    let preview = snapshot.iter().find(|c| matches!(c.role, Role::Preview)).unwrap();
    assert_eq!(preview.path, b"/tmp/x/dir".to_vec());
}

#[test]
fn eviction_keeps_displayed_paths_and_drops_the_least_recent() {
    let mut cache = DirCache::new(1);
    let x = b"/x".to_vec();
    let y = b"/y".to_vec();
    let z = b"/z".to_vec();
    cache.get_or_load(&x);
    cache.get_or_load(&y);
    cache.get_or_load(&z);
    cache.evict_if_needed(&vec![z.clone()]);
    assert!(cache.peek(&x).is_none());
    assert!(cache.peek(&y).is_none());
    assert!(cache.peek(&z).is_some());

    // a protected slot survives even over capacity
    let mut cache = DirCache::new(1);
    cache.get_or_load(&x);
    cache.get_or_load(&y);
    cache.get_or_load(&z);
    cache.evict_if_needed(&vec![x.clone()]);
    assert!(cache.peek(&x).is_some());
    assert_eq!(
        [&y, &z].iter().filter(|p| cache.peek(p).is_some()).count(),
        0
    );
}

#[test]
fn up_moves_to_the_parent_and_requests_its_load() {
    let x = b"/tmp/x".to_vec();
    let (mut engine, _) = NavEngine::new(&x, false, 100, 16);
    let (ok, jobs) = engine.up();
    assert!(ok);
    // /tmp was already requested as an ancestor column, so going up
    // attaches to that load instead of dispatching another
    assert!(jobs.iter().all(|j| j.path != b"/tmp".to_vec()));
    let snapshot = engine.current_snapshot();
    let current = snapshot.iter().find(|c| matches!(c.role, Role::Current)).unwrap();
    assert_eq!(current.path, b"/tmp".to_vec());
}

#[test]
fn engine_eviction_spares_every_displayed_column() {
    let x = b"/tmp/x".to_vec();
    let (mut engine, _) = NavEngine::new(&x, false, 1, 16);
    // cache holds /, /tmp, /tmp/x with capacity 1; all three are displayed
    engine.evict_if_needed();
    assert!(engine.cache.peek(&b"/".to_vec()).is_some());
    assert!(engine.cache.peek(&b"/tmp".to_vec()).is_some());
    assert!(engine.cache.peek(&x).is_some());
    // an undisplayed path goes first once capacity is exceeded
    engine.cache.get_or_load(&b"/var".to_vec());
    engine.evict_if_needed();
    assert!(engine.cache.peek(&b"/var".to_vec()).is_none());
    assert!(engine.cache.peek(&x).is_some());
}
