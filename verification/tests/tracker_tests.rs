use incremental_agent::tracker::ChangeTracker;
use incremental_agent::tracker::EventKind;
use incremental_agent::tracker::FileSystemChangeStats;
use incremental_agent::tracker::FileSystemChanges;
use incremental_agent::tracker::ReturnVal;
use incremental_agent::tracker::ServerNewChangesResponse;
use incremental_agent::tracker::ServerRemoveChangesResponse;
use incremental_agent::tracker::ServerState;
use incremental_agent::tracker::ServerStats;

fn path(s: &str) -> Vec<u8> {
    s.as_bytes().to_vec()
}

fn apply(t: &mut ChangeTracker, kind: EventKind, paths: &[&str]) {
    let ps: Vec<Vec<u8>> = paths.iter().map(|s| path(s)).collect();
    t.apply_event(kind, ps);
}

/// The `(new, removed)` sizes, or `None` in a sentinel state.
fn counts(t: &ChangeTracker) -> Option<(usize, usize)> {
    match t.stats() {
        ServerStats::Tracking(c) => Some((c.new, c.removed)),
        _ => None,
    }
}

fn drain_new_page(t: &mut ChangeTracker, size: usize) -> ReturnVal {
    match t.drain_new(size) {
        ServerNewChangesResponse::New(rv) => rv,
        other => panic!("expected a page, got {:?}", other),
    }
}

fn drain_removed_page(t: &mut ChangeTracker, size: usize) -> ReturnVal {
    match t.drain_removed(size) {
        ServerRemoveChangesResponse::Removed(rv) => rv,
        other => panic!("expected a page, got {:?}", other),
    }
}

/// Drains the whole `new` set, page by page, and returns it sorted.
fn drain_new_fully(t: &mut ChangeTracker) -> Vec<Vec<u8>> {
    let mut all: Vec<Vec<u8>> = Vec::new();
    loop {
        let rv = drain_new_page(t, 1000);
        all.extend(rv.paths);
        if rv.done {
            break;
        }
    }
    all.sort();
    all
}

fn drain_removed_fully(t: &mut ChangeTracker) -> Vec<Vec<u8>> {
    let mut all: Vec<Vec<u8>> = Vec::new();
    loop {
        let rv = drain_removed_page(t, 1000);
        all.extend(rv.paths);
        if rv.done {
            break;
        }
    }
    all.sort();
    all
}

#[test]
fn create_then_remove_same_path() {
    let mut t = ChangeTracker::new(10000);
    apply(&mut t, EventKind::Create, &["/a"]);
    apply(&mut t, EventKind::Remove, &["/a"]);
    assert_eq!(counts(&t), Some((0, 1)));
    assert_eq!(drain_removed_fully(&mut t), vec![path("/a")]);
}

#[test]
fn remove_then_create_same_path() {
    let mut t = ChangeTracker::new(10000);
    apply(&mut t, EventKind::Remove, &["/a"]);
    apply(&mut t, EventKind::Create, &["/a"]);
    assert_eq!(counts(&t), Some((1, 0)));
    assert_eq!(drain_new_fully(&mut t), vec![path("/a")]);
}

#[test]
fn rename_both_moves_from_to() {
    let mut t = ChangeTracker::new(10000);
    apply(&mut t, EventKind::RenameBoth, &["/from", "/to"]);
    assert_eq!(counts(&t), Some((1, 1)));
    let mut u = ChangeTracker::new(10000);
    apply(&mut u, EventKind::RenameBoth, &["/from", "/to"]);
    assert_eq!(drain_new_fully(&mut u), vec![path("/to")]);
    assert_eq!(drain_removed_fully(&mut u), vec![path("/from")]);

    // Renaming back swaps the sets.
    apply(&mut t, EventKind::RenameBoth, &["/to", "/from"]);
    assert_eq!(drain_new_fully(&mut t), vec![path("/from")]);
    assert_eq!(drain_removed_fully(&mut t), vec![path("/to")]);
}

#[test]
fn rename_both_wrong_arity_ignored() {
    let mut t = ChangeTracker::new(10000);
    apply(&mut t, EventKind::RenameBoth, &["/only"]);
    assert_eq!(counts(&t), Some((0, 0)));
    apply(&mut t, EventKind::RenameBoth, &["/a", "/b", "/c"]);
    assert_eq!(counts(&t), Some((0, 0)));
}

#[test]
fn ceiling_crossed_reports_too_many() {
    let mut t = ChangeTracker::new(2);
    apply(&mut t, EventKind::Create, &["/a"]);
    apply(&mut t, EventKind::Create, &["/b"]);
    assert_eq!(counts(&t), Some((2, 0)));
    apply(&mut t, EventKind::Create, &["/c"]);
    assert!(matches!(t.stats(), ServerStats::TooManyChanges));
    assert!(matches!(t.drain_new(10), ServerNewChangesResponse::TooManyChanges));
    assert!(matches!(t.drain_removed(10), ServerRemoveChangesResponse::TooManyChanges));
}

#[test]
fn ceiling_at_limit_not_crossed() {
    let mut t = ChangeTracker::new(2);
    apply(&mut t, EventKind::Create, &["/a", "/b"]);
    assert_eq!(counts(&t), Some((2, 0)));
}

#[test]
fn degradation_has_priority_and_reset_recovers() {
    let mut t = ChangeTracker::new(2);
    apply(&mut t, EventKind::Create, &["/a", "/b", "/c"]);
    assert!(matches!(t.stats(), ServerStats::TooManyChanges));
    t.signal_degraded();
    assert!(matches!(t.stats(), ServerStats::ChangesErroneousDropped));
    assert!(matches!(
        t.drain_new(5),
        ServerNewChangesResponse::ChangesErroneousDropped
    ));
    assert!(matches!(
        t.drain_removed(5),
        ServerRemoveChangesResponse::ChangesErroneousDropped
    ));
    t.reset();
    assert_eq!(counts(&t), Some((0, 0)));
}

#[test]
fn dropped_absorbs_all_non_reset_inputs() {
    let mut t = ChangeTracker::new(10000);
    t.signal_degraded();
    apply(&mut t, EventKind::Create, &["/a"]);
    apply(&mut t, EventKind::Remove, &["/b"]);
    apply(&mut t, EventKind::RenameOther, &["/c"]);
    t.signal_degraded();
    assert!(matches!(t.stats(), ServerStats::ChangesErroneousDropped));
}

#[test]
fn reset_from_every_state() {
    let mut t = ChangeTracker::new(10000);
    apply(&mut t, EventKind::Create, &["/a"]);
    t.reset();
    assert_eq!(counts(&t), Some((0, 0)));

    let mut u = ChangeTracker::new(1);
    apply(&mut u, EventKind::Create, &["/a", "/b"]);
    assert!(matches!(u.stats(), ServerStats::TooManyChanges));
    u.reset();
    assert_eq!(counts(&u), Some((0, 0)));

    let mut v = ChangeTracker::new(10000);
    v.signal_degraded();
    v.reset();
    assert_eq!(counts(&v), Some((0, 0)));
}

#[test]
fn drain_pagination_and_clamp() {
    let mut t = ChangeTracker::new(10000);
    let names: Vec<String> = (0..1500).map(|i| format!("/f{}", i)).collect();
    for chunk in names.chunks(100) {
        let refs: Vec<&str> = chunk.iter().map(|s| s.as_str()).collect();
        apply(&mut t, EventKind::Create, &refs);
    }
    assert_eq!(counts(&t), Some((1500, 0)));

    let first = drain_new_page(&mut t, 99999);
    assert_eq!(first.paths.len(), 1000);
    assert!(!first.done);

    let second = drain_new_page(&mut t, 1000);
    assert_eq!(second.paths.len(), 500);
    assert!(second.done);

    let third = drain_new_page(&mut t, 1000);
    assert_eq!(third.paths.len(), 0);
    assert!(third.done);

    // Together the drains yielded exactly the paths that were present.
    let mut all: Vec<Vec<u8>> = Vec::new();
    all.extend(first.paths);
    all.extend(second.paths);
    all.sort();
    let mut expected: Vec<Vec<u8>> = names.iter().map(|s| path(s)).collect();
    expected.sort();
    assert_eq!(all, expected);
}

#[test]
fn drain_empty_returns_done_and_keeps_state() {
    let mut t = ChangeTracker::new(10000);
    let rv = drain_new_page(&mut t, 10);
    assert_eq!(rv.paths.len(), 0);
    assert!(rv.done);
    let rv2 = drain_removed_page(&mut t, 10);
    assert_eq!(rv2.paths.len(), 0);
    assert!(rv2.done);
    assert_eq!(counts(&t), Some((0, 0)));
}

#[test]
fn drain_size_zero_takes_nothing() {
    let mut t = ChangeTracker::new(10000);
    apply(&mut t, EventKind::Create, &["/a"]);
    let rv = drain_new_page(&mut t, 0);
    assert_eq!(rv.paths.len(), 0);
    assert!(!rv.done);
    assert_eq!(counts(&t), Some((1, 0)));
}

#[test]
fn oversize_drain_equals_clamped_drain() {
    let mut t = ChangeTracker::new(10000);
    let mut u = ChangeTracker::new(10000);
    let names: Vec<String> = (0..1001).map(|i| format!("/g{}", i)).collect();
    let refs: Vec<&str> = names.iter().map(|s| s.as_str()).collect();
    apply(&mut t, EventKind::Create, &refs);
    apply(&mut u, EventKind::Create, &refs);
    let big = drain_new_page(&mut t, 5000);
    let clamped = drain_new_page(&mut u, 1000);
    assert_eq!(big.paths.len(), 1000);
    assert_eq!(clamped.paths.len(), 1000);
    assert_eq!(big.done, clamped.done);
    assert!(!big.done);
}

#[test]
fn modify_and_rename_to_count_as_new() {
    let mut t = ChangeTracker::new(10000);
    apply(&mut t, EventKind::ModifyContent, &["/m"]);
    apply(&mut t, EventKind::RenameTo, &["/t"]);
    assert_eq!(counts(&t), Some((2, 0)));
    assert_eq!(drain_new_fully(&mut t), {
        let mut v = vec![path("/m"), path("/t")];
        v.sort();
        v
    });
}

#[test]
fn rename_from_counts_as_removed() {
    let mut t = ChangeTracker::new(10000);
    apply(&mut t, EventKind::RenameFrom, &["/f"]);
    assert_eq!(counts(&t), Some((0, 1)));
    assert_eq!(drain_removed_fully(&mut t), vec![path("/f")]);
}

#[test]
fn rename_other_marks_both_sets() {
    let mut t = ChangeTracker::new(10000);
    apply(&mut t, EventKind::RenameOther, &["/x"]);
    assert_eq!(counts(&t), Some((1, 1)));
    assert_eq!(drain_new_fully(&mut t), vec![path("/x")]);
    assert_eq!(drain_removed_fully(&mut t), vec![path("/x")]);
}

#[test]
fn other_events_are_ignored() {
    let mut t = ChangeTracker::new(10000);
    apply(&mut t, EventKind::Other, &["/a", "/b"]);
    assert_eq!(counts(&t), Some((0, 0)));
}

#[test]
fn duplicate_creates_coalesce() {
    let mut t = ChangeTracker::new(10000);
    apply(&mut t, EventKind::Create, &["/a"]);
    apply(&mut t, EventKind::Create, &["/a"]);
    apply(&mut t, EventKind::Create, &["/a", "/a"]);
    assert_eq!(counts(&t), Some((1, 0)));
}

#[test]
fn sets_stay_disjoint_without_rename_other() {
    let mut t = ChangeTracker::new(10000);
    apply(&mut t, EventKind::Create, &["/a", "/b", "/c"]);
    apply(&mut t, EventKind::Remove, &["/b", "/d"]);
    apply(&mut t, EventKind::RenameBoth, &["/a", "/e"]);
    apply(&mut t, EventKind::ModifyContent, &["/d"]);
    apply(&mut t, EventKind::RenameFrom, &["/c"]);
    let new_paths = drain_new_fully(&mut t);
    let removed_paths = drain_removed_fully(&mut t);
    for p in &new_paths {
        assert!(!removed_paths.contains(p));
    }
    assert_eq!(new_paths, {
        let mut v = vec![path("/d"), path("/e")];
        v.sort();
        v
    });
    assert_eq!(removed_paths, {
        let mut v = vec![path("/a"), path("/b"), path("/c")];
        v.sort();
        v
    });
}

#[test]
fn total_stays_within_limit_while_tracking() {
    let mut t = ChangeTracker::new(5);
    let kinds = [
        EventKind::Create,
        EventKind::Remove,
        EventKind::ModifyContent,
        EventKind::RenameFrom,
        EventKind::RenameTo,
    ];
    for (i, kind) in kinds.iter().enumerate() {
        apply(&mut t, *kind, &[&format!("/p{}", i)]);
        if let Some((n, r)) = counts(&t) {
            assert!(n + r <= 5);
        }
    }
}

#[test]
fn repeated_small_drains_complete() {
    let mut t = ChangeTracker::new(10000);
    let names: Vec<String> = (0..10).map(|i| format!("/d{}", i)).collect();
    let refs: Vec<&str> = names.iter().map(|s| s.as_str()).collect();
    apply(&mut t, EventKind::Create, &refs);

    let mut all: Vec<Vec<u8>> = Vec::new();
    let mut pages: usize = 0;
    loop {
        let rv = drain_new_page(&mut t, 3);
        all.extend(rv.paths);
        pages += 1;
        if rv.done {
            break;
        }
        assert!(pages < 100, "drain did not complete");
    }
    assert_eq!(pages, 4);
    all.sort();
    let mut expected: Vec<Vec<u8>> = names.iter().map(|s| path(s)).collect();
    expected.sort();
    assert_eq!(all, expected);
}

#[test]
fn drain_that_exactly_empties_reports_done() {
    let mut t = ChangeTracker::new(10000);
    apply(&mut t, EventKind::Create, &["/a", "/b", "/c"]);
    let rv = drain_new_page(&mut t, 3);
    assert_eq!(rv.paths.len(), 3);
    assert!(rv.done);
}

#[test]
fn default_state_is_empty_tracking() {
    let s = ServerState::default();
    assert_eq!(
        ServerStats::from_state(&s),
        ServerStats::Tracking(FileSystemChangeStats { removed: 0, new: 0 })
    );
}

#[test]
fn from_state_mirrors_each_variant() {
    let empty = ServerState::Tracking(FileSystemChanges::new());
    assert_eq!(
        ServerStats::from_state(&empty),
        ServerStats::Tracking(FileSystemChangeStats { removed: 0, new: 0 })
    );
    let defaulted = ServerState::Tracking(FileSystemChanges::default());
    assert_eq!(
        ServerStats::from_state(&defaulted),
        ServerStats::Tracking(FileSystemChangeStats { removed: 0, new: 0 })
    );
    assert_eq!(
        ServerStats::from_state(&ServerState::TooManyChanges),
        ServerStats::TooManyChanges
    );
    assert_eq!(
        ServerStats::from_state(&ServerState::ChangesErroneousDropped),
        ServerStats::ChangesErroneousDropped
    );
}
