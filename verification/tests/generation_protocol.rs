use graph_accel::{ensure_fresh, snapshot_status, FreshnessAction, GenerationStore, SnapshotStatus};

#[test]
fn test_invalidate_returns_generation() {
    let mut store = GenerationStore::new();
    assert_eq!(store.invalidate("test_graph"), 1);
    assert_eq!(store.invalidate("test_graph"), 2);
}

#[test]
fn test_invalidate_separate_graphs() {
    let mut store = GenerationStore::new();
    assert_eq!(store.invalidate("graph_a"), 1);
    assert_eq!(store.invalidate("graph_b"), 1);
    assert_eq!(store.invalidate("graph_a"), 2);
}

#[test]
fn test_generation_strictly_increases() {
    let mut store = GenerationStore::new();
    let mut last = 0;
    for _ in 0..10 {
        let g = store.invalidate("g");
        assert!(g > last);
        last = g;
    }
}

#[test]
fn test_fetch_never_invalidated_is_zero() {
    let store = GenerationStore::new();
    assert_eq!(store.fetch("absent"), 0);
}

#[test]
fn test_fetch_tracks_invalidations() {
    let mut store = GenerationStore::new();
    store.invalidate("g");
    store.invalidate("g");
    assert_eq!(store.fetch("g"), 2);
    assert_eq!(store.fetch("h"), 0);
}

#[test]
fn test_ensure_fresh_no_snapshot() {
    assert_eq!(ensure_fresh(None, Some(3), true, 5), FreshnessAction::NoSnapshot);
}

#[test]
fn test_ensure_fresh_store_unreachable() {
    assert_eq!(
        ensure_fresh(Some((1, 100)), None, true, 5),
        FreshnessAction::StoreUnreachable
    );
}

#[test]
fn test_ensure_fresh_fresh() {
    assert_eq!(ensure_fresh(Some((3, 100)), Some(3), true, 5), FreshnessAction::Fresh);
    assert_eq!(ensure_fresh(Some((4, 100)), Some(3), true, 5), FreshnessAction::Fresh);
}

#[test]
fn test_ensure_fresh_stale_auto_reload_off() {
    assert_eq!(
        ensure_fresh(Some((2, 100)), Some(3), false, 5),
        FreshnessAction::StaleAutoReloadOff
    );
}

#[test]
fn test_ensure_fresh_debounced() {
    assert_eq!(
        ensure_fresh(Some((2, 3)), Some(3), true, 5),
        FreshnessAction::StaleDebounced
    );
}

#[test]
fn test_ensure_fresh_reload() {
    // debounce elapsed
    assert_eq!(ensure_fresh(Some((2, 6)), Some(3), true, 5), FreshnessAction::Reload);
    // debouncing disabled
    assert_eq!(ensure_fresh(Some((2, 0)), Some(3), true, 0), FreshnessAction::Reload);
}

#[test]
fn test_snapshot_status_not_loaded() {
    assert_eq!(snapshot_status(None, 7), (SnapshotStatus::NotLoaded, false));
}

#[test]
fn test_snapshot_status_loaded_and_stale() {
    assert_eq!(snapshot_status(Some(7), 7), (SnapshotStatus::Loaded, false));
    assert_eq!(snapshot_status(Some(8), 7), (SnapshotStatus::Loaded, false));
    assert_eq!(snapshot_status(Some(6), 7), (SnapshotStatus::Stale, true));
}
