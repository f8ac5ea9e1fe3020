use editchain_history::cache::{
    CacheEntry, PageCache, RetentionPriority, MAX_CACHED_BYTES, MAX_CACHED_ROWS,
};
use editchain_history::coordinates::ExpandedRow;
use editchain_history::protocol::{CachedRow, ErrorCode, HistoryRow, ReconciledRow};
use editchain_history::row_input::RowInput;

fn abs(row: i64) -> ExpandedRow {
    ExpandedRow::new(row).unwrap()
}

fn history_row(key: &str, encoded: u64) -> HistoryRow {
    HistoryRow {
        node_key: key.to_string(),
        continuity_key: key.to_string(),
        summary: key.to_string(),
        parent_row: None,
        max_lane: 0,
        encoded: Ok(encoded),
    }
}

fn version() -> String {
    "a".repeat(64)
}

fn conditional(key: &str, content: bool) -> ReconciledRow {
    ReconciledRow {
        cached: CachedRow {
            key: key.to_string(),
            version: version(),
        },
        content: if content {
            Some(history_row(key, 300))
        } else {
            None
        },
    }
}

fn insert_legacy(cache: &mut PageCache, row: ExpandedRow, encoded: u64) -> Option<RowInput> {
    let entry = CacheEntry::new(RowInput::new(history_row("", encoded))).unwrap();
    cache.insert(row, entry)
}

#[test]
fn invalid_conditional_content_does_not_consume_retained_rows() {
    let mut cache = PageCache::new();
    let entry = cache
        .reconcile(vec![conditional("kept", true)])
        .unwrap()
        .pop()
        .unwrap();
    drop(cache.insert(abs(4), entry));
    let bytes = cache.retained_bytes();
    cache.retire_coordinates();
    assert!(cache
        .reconcile(vec![
            conditional("kept", false),
            conditional("missing", false)
        ])
        .is_err());
    assert!(cache.is_empty(), "retired coordinates stay inaccessible");
    assert_eq!(cache.retained_bytes(), bytes);
    assert_eq!(cache.known_rows().len(), 1);
    let entry = cache
        .reconcile(vec![conditional("kept", false)])
        .unwrap()
        .pop()
        .unwrap();
    assert_eq!(cache.retained_bytes(), 0);
    drop(cache.insert(abs(5), entry));
    assert_eq!(cache.get(abs(5)).unwrap().source.summary, "kept");
    assert_eq!(cache.retained_bytes(), bytes);
}

#[test]
fn retired_and_current_content_share_one_budget_and_viewport_wins() {
    let mut cache = PageCache::new();
    for index in 0..MAX_CACHED_ROWS {
        let entry = cache
            .reconcile(vec![conditional(&index.to_string(), true)])
            .unwrap()
            .pop()
            .unwrap();
        drop(cache.insert(abs(i64::try_from(index).unwrap()), entry));
    }
    cache.retire_coordinates();
    let entry = cache
        .reconcile(vec![conditional("visible", true)])
        .unwrap()
        .pop()
        .unwrap();
    drop(cache.insert(abs(0), entry));
    assert!(cache.retain(abs(0), abs(2000), |_| RetentionPriority::Viewport(0)));
    assert_eq!(cache.known_rows().len(), MAX_CACHED_ROWS);
    assert_eq!(
        cache.rows.len().saturating_add(cache.retired.len()),
        MAX_CACHED_ROWS
    );
    assert_eq!(cache.get(abs(0)).unwrap().source.summary, "visible");
    assert!(cache.retained_bytes() <= MAX_CACHED_BYTES);
    cache.clear();
    assert_eq!(cache.retained_bytes(), 0);
    assert!(cache.known_rows().is_empty());
}

#[test]
fn every_far_row_is_evicted_and_retained_size_is_a_hard_bound() {
    let mut cache = PageCache::new();
    for row in 0..10_000 {
        drop(insert_legacy(&mut cache, abs(row), 300));
    }
    assert!(cache.retain(abs(0), abs(1000), |row| {
        RetentionPriority::Requested(row.get().abs_diff(500))
    }));
    assert_eq!(cache.len(), 1001);
    assert!(!cache.contains_key(abs(9999)));
    for row in 0..10_000 {
        drop(insert_legacy(&mut cache, abs(row), 300));
    }
    assert!(cache.retain(abs(0), abs(9999), |row| {
        RetentionPriority::Requested(row.get().abs_diff(5000))
    }));
    assert_eq!(cache.len(), MAX_CACHED_ROWS);
    assert!(cache.contains_key(abs(5000)));
    assert!(!cache.contains_key(abs(0)));
    assert!(!cache.contains_key(abs(9999)));
}

#[test]
fn heterogeneous_rows_are_charged_on_replacement_eviction_and_clear() {
    let mut cache = PageCache::new();
    for row in 0..80 {
        let bytes = if row % 2 == 0 { 32 * 1024 } else { 512 * 1024 };
        drop(insert_legacy(&mut cache, abs(row), bytes + 300));
    }
    assert!(cache.retained_bytes() > MAX_CACHED_BYTES);
    assert!(cache.retain(abs(0), abs(79), |row| {
        if row.get() == 0 {
            RetentionPriority::Viewport(0)
        } else {
            RetentionPriority::Requested(row.get().abs_diff(0))
        }
    }));
    assert!(
        cache.len() < 80,
        "bytes constrain even a small number of rows"
    );
    assert!(cache.retained_bytes() <= MAX_CACHED_BYTES);
    assert!(cache.byte_limited());
    let retained = cache.retained_bytes();
    let previous = insert_legacy(&mut cache, abs(0), 300).unwrap();
    let replaced = cache.get(abs(0)).unwrap();
    assert_eq!(
        cache.retained_bytes(),
        retained - previous.cache_bytes().unwrap() + replaced.cache_bytes().unwrap()
    );
    assert!(cache.retain(abs(0), abs(0), |_| RetentionPriority::Viewport(0)));
    assert_eq!(
        cache.retained_bytes(),
        cache.get(abs(0)).unwrap().cache_bytes().unwrap()
    );
    assert!(
        cache.byte_limited(),
        "pruning does not restart speculative requests"
    );
    cache.clear();
    assert_eq!(cache.retained_bytes(), 0);
    assert!(cache.is_empty());
    assert!(!cache.byte_limited());
}

#[test]
fn a_row_is_charged_its_encoding_and_its_parent_link() {
    let mut source = history_row("row", 100);
    assert_eq!(RowInput::new(source.clone()).cache_bytes(), Ok(104));
    source.parent_row = Some(1234);
    assert_eq!(RowInput::new(source.clone()).cache_bytes(), Ok(104));
    source.parent_row = Some(7);
    assert_eq!(RowInput::new(source.clone()).cache_bytes(), Ok(101));
    source.encoded = Ok(u64::MAX);
    assert_eq!(RowInput::new(source.clone()).cache_bytes(), Ok(u64::MAX));
    source.encoded = Err("not encodable".to_string());
    assert_eq!(
        RowInput::new(source).cache_bytes(),
        Err("not encodable".to_string())
    );
}

#[test]
fn rows_over_the_budget_or_without_a_size_are_refused() {
    let large = CacheEntry::new(RowInput::new(history_row("large", MAX_CACHED_BYTES))).unwrap_err();
    assert_eq!(large.code, ErrorCode::InvalidInput);
    let mut unsized_row = history_row("unsized", 0);
    unsized_row.encoded = Err("not encodable".to_string());
    let refused = CacheEntry::new(RowInput::new(unsized_row)).unwrap_err();
    assert_eq!(refused.code, ErrorCode::InvalidInput);
    let fits = CacheEntry::new(RowInput::new(history_row("fits", MAX_CACHED_BYTES - 4))).unwrap();
    assert_eq!(fits.bytes, MAX_CACHED_BYTES);
}

#[test]
fn a_retained_row_answers_only_to_its_version() {
    let mut cache = PageCache::new();
    let entry = cache
        .reconcile(vec![conditional("kept", true)])
        .unwrap()
        .pop()
        .unwrap();
    drop(cache.insert(abs(3), entry));
    assert!(cache.matching("kept", &version()).is_some());
    assert!(cache.matching("kept", "other").is_none());
    assert!(cache.matching("missing", &version()).is_none());
    assert_eq!(cache.first_missing(&[abs(3), abs(4)]), Some(abs(4)));
    assert_eq!(cache.first_missing(&[abs(3)]), None);
    let indices: Vec<i64> = cache.indices().into_iter().map(ExpandedRow::get).collect();
    assert_eq!(indices, vec![3]);
    assert!(cache.get_by_index(3).is_some());
    assert!(cache.get_by_index(-1).is_none());
}

#[test]
fn a_retained_row_answers_one_place_of_a_patch() {
    let mut cache = PageCache::new();
    let entry = cache
        .reconcile(vec![conditional("kept", true)])
        .unwrap()
        .pop()
        .unwrap();
    drop(cache.insert(abs(0), entry));
    let bytes = cache.retained_bytes();
    let refused = cache
        .reconcile(vec![conditional("kept", false), conditional("kept", false)])
        .unwrap_err();
    assert_eq!(refused.code, ErrorCode::InvalidInput);
    assert_eq!(refused.message, "Retained row disappeared.");
    assert_eq!(cache.retained_bytes(), bytes);
    assert_eq!(
        cache
            .reconcile(vec![conditional("kept", false), conditional("kept", true)])
            .unwrap()
            .len(),
        2
    );
}

#[test]
fn viewport_rows_leave_last() {
    let mut cache = PageCache::new();
    for row in 0..2001 {
        drop(insert_legacy(&mut cache, abs(row), 300));
    }
    assert!(cache.retain(abs(0), abs(2000), |row| if row.get() == 1000 {
        RetentionPriority::Hidden(0)
    } else {
        RetentionPriority::Viewport(row.get().abs_diff(0))
    }));
    assert_eq!(cache.len(), MAX_CACHED_ROWS);
    assert!(!cache.contains_key(abs(1000)));
    for row in 0..2002 {
        drop(insert_legacy(&mut cache, abs(row), 300));
    }
    assert!(!cache.retain(abs(0), abs(2001), |row| {
        RetentionPriority::Viewport(row.get().abs_diff(0))
    }));
    assert!(!cache.contains_key(abs(2001)));
    assert!(!cache.contains_key(abs(2000)));
    assert!(cache.contains_key(abs(1999)));
}

#[test]
fn content_of_another_version_is_not_passed_off() {
    let mut cache = PageCache::new();
    for (place, version) in [(1, "v1"), (2, "v2")] {
        let mut entry = CacheEntry::new(RowInput::new(history_row("twin", 100))).unwrap();
        entry.version = version.to_string();
        drop(cache.insert(abs(place), entry));
    }
    let twin = || ReconciledRow {
        cached: CachedRow {
            key: "twin".to_string(),
            version: "v1".to_string(),
        },
        content: None,
    };
    let error = cache.reconcile(vec![twin(), twin()]).unwrap_err();
    assert_eq!(
        error.message,
        "Conditional row has no matching retained content."
    );
    assert_eq!(cache.len(), 2);
    let entries = cache.reconcile(vec![twin()]).unwrap();
    assert_eq!(entries.len(), 1);
    assert_eq!(entries[0].version, "v1");
    assert!(cache.matching("twin", "v2").is_some());
}

#[test]
fn placed_content_is_not_retired_as_well() {
    let mut cache = PageCache::new();
    let entry = cache
        .reconcile(vec![conditional("kept", true)])
        .unwrap()
        .pop()
        .unwrap();
    drop(cache.insert(abs(4), entry));
    cache.retire_coordinates();
    assert_eq!(cache.retired.len(), 1);
    let entry = CacheEntry::new(RowInput::new(history_row("kept", 100))).unwrap();
    drop(cache.insert(abs(7), entry));
    assert!(cache.retired.is_empty());
    assert_eq!(cache.len(), 1);
}
