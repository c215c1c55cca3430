use contexthub::git::CommitInfo;
use contexthub::storage::{GlobalContext, Storage, StoreError, SECONDS_PER_DAY};

fn commit(hash: &str, message: &str, date: i64) -> CommitInfo {
    CommitInfo::from_parts(hash, Some(message), Some("Ada"), date, vec![])
}

fn files(items: &[&str]) -> Vec<String> {
    items.iter().map(|s| s.to_string()).collect()
}

#[test]
fn new_store_is_empty() {
    let store = Storage::new();
    assert_eq!(store.get_context_count(), 0);
    assert!(!store.has_commit("abc"));
    assert_eq!(store.get_latest_context_summary(), None);
    assert_eq!(store.get_last_processed_commit(), None);
    assert!(store.get_global_context().is_empty());
    assert!(store.get_ttl_memory(0).is_empty());
}

#[test]
fn stored_commit_is_found_with_all_its_fields() {
    let mut store = Storage::new();
    let c = commit("aaa111", "  first commit \n", 1_000);
    let out = store.store_global_context(&c, "adds a thing", &files(&["a.rs", "dir/b \"q\".rs"]), "{raw}", 5_000);
    assert_eq!(out, Ok(()));
    assert!(store.has_commit("aaa111"));
    assert!(!store.has_commit("aaa11"));
    assert_eq!(store.get_context_count(), 1);
    let rows = store.get_global_context();
    assert_eq!(rows.len(), 1);
    assert_eq!(rows[0].id, 1);
    assert_eq!(rows[0].commit_hash, "aaa111");
    assert_eq!(rows[0].commit_message, "first commit");
    assert_eq!(rows[0].commit_date, 1_000);
    assert_eq!(rows[0].context_summary, "adds a thing");
    assert_eq!(rows[0].files_changed, "[\"a.rs\",\"dir/b \\\"q\\\".rs\"]");
    assert_eq!(rows[0].llm_extracted_context, "{raw}");
    assert_eq!(rows[0].created_at, 5_000);
}

#[test]
fn empty_file_list_is_stored_as_an_empty_array() {
    let mut store = Storage::new();
    store.store_global_context(&commit("h", "m", 1), "s", &vec![], "", 0).unwrap();
    assert_eq!(store.get_global_context()[0].files_changed, "[]");
}

#[test]
fn storing_a_known_hash_replaces_the_row() {
    let mut store = Storage::new();
    let c = commit("aaa", "m", 100);
    store.store_global_context(&c, "old summary", &files(&["x"]), "r1", 1).unwrap();
    store.store_global_context(&commit("bbb", "m2", 200), "other", &vec![], "r", 2).unwrap();
    assert_eq!(store.get_context_count(), 2);
    store.store_global_context(&c, "new summary", &files(&["y"]), "r2", 3).unwrap();
    assert_eq!(store.get_context_count(), 2);
    let rows = store.get_global_context();
    let mine: Vec<&GlobalContext> = rows.iter().filter(|r| r.commit_hash == "aaa").collect();
    assert_eq!(mine.len(), 1);
    assert_eq!(mine[0].context_summary, "new summary");
    assert_eq!(mine[0].files_changed, "[\"y\"]");
    assert_eq!(mine[0].llm_extracted_context, "r2");
    assert_eq!(mine[0].created_at, 3);
    assert_eq!(mine[0].id, 3);
    let other: Vec<&GlobalContext> = rows.iter().filter(|r| r.commit_hash == "bbb").collect();
    assert_eq!(other.len(), 1);
    assert_eq!(other[0].context_summary, "other");
}

#[test]
fn latest_summary_goes_by_commit_date() {
    let mut store = Storage::new();
    store.store_global_context(&commit("new", "m", 300), "newest", &vec![], "", 1).unwrap();
    store.store_global_context(&commit("old", "m", 100), "oldest", &vec![], "", 2).unwrap();
    store.store_global_context(&commit("mid", "m", 200), "middle", &vec![], "", 3).unwrap();
    assert_eq!(store.get_latest_context_summary(), Some("newest".to_string()));
    assert_eq!(store.get_last_processed_commit(), Some("new".to_string()));
    let hashes: Vec<String> = store.get_global_context().into_iter().map(|r| r.commit_hash).collect();
    assert_eq!(hashes, vec!["new", "mid", "old"]);
}

#[test]
fn among_equal_dates_the_last_stored_comes_first() {
    let mut store = Storage::new();
    store.store_global_context(&commit("a", "m", 100), "first", &vec![], "", 1).unwrap();
    store.store_global_context(&commit("b", "m", 100), "second", &vec![], "", 2).unwrap();
    assert_eq!(store.get_latest_context_summary(), Some("second".to_string()));
}

#[test]
fn context_since_a_commit() {
    let mut store = Storage::new();
    store.store_global_context(&commit("c1", "m", 100), "s1", &vec![], "", 1).unwrap();
    store.store_global_context(&commit("c2", "m", 200), "s2", &vec![], "", 1).unwrap();
    store.store_global_context(&commit("c3", "m", 300), "s3", &vec![], "", 1).unwrap();
    let since: Vec<String> =
        store.get_global_context_since("c2").into_iter().map(|r| r.commit_hash).collect();
    assert_eq!(since, vec!["c3", "c2"]);
    let since: Vec<String> =
        store.get_global_context_since("c1").into_iter().map(|r| r.commit_hash).collect();
    assert_eq!(since, vec!["c3", "c2", "c1"]);
    assert!(store.get_global_context_since("unknown").is_empty());
}

#[test]
fn ttl_row_expires_after_its_days() {
    let mut store = Storage::new();
    let now = 1_700_000_000;
    assert_eq!(store.store_ttl_memory("abc", "note", 7, now), Ok(()));
    let rows = store.get_ttl_memory(now);
    assert_eq!(rows.len(), 1);
    assert_eq!(rows[0].id, 1);
    assert_eq!(rows[0].commit_hash, "abc");
    assert_eq!(rows[0].content, "note");
    assert_eq!(rows[0].created_at, now);
    assert_eq!(rows[0].expires_at, now + 604_800);
    assert_eq!(rows[0].expires_at, now + 7 * SECONDS_PER_DAY);
    assert_eq!(store.get_ttl_memory(now + 604_799).len(), 1);
    assert_eq!(store.get_ttl_memory(now + 604_800).len(), 0);
    assert_eq!(store.get_ttl_memory(now + 604_801).len(), 0);
}

#[test]
fn expired_row_is_hidden_but_stays_until_swept() {
    let mut store = Storage::new();
    let now = 1_000_000;
    store.store_ttl_memory("gone", "old note", -1, now).unwrap();
    store.store_ttl_memory("kept", "fresh note", 1, now).unwrap();
    let visible = store.get_ttl_memory(now);
    assert_eq!(visible.len(), 1);
    assert_eq!(visible[0].commit_hash, "kept");
    // reading did not remove anything: an earlier clock still sees the row
    assert_eq!(store.get_ttl_memory(now - 2 * SECONDS_PER_DAY).len(), 2);
    assert_eq!(store.cleanup_expired_ttl(now), 1);
    assert_eq!(store.get_ttl_memory(now - 2 * SECONDS_PER_DAY).len(), 1);
    assert_eq!(store.get_ttl_memory(now).len(), 1);
    assert_eq!(store.cleanup_expired_ttl(now), 0);
}

#[test]
fn sweep_counts_every_expired_row() {
    let mut store = Storage::new();
    store.store_ttl_memory("a", "1", 1, 0).unwrap();
    store.store_ttl_memory("a", "2", 2, 0).unwrap();
    store.store_ttl_memory("b", "3", 3, 0).unwrap();
    store.store_ttl_memory("c", "4", 0, 0).unwrap();
    assert_eq!(store.get_ttl_memory(0).len(), 3);
    assert_eq!(store.cleanup_expired_ttl(2 * SECONDS_PER_DAY), 3);
    let left = store.get_ttl_memory(0);
    assert_eq!(left.len(), 1);
    assert_eq!(left[0].content, "3");
}

#[test]
fn several_ttl_rows_may_share_a_hash() {
    let mut store = Storage::new();
    store.store_ttl_memory("same", "one", 7, 10).unwrap();
    store.store_ttl_memory("same", "two", 7, 20).unwrap();
    let rows = store.get_ttl_memory(30);
    assert_eq!(rows.len(), 2);
    assert_eq!(rows[0].content, "two");
    assert_eq!(rows[1].content, "one");
    assert_eq!(rows[0].id, 2);
    assert_eq!(rows[1].id, 1);
}

#[test]
fn ttl_rows_come_newest_created_first() {
    let mut store = Storage::new();
    store.store_ttl_memory("a", "middle", 7, 200).unwrap();
    store.store_ttl_memory("b", "newest", 7, 300).unwrap();
    store.store_ttl_memory("c", "oldest", 7, 100).unwrap();
    let order: Vec<String> = store.get_ttl_memory(300).into_iter().map(|r| r.content).collect();
    assert_eq!(order, vec!["newest", "middle", "oldest"]);
}

#[test]
fn clearing_removes_every_ttl_row_and_no_durable_row() {
    let mut store = Storage::new();
    store.store_global_context(&commit("h", "m", 1), "s", &vec![], "", 0).unwrap();
    store.store_ttl_memory("h", "s", 7, 0).unwrap();
    store.store_ttl_memory("h", "s", -7, 0).unwrap();
    store.clear_ttl_memory();
    assert!(store.get_ttl_memory(-10_000_000).is_empty());
    assert_eq!(store.cleanup_expired_ttl(1_000_000_000), 0);
    assert_eq!(store.get_context_count(), 1);
}

fn row(id: i64, hash: &str, date: i64) -> GlobalContext {
    GlobalContext {
        id,
        commit_hash: hash.to_string(),
        commit_message: "m".to_string(),
        commit_date: date,
        context_summary: format!("summary of {}", hash),
        files_changed: "[]".to_string(),
        llm_extracted_context: String::new(),
        created_at: 7,
    }
}

#[test]
fn restored_rows_keep_their_identifiers() {
    let mut store = Storage::new();
    assert_eq!(store.restore_global_context(row(5, "a", 100)), Ok(()));
    assert_eq!(store.restore_global_context(row(2, "b", 200)), Ok(()));
    let rows = store.get_global_context();
    assert_eq!(rows[0].commit_hash, "b");
    assert_eq!(rows[0].id, 2);
    assert_eq!(rows[1].id, 5);
    assert_eq!(rows[1].created_at, 7);
    store.store_global_context(&commit("c", "m", 300), "s", &vec![], "", 0).unwrap();
    assert_eq!(store.get_global_context()[0].id, 6);
}

#[test]
fn restoring_a_known_hash_or_identifier_is_a_conflict() {
    let mut store = Storage::new();
    store.restore_global_context(row(1, "a", 100)).unwrap();
    assert_eq!(store.restore_global_context(row(2, "a", 100)), Err(StoreError::Conflict));
    assert_eq!(store.restore_global_context(row(1, "b", 100)), Err(StoreError::Conflict));
    assert_eq!(store.restore_global_context(row(-1, "c", 100)), Err(StoreError::Conflict));
    assert_eq!(store.restore_global_context(row(i64::MAX, "d", 100)), Err(StoreError::Conflict));
    assert_eq!(store.get_context_count(), 1);
}

#[test]
fn a_store_without_identifiers_left_is_full() {
    let mut store = Storage::new();
    store.restore_global_context(row(i64::MAX - 1, "a", 100)).unwrap();
    let out = store.store_global_context(&commit("b", "m", 1), "s", &vec![], "", 0);
    assert_eq!(out, Err(StoreError::Full));
    assert_eq!(store.get_context_count(), 1);
    assert!(!store.has_commit("b"));
}

#[test]
fn encoded_summary_is_stored_as_given() {
    let mut store = Storage::new();
    let c = commit("abc", "m", 10);
    assert_eq!(store.store_encoded_context(&c, "one", "[\"f\"]", "raw one", 5), Ok(()));
    assert_eq!(store.store_encoded_context(&c, "two", "[]", "raw two", 6), Ok(()));
    assert_eq!(store.get_context_count(), 1);
    let rows = store.get_global_context();
    assert_eq!(rows[0].context_summary, "two");
    assert_eq!(rows[0].files_changed, "[]");
    assert_eq!(rows[0].llm_extracted_context, "raw two");
    assert_eq!(rows[0].id, 2);
    assert_eq!(rows[0].created_at, 6);
}
