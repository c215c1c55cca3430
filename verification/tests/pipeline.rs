use contexthub::git::CommitInfo;
use contexthub::storage::Storage;
use contexthub::llm::{parse_response, ExtractError};
use contexthub::storage::{GlobalContext, StoreError, TtlMemory};
use contexthub::sync::{
    get_sync_status, plan_batch, select_range, CommitFailure, RangeSelector, SyncAction,
    SyncOutcome, SyncSession, SyncStage,
};

const NOW: i64 = 1_700_000_000;

fn commit(hash: &str, message: &str, date: i64) -> CommitInfo {
    CommitInfo::from_parts(hash, Some(message), Some("Ada"), date, vec![])
}

/// Three commits of one line of history, newest first, as a repository lists them.
fn history() -> Vec<CommitInfo> {
    vec![commit("ccc3", "third", 300), commit("bbb2", "second", 200), commit("aaa1", "first", 100)]
}

fn diff_of(hash: &str) -> String {
    format!("--- a/{}.rs\n+++ b/{}.rs\n@@ -1 +1 @@\n-x\n+y\n", hash, hash)
}

fn body_with_summary(summary: &str) -> String {
    format!("{{\"response\":\"{{\\\"summary\\\":\\\"{}\\\",\\\"impact\\\":\\\"high\\\"}}\"}}", summary)
}

/// Runs one pass to its end. The backend answers from `replies`, by commit hash: a status and a body.
fn run_pass(
    store: &mut Storage,
    candidates: &Vec<CommitInfo>,
    replies: &dyn Fn(&str) -> Option<(u16, String)>,
    prompts: &mut Vec<(String, String)>,
) -> SyncOutcome {
    let (mut session, first) = SyncSession::begin(None, None, 10, 7);
    assert_eq!(first, SyncAction::Resolve(RangeSelector::Latest { limit: 10 }));
    let mut action = session.on_candidates(store, candidates);
    let mut current = String::new();
    loop {
        action = match action {
            SyncAction::ProbeBackend => session.on_probe(true),
            SyncAction::FetchDiff { hash } => {
                current = hash;
                let diff = diff_of(&current);
                session.on_diff(store, Some(diff.as_str()))
            }
            SyncAction::Generate { prompt } => {
                prompts.push((current.clone(), prompt));
                match replies(&current) {
                    Some((status, body)) => session.on_reply(store, Some((status, body.as_str())), NOW),
                    None => session.on_reply(store, None, NOW),
                }
            }
            SyncAction::Finish(outcome) => {
                assert_eq!(session.stage, SyncStage::Finished);
                return outcome;
            }
            SyncAction::Resolve(_) | SyncAction::Ignored => panic!("unexpected action"),
        };
    }
}

fn all_succeed(hash: &str) -> Option<(u16, String)> {
    Some((200, body_with_summary(&format!("summary of {}", hash))))
}

#[test]
fn an_explicit_start_wins_over_a_count() {
    assert_eq!(
        select_range(Some("abc".to_string()), Some(3), 10),
        RangeSelector::Since { from: "abc".to_string() }
    );
    assert_eq!(select_range(None, Some(3), 10), RangeSelector::Latest { limit: 3 });
    assert_eq!(select_range(None, None, 10), RangeSelector::Latest { limit: 10 });
}

#[test]
fn plan_is_oldest_first_without_stored_commits() {
    let mut store = Storage::new();
    let all: Vec<String> = plan_batch(&history(), &store).into_iter().map(|c| c.hash).collect();
    assert_eq!(all, vec!["aaa1", "bbb2", "ccc3"]);
    store.store_global_context(&commit("bbb2", "second", 200), "s", &vec![], "", NOW).unwrap();
    let left: Vec<String> = plan_batch(&history(), &store).into_iter().map(|c| c.hash).collect();
    assert_eq!(left, vec!["aaa1", "ccc3"]);
    assert!(plan_batch(&vec![], &store).is_empty());
}

#[test]
fn a_pass_stores_every_commit() {
    let mut store = Storage::new();
    let mut prompts = Vec::new();
    let outcome = run_pass(&mut store, &history(), &all_succeed, &mut prompts);
    assert_eq!(
        outcome,
        SyncOutcome::Completed { succeeded: 3, failed: 0, skipped: 0, total_entries: 3 }
    );
    assert_eq!(store.get_context_count(), 3);
    let rows = store.get_global_context();
    assert_eq!(rows[0].commit_hash, "ccc3");
    assert_eq!(rows[0].context_summary, "summary of ccc3");
    assert_eq!(rows[0].files_changed, "[\"ccc3.rs\"]");
    assert_eq!(rows[0].llm_extracted_context, "{\"summary\":\"summary of ccc3\",\"impact\":\"high\"}");
    assert_eq!(rows[0].commit_message, "third");
    assert_eq!(rows[0].created_at, NOW);
    let memory = store.get_ttl_memory(NOW);
    assert_eq!(memory.len(), 3);
    for m in &memory {
        assert_eq!(m.expires_at, NOW + 7 * 86_400);
        assert_eq!(m.content, format!("summary of {}", m.commit_hash));
    }
}

#[test]
fn a_second_pass_over_the_same_range_stores_nothing() {
    let mut store = Storage::new();
    let mut prompts = Vec::new();
    run_pass(&mut store, &history(), &all_succeed, &mut prompts);
    let before = store.get_global_context();
    let asked = prompts.len();
    let outcome = run_pass(&mut store, &history(), &all_succeed, &mut prompts);
    assert_eq!(outcome, SyncOutcome::AlreadyProcessed { skipped: 3 });
    assert_eq!(store.get_context_count(), 3);
    assert_eq!(store.get_global_context(), before);
    assert_eq!(store.get_ttl_memory(NOW).len(), 3);
    assert_eq!(prompts.len(), asked);
}

#[test]
fn each_prompt_carries_the_summary_of_the_commit_before() {
    let mut store = Storage::new();
    let mut prompts = Vec::new();
    run_pass(&mut store, &history(), &all_succeed, &mut prompts);
    let order: Vec<&str> = prompts.iter().map(|(h, _)| h.as_str()).collect();
    assert_eq!(order, vec!["aaa1", "bbb2", "ccc3"]);
    let section = |summary: &str| {
        format!("\nPrevious Context (from the last processed commit):\n{}\n\nUse this", summary)
    };
    assert!(!prompts[0].1.contains("Previous Context"));
    assert!(prompts[1].1.contains(&section("summary of aaa1")));
    assert!(!prompts[1].1.contains("summary of ccc3"));
    assert!(prompts[2].1.contains(&section("summary of bbb2")));
    assert!(!prompts[2].1.contains("summary of aaa1"));
    assert!(prompts[1].1.contains("Commit Message: second\n"));
    assert!(prompts[1].1.contains("Files Changed: bbb2.rs\n"));
    assert!(prompts[1].1.contains(&format!("Diff:\n{}", diff_of("bbb2"))));
}

#[test]
fn one_backend_error_does_not_stop_the_batch() {
    let mut store = Storage::new();
    let mut prompts = Vec::new();
    let replies = |hash: &str| -> Option<(u16, String)> {
        if hash == "bbb2" {
            Some((500, "internal error".to_string()))
        } else {
            all_succeed(hash)
        }
    };
    let outcome = run_pass(&mut store, &history(), &replies, &mut prompts);
    assert_eq!(
        outcome,
        SyncOutcome::Completed { succeeded: 2, failed: 1, skipped: 0, total_entries: 2 }
    );
    assert!(store.has_commit("aaa1"));
    assert!(!store.has_commit("bbb2"));
    assert!(store.has_commit("ccc3"));
    assert_eq!(store.get_ttl_memory(NOW).len(), 2);
    // the commit after the failed one was given the last stored summary
    assert!(prompts[2].1.contains("summary of aaa1"));

    // the failed commit alone is taken up by the next pass
    let mut again = Vec::new();
    let outcome = run_pass(&mut store, &history(), &all_succeed, &mut again);
    assert_eq!(
        outcome,
        SyncOutcome::Completed { succeeded: 1, failed: 0, skipped: 2, total_entries: 3 }
    );
    assert_eq!(again.len(), 1);
    assert_eq!(again[0].0, "bbb2");
}

#[test]
fn a_call_without_reply_counts_as_failed() {
    let mut store = Storage::new();
    let mut prompts = Vec::new();
    let replies = |hash: &str| -> Option<(u16, String)> {
        if hash == "aaa1" {
            None
        } else if hash == "bbb2" {
            Some((200, "not a json body".to_string()))
        } else {
            all_succeed(hash)
        }
    };
    let outcome = run_pass(&mut store, &history(), &replies, &mut prompts);
    assert_eq!(
        outcome,
        SyncOutcome::Completed { succeeded: 1, failed: 2, skipped: 0, total_entries: 1 }
    );
    assert!(store.has_commit("ccc3"));
}

#[test]
fn malformed_model_output_is_stored_as_a_fallback_record() {
    let mut store = Storage::new();
    let mut prompts = Vec::new();
    let replies = |_: &str| -> Option<(u16, String)> {
        Some((200, "{\"response\":\"I cannot help with that\"}".to_string()))
    };
    let outcome = run_pass(&mut store, &vec![commit("aaa1", "first", 100)], &replies, &mut prompts);
    assert_eq!(
        outcome,
        SyncOutcome::Completed { succeeded: 1, failed: 0, skipped: 0, total_entries: 1 }
    );
    assert_eq!(
        store.get_latest_context_summary(),
        Some("Raw LLM response: I cannot help with that".to_string())
    );
}

#[test]
fn an_empty_range_ends_the_pass() {
    let mut store = Storage::new();
    let mut prompts = Vec::new();
    let outcome = run_pass(&mut store, &vec![], &all_succeed, &mut prompts);
    assert_eq!(outcome, SyncOutcome::NothingToProcess);
    assert!(prompts.is_empty());
}

#[test]
fn an_unreachable_backend_ends_the_pass_before_any_extraction() {
    let store = Storage::new();
    let (mut session, _) = SyncSession::begin(None, Some(3), 10, 7);
    assert_eq!(session.on_candidates(&store, &history()), SyncAction::ProbeBackend);
    assert_eq!(session.stage, SyncStage::Probing);
    assert_eq!(session.on_probe(false), SyncAction::Finish(SyncOutcome::BackendUnreachable));
    assert_eq!(session.stage, SyncStage::Finished);
    assert_eq!(session.succeeded, 0);
    assert_eq!(session.failed, 0);
    assert_eq!(store.get_context_count(), 0);
}

#[test]
fn an_unresolved_reference_ends_the_pass() {
    let (mut session, first) = SyncSession::begin(Some("nope".to_string()), Some(3), 10, 7);
    assert_eq!(first, SyncAction::Resolve(RangeSelector::Since { from: "nope".to_string() }));
    assert_eq!(session.on_resolve_failed(), SyncAction::Finish(SyncOutcome::InvalidReference));
    assert_eq!(session.stage, SyncStage::Finished);
}

#[test]
fn a_commit_without_diff_counts_as_failed() {
    let mut store = Storage::new();
    let (mut session, _) = SyncSession::begin(None, None, 10, 7);
    session.on_candidates(&store, &history());
    assert_eq!(session.on_probe(true), SyncAction::FetchDiff { hash: "aaa1".to_string() });
    assert_eq!(session.last_failure, None);
    assert_eq!(session.on_diff(&store, None), SyncAction::FetchDiff { hash: "bbb2".to_string() });
    assert_eq!(session.last_failure, Some(CommitFailure::DiffUnavailable));
    assert_eq!(session.failed, 1);
    assert_eq!(session.cursor, 1);
    let action = session.on_diff(&store, Some("+++ b/x\n"));
    assert!(matches!(action, SyncAction::Generate { .. }));
    assert_eq!(session.files, vec!["x".to_string()]);
    let body = body_with_summary("s");
    let action = session.on_reply(&mut store, Some((200, body.as_str())), NOW);
    assert_eq!(action, SyncAction::FetchDiff { hash: "ccc3".to_string() });
    assert_eq!(session.last_failure, None);
    assert_eq!(session.on_diff(&store, None), SyncAction::Finish(SyncOutcome::Completed {
        succeeded: 1,
        failed: 2,
        skipped: 0,
        total_entries: 1,
    }));
}

#[test]
fn an_event_out_of_turn_is_ignored() {
    let mut store = Storage::new();
    let (mut session, _) = SyncSession::begin(None, None, 10, 7);
    assert_eq!(session.on_probe(true), SyncAction::Ignored);
    assert_eq!(session.on_diff(&store, Some("d")), SyncAction::Ignored);
    assert_eq!(session.on_reply(&mut store, None, NOW), SyncAction::Ignored);
    assert_eq!(session.stage, SyncStage::Resolving);
    session.on_candidates(&store, &history());
    assert_eq!(session.on_candidates(&store, &history()), SyncAction::Ignored);
    assert_eq!(session.on_resolve_failed(), SyncAction::Ignored);
    assert_eq!(session.stage, SyncStage::Probing);
    assert_eq!(session.pending.len(), 3);
}

#[test]
fn negative_ttl_days_store_an_expired_row() {
    let mut store = Storage::new();
    let (mut session, _) = SyncSession::begin(None, None, 10, -1);
    session.on_candidates(&store, &vec![commit("aaa1", "first", 100)]);
    session.on_probe(true);
    session.on_diff(&store, Some(""));
    let body = body_with_summary("s");
    let action = session.on_reply(&mut store, Some((200, body.as_str())), NOW);
    assert_eq!(action, SyncAction::Finish(SyncOutcome::Completed {
        succeeded: 1,
        failed: 0,
        skipped: 0,
        total_entries: 1,
    }));
    assert!(store.get_ttl_memory(NOW).is_empty());
    assert_eq!(store.cleanup_expired_ttl(NOW), 1);
}

#[test]
fn status_reports_counts_and_the_last_commit() {
    let mut store = Storage::new();
    let report = get_sync_status(&store, 12, false);
    assert_eq!(report.total_commits, 12);
    assert_eq!(report.stored_entries, 0);
    assert_eq!(report.last_processed, None);
    assert!(!report.backend_reachable);
    let mut prompts = Vec::new();
    run_pass(&mut store, &history(), &all_succeed, &mut prompts);
    let report = get_sync_status(&store, 12, true);
    assert_eq!(report.stored_entries, 3);
    assert_eq!(report.last_processed, Some("ccc3".to_string()));
    assert!(report.backend_reachable);
}

fn awaiting_reply(store: &Storage) -> SyncSession {
    let (mut session, _) = SyncSession::begin(None, None, 10, 7);
    session.on_candidates(store, &vec![commit("aaa1", "first", 100)]);
    session.on_probe(true);
    session.on_diff(store, Some("+++ b/x\n"));
    assert_eq!(session.stage, SyncStage::AwaitingReply);
    session
}

#[test]
fn each_failure_is_told_apart() {
    let mut store = Storage::new();

    let mut session = awaiting_reply(&store);
    session.on_reply(&mut store, None, NOW);
    assert_eq!(session.last_failure, Some(CommitFailure::NoReply));

    let mut session = awaiting_reply(&store);
    session.on_reply(&mut store, Some((502, "bad gateway")), NOW);
    assert_eq!(session.last_failure, Some(CommitFailure::Backend { status: 502 }));
    assert_eq!(ExtractError::Backend { status: 502 }, ExtractError::Backend { status: 502 });

    let mut session = awaiting_reply(&store);
    session.on_reply(&mut store, Some((200, "{}")), NOW);
    assert_eq!(session.last_failure, Some(CommitFailure::MalformedReply));
    assert_eq!(session.failed, 1);
    assert_eq!(session.succeeded, 0);
    assert_eq!(store.get_context_count(), 0);
    assert!(store.get_all_ttl_memory().is_empty());
}

#[test]
fn a_full_store_fails_the_commit() {
    let mut store = Storage::new();
    store
        .restore_global_context(GlobalContext {
            id: i64::MAX - 1,
            commit_hash: "zzz".to_string(),
            commit_message: String::new(),
            commit_date: 0,
            context_summary: "earlier".to_string(),
            files_changed: "[]".to_string(),
            llm_extracted_context: String::new(),
            created_at: 0,
        })
        .unwrap();
    let mut session = awaiting_reply(&store);
    let body = body_with_summary("s");
    let action = session.on_reply(&mut store, Some((200, body.as_str())), NOW);
    assert_eq!(session.last_failure, Some(CommitFailure::Store(StoreError::Full)));
    assert_eq!(action, SyncAction::Finish(SyncOutcome::Completed {
        succeeded: 0,
        failed: 1,
        skipped: 0,
        total_entries: 1,
    }));
    assert!(!store.has_commit("aaa1"));
    assert!(store.get_all_ttl_memory().is_empty());
}

#[test]
fn a_full_memory_table_fails_the_commit_after_its_durable_row() {
    let mut store = Storage::new();
    store
        .restore_ttl_memory(TtlMemory {
            id: i64::MAX - 1,
            commit_hash: "zzz".to_string(),
            content: String::new(),
            expires_at: 0,
            created_at: 0,
        })
        .unwrap();
    let mut session = awaiting_reply(&store);
    let body = body_with_summary("s");
    session.on_reply(&mut store, Some((200, body.as_str())), NOW);
    assert_eq!(session.last_failure, Some(CommitFailure::Store(StoreError::Full)));
    assert_eq!(session.failed, 1);
    assert!(store.has_commit("aaa1"));
    assert_eq!(store.get_all_ttl_memory().len(), 1);
}

#[test]
fn an_extraction_is_stored_with_the_text_it_was_read_from() {
    let mut store = Storage::new();
    let mut session = awaiting_reply(&store);
    assert_eq!(session.files_json, "[\"x\"]");
    let text = "{\"summary\":\"Adds x\"}";
    let action =
        session.on_extraction(&mut store, Ok((parse_response(text), text.to_string())), NOW);
    assert_eq!(action, SyncAction::Finish(SyncOutcome::Completed {
        succeeded: 1,
        failed: 0,
        skipped: 0,
        total_entries: 1,
    }));
    assert_eq!(session.last_failure, None);
    let rows = store.get_global_context();
    assert_eq!(rows[0].commit_hash, "aaa1");
    assert_eq!(rows[0].context_summary, "Adds x");
    assert_eq!(rows[0].files_changed, "[\"x\"]");
    assert_eq!(rows[0].llm_extracted_context, text);
    let memory = store.get_all_ttl_memory();
    assert_eq!(memory.len(), 1);
    assert_eq!(memory[0].content, "Adds x");
    assert_eq!(memory[0].expires_at, NOW + 604_800);
}

#[test]
fn a_failed_extraction_leaves_the_store_alone() {
    let mut store = Storage::new();
    let mut session = awaiting_reply(&store);
    let action =
        session.on_extraction(&mut store, Err(CommitFailure::Backend { status: 503 }), NOW);
    assert_eq!(action, SyncAction::Finish(SyncOutcome::Completed {
        succeeded: 0,
        failed: 1,
        skipped: 0,
        total_entries: 0,
    }));
    assert_eq!(session.last_failure, Some(CommitFailure::Backend { status: 503 }));
    assert_eq!(store.get_context_count(), 0);
    assert!(store.get_all_ttl_memory().is_empty());
}
