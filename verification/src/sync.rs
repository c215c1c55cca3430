//! One synchronisation pass as a state machine. The session decides; its
//! driver performs each action it is handed (resolve the candidates, probe
//! the backend, compute a diff, call the generation endpoint) and reports
//! back what happened.

use vstd::prelude::*;
use vstd::string::*;
use crate::git::{changed_files, changed_paths, commit_views, CommitInfo, CommitView};
use crate::json::{encode_string_list, json_string_list, texts};
use crate::llm::{
    build_prompt, decode_reply, extraction_from_reply, extraction_result, prompt_text, reply_text,
    ContextView, ExtractError, ExtractedContext,
};
use crate::storage::{
    durable_wf, expiry, has_hash, lemma_latest_after_store, lemma_upsert_replaces, remembered,
    upserted, GlobalContextView, Storage, StoreError, TtlMemoryView,
};

verus! {

/// Which commits a pass starts from.
#[derive(Debug, PartialEq, Eq)]
pub enum RangeSelector {
    /// Everything reachable from the head but not from `from`.
    Since { from: String },
    /// The `limit` most recent commits reachable from the head.
    Latest { limit: usize },
}

/// Picks the candidates of a pass: an explicit starting reference wins over
/// a count, a count over the configured window.
pub fn select_range(from_commit: Option<String>, last_n: Option<usize>, default_window: usize) -> (selector:
    RangeSelector)
    ensures
        selector == match from_commit {
            Some(from) => RangeSelector::Since { from },
            None => RangeSelector::Latest {
                limit: match last_n {
                    Some(n) => n,
                    None => default_window,
                },
            },
        },
{
    match from_commit {
        Some(from) => RangeSelector::Since { from },
        None => match last_n {
            Some(n) => RangeSelector::Latest { limit: n },
            None => RangeSelector::Latest { limit: default_window },
        },
    }
}

/// `commits` in the opposite order.
pub open spec fn oldest_first(commits: Seq<CommitView>) -> Seq<CommitView> {
    Seq::new(commits.len(), |i: int| commits[commits.len() - 1 - i])
}

/// The commits of `commits` that have no durable row yet, in their order.
pub open spec fn unprocessed(rows: Seq<GlobalContextView>, commits: Seq<CommitView>) -> Seq<
    CommitView,
>
    decreases commits.len(),
{
    if commits.len() == 0 {
        commits
    } else {
        let rest = unprocessed(rows, commits.drop_last());
        if has_hash(rows, commits.last().hash) {
            rest
        } else {
            rest.push(commits.last())
        }
    }
}

/// The work of a pass: the candidates, which come newest first, turned
/// oldest first, without those that have a durable row.
pub open spec fn planned(rows: Seq<GlobalContextView>, candidates: Seq<CommitView>) -> Seq<
    CommitView,
> {
    unprocessed(rows, oldest_first(candidates))
}

/// Orders the candidates oldest first and drops those already stored.
pub fn plan_batch(candidates: &Vec<CommitInfo>, store: &Storage) -> (pending: Vec<CommitInfo>)
    ensures
        commit_views(pending@) == planned(store.durable(), commit_views(candidates@)),
        pending.len() == planned(store.durable(), commit_views(candidates@)).len(),
        pending.len() <= candidates.len(),
{
    let ghost rows = store.durable();
    let ghost turned = oldest_first(commit_views(candidates@));
    let n = candidates.len();
    let mut pending: Vec<CommitInfo> = Vec::new();
    let mut k: usize = 0;
    assert(commit_views(pending@) =~= unprocessed(rows, turned.take(0)));
    while k < n
        invariant
            n == candidates.len(),
            k <= n,
            rows == store.durable(),
            turned == oldest_first(commit_views(candidates@)),
            pending.len() <= k,
            commit_views(pending@) == unprocessed(rows, turned.take(k as int)),
        decreases n - k,
    {
        let commit = &candidates[n - 1 - k];
        assert(turned.take(k + 1).drop_last() =~= turned.take(k as int));
        assert(turned.take(k + 1).last() == commit@);
        if !store.has_commit(commit.hash.as_str()) {
            let ghost before = commit_views(pending@);
            pending.push(commit.clone());
            assert(commit_views(pending@) =~= before.push(commit@));
        }
        k = k + 1;
    }
    assert(turned.take(n as int) =~= turned);
    pending
}

/// Where a pass stands.
#[derive(Clone, Copy, Debug, PartialEq, Eq, Structural)]
pub enum SyncStage {
    /// Waiting for the candidates.
    Resolving,
    /// Waiting for the answer of the reachability probe.
    Probing,
    /// Waiting for the diff of the commit under the cursor.
    AwaitingDiff,
    /// Waiting for the reply to the prompt of the commit under the cursor.
    AwaitingReply,
    /// Nothing more to do.
    Finished,
}

/// How a pass ended.
#[derive(Debug, PartialEq, Eq)]
pub enum SyncOutcome {
    /// The range held no commit.
    NothingToProcess,
    /// Every candidate had a durable row already.
    AlreadyProcessed { skipped: usize },
    /// A range endpoint did not resolve to a commit.
    InvalidReference,
    /// The backend did not answer the probe; nothing was extracted.
    BackendUnreachable,
    /// Every pending commit was attempted.
    Completed { succeeded: usize, failed: usize, skipped: usize, total_entries: usize },
}

/// What the driver is to do next.
#[derive(Debug, PartialEq, Eq)]
pub enum SyncAction {
    /// Resolve the candidates, newest first.
    Resolve(RangeSelector),
    /// Probe the backend.
    ProbeBackend,
    /// Compute the diff of this commit.
    FetchDiff { hash: String },
    /// Send this prompt to the generation endpoint.
    Generate { prompt: String },
    /// Stop and report.
    Finish(SyncOutcome),
    /// The event does not belong to the stage the session is in; nothing
    /// changed.
    Ignored,
}

/// Why a commit produced no summary.
#[derive(Debug, PartialEq, Eq)]
pub enum CommitFailure {
    /// Its diff could not be computed.
    DiffUnavailable,
    /// The call to the backend brought no response.
    NoReply,
    /// The backend answered with a status outside 200..=299.
    Backend { status: u16 },
    /// The backend answered with success but the body carried no reply text.
    MalformedReply,
    /// The store refused the record.
    Store(StoreError),
}

/// One synchronisation pass.
#[derive(Debug, PartialEq, Eq)]
pub struct SyncSession {
    pub stage: SyncStage,
    /// The commits to process, oldest first.
    pub pending: Vec<CommitInfo>,
    /// The commit being processed.
    pub cursor: usize,
    pub skipped: usize,
    pub succeeded: usize,
    pub failed: usize,
    /// The files changed by the commit under the cursor, once its diff is in.
    pub files: Vec<String>,
    /// The JSON text of that list, as the store keeps it.
    pub files_json: String,
    pub ttl_days: i32,
    /// Why the commit attempted last produced no summary, if it did not.
    pub last_failure: Option<CommitFailure>,
}

/// The summary offered to the next extraction: that of the durable row with
/// the most recent commit date.
pub open spec fn latest_summary(rows: Seq<GlobalContextView>) -> Option<Seq<char>> {
    if rows.len() == 0 {
        None
    } else {
        Some(rows[0].context_summary)
    }
}

impl SyncSession {
    /// The invariant of a session: the cursor stays within the batch, each
    /// commit before it was counted once, and a session that waits for a diff
    /// or a reply has a commit under the cursor.
    pub open spec fn wf(&self) -> bool {
        &&& self.cursor <= self.pending.len()
        &&& self.succeeded + self.failed == self.cursor
        &&& (self.stage == SyncStage::AwaitingDiff || self.stage == SyncStage::AwaitingReply)
            ==> self.cursor < self.pending.len()
        &&& (self.stage == SyncStage::Resolving) ==> self.pending.len() == 0
    }

    /// The same batch and settings as `other`.
    pub open spec fn same_batch(&self, other: &SyncSession) -> bool {
        &&& self.pending == other.pending
        &&& self.skipped == other.skipped
        &&& self.ttl_days == other.ttl_days
    }

    /// What follows once the commit before the cursor is done: the diff of
    /// the next commit, or the end of the pass with its counts.
    pub open spec fn proceeds(&self, action: SyncAction, total_entries: int) -> bool {
        if self.cursor < self.pending.len() {
            &&& self.stage == SyncStage::AwaitingDiff
            &&& action matches SyncAction::FetchDiff { hash }
            &&& hash@ == self.pending[self.cursor as int].hash@
        } else {
            &&& self.stage == SyncStage::Finished
            &&& action == SyncAction::Finish(
                SyncOutcome::Completed {
                    succeeded: self.succeeded,
                    failed: self.failed,
                    skipped: self.skipped,
                    total_entries: total_entries as usize,
                },
            )
        }
    }

    /// Opens a pass and asks for its candidates.
    pub fn begin(
        from_commit: Option<String>,
        last_n: Option<usize>,
        default_window: usize,
        ttl_days: i32,
    ) -> (out: (SyncSession, SyncAction))
        ensures
            out.0.wf(),
            out.0.stage == SyncStage::Resolving,
            out.0.pending.len() == 0,
            out.0.cursor == 0 && out.0.skipped == 0 && out.0.succeeded == 0 && out.0.failed == 0,
            out.0.files.len() == 0,
            out.0.files_json@.len() == 0,
            out.0.ttl_days == ttl_days,
            out.0.last_failure is None,
            out.1 == SyncAction::Resolve(
                match from_commit {
                    Some(from) => RangeSelector::Since { from },
                    None => RangeSelector::Latest {
                        limit: match last_n {
                            Some(n) => n,
                            None => default_window,
                        },
                    },
                },
            ),
    {
        let selector = select_range(from_commit, last_n, default_window);
        let session = SyncSession {
            stage: SyncStage::Resolving,
            pending: Vec::new(),
            cursor: 0,
            skipped: 0,
            succeeded: 0,
            failed: 0,
            files: Vec::new(),
            files_json: String::new(),
            ttl_days,
            last_failure: None,
        };
        (session, SyncAction::Resolve(selector))
    }

    /// Takes the candidates, newest first. An empty range ends the pass; so
    /// does a range whose commits all have a durable row. Otherwise the
    /// commits without one are queued oldest first and the backend is probed
    /// before anything is extracted.
    pub fn on_candidates(&mut self, store: &Storage, candidates: &Vec<CommitInfo>) -> (action:
        SyncAction)
        requires
            old(self).wf(),
        ensures
            final(self).wf(),
            old(self).stage != SyncStage::Resolving ==> *final(self) == *old(self) && action
                == SyncAction::Ignored,
            old(self).stage == SyncStage::Resolving ==> {
                &&& final(self).ttl_days == old(self).ttl_days
                &&& final(self).files == old(self).files
                &&& final(self).files_json == old(self).files_json
                &&& final(self).last_failure == old(self).last_failure
                &&& final(self).cursor == 0 && final(self).succeeded == 0 && final(self).failed == 0
                &&& commit_views(final(self).pending@) == planned(
                    store.durable(),
                    commit_views(candidates@),
                )
                &&& final(self).skipped == candidates.len() - final(self).pending.len()
                &&& if candidates.len() == 0 {
                    final(self).stage == SyncStage::Finished && action == SyncAction::Finish(
                        SyncOutcome::NothingToProcess,
                    )
                } else if final(self).pending.len() == 0 {
                    final(self).stage == SyncStage::Finished && action == SyncAction::Finish(
                        SyncOutcome::AlreadyProcessed { skipped: candidates.len() },
                    )
                } else {
                    final(self).stage == SyncStage::Probing && action == SyncAction::ProbeBackend
                }
            },
    {
        if self.stage != SyncStage::Resolving {
            return SyncAction::Ignored;
        }
        let pending = plan_batch(candidates, store);
        self.skipped = candidates.len() - pending.len();
        self.pending = pending;
        self.cursor = 0;
        self.succeeded = 0;
        self.failed = 0;
        if candidates.len() == 0 {
            self.stage = SyncStage::Finished;
            SyncAction::Finish(SyncOutcome::NothingToProcess)
        } else if self.pending.len() == 0 {
            self.stage = SyncStage::Finished;
            SyncAction::Finish(SyncOutcome::AlreadyProcessed { skipped: self.skipped })
        } else {
            self.stage = SyncStage::Probing;
            SyncAction::ProbeBackend
        }
    }

    /// Takes the news that a range endpoint did not resolve: the pass ends
    /// before any commit is touched.
    pub fn on_resolve_failed(&mut self) -> (action: SyncAction)
        requires
            old(self).wf(),
        ensures
            final(self).wf(),
            old(self).stage != SyncStage::Resolving ==> *final(self) == *old(self) && action
                == SyncAction::Ignored,
            old(self).stage == SyncStage::Resolving ==> {
                &&& final(self).stage == SyncStage::Finished
                &&& action == SyncAction::Finish(SyncOutcome::InvalidReference)
                &&& final(self).same_batch(old(self))
                &&& final(self).files == old(self).files
                &&& final(self).files_json == old(self).files_json
                &&& final(self).last_failure == old(self).last_failure
                &&& final(self).cursor == old(self).cursor
                &&& final(self).succeeded == old(self).succeeded
                &&& final(self).failed == old(self).failed
            },
    {
        if self.stage != SyncStage::Resolving {
            return SyncAction::Ignored;
        }
        self.stage = SyncStage::Finished;
        SyncAction::Finish(SyncOutcome::InvalidReference)
    }

    /// Takes the answer of the probe. An unreachable backend ends the pass
    /// with nothing extracted; a reachable one starts the first commit.
    pub fn on_probe(&mut self, reachable: bool) -> (action: SyncAction)
        requires
            old(self).wf(),
        ensures
            final(self).wf(),
            old(self).stage != SyncStage::Probing ==> *final(self) == *old(self) && action
                == SyncAction::Ignored,
            old(self).stage == SyncStage::Probing ==> {
                &&& final(self).same_batch(old(self))
                &&& final(self).files == old(self).files
                &&& final(self).files_json == old(self).files_json
                &&& final(self).last_failure == old(self).last_failure
                &&& final(self).cursor == old(self).cursor
                &&& final(self).succeeded == old(self).succeeded
                &&& final(self).failed == old(self).failed
                &&& if !reachable || old(self).cursor >= old(self).pending.len() {
                    final(self).stage == SyncStage::Finished && action == SyncAction::Finish(
                        SyncOutcome::BackendUnreachable,
                    )
                } else {
                    &&& final(self).stage == SyncStage::AwaitingDiff
                    &&& action matches SyncAction::FetchDiff { hash }
                    &&& hash@ == old(self).pending[old(self).cursor as int].hash@
                }
            },
    {
        if self.stage != SyncStage::Probing {
            return SyncAction::Ignored;
        }
        if !reachable || self.cursor >= self.pending.len() {
            self.stage = SyncStage::Finished;
            return SyncAction::Finish(SyncOutcome::BackendUnreachable);
        }
        self.stage = SyncStage::AwaitingDiff;
        SyncAction::FetchDiff { hash: self.pending[self.cursor].hash.clone() }
    }

    fn advance(&mut self, total_entries: usize) -> (action: SyncAction)
        requires
            old(self).cursor < old(self).pending.len(),
            old(self).succeeded + old(self).failed == old(self).cursor + 1,
        ensures
            final(self).wf(),
            final(self).same_batch(old(self)),
            final(self).files == old(self).files,
            final(self).files_json == old(self).files_json,
            final(self).last_failure == old(self).last_failure,
            final(self).succeeded == old(self).succeeded,
            final(self).failed == old(self).failed,
            final(self).cursor == old(self).cursor + 1,
            final(self).proceeds(action, total_entries as int),
    {
        self.cursor = self.cursor + 1;
        if self.cursor < self.pending.len() {
            self.stage = SyncStage::AwaitingDiff;
            SyncAction::FetchDiff { hash: self.pending[self.cursor].hash.clone() }
        } else {
            self.stage = SyncStage::Finished;
            SyncAction::Finish(
                SyncOutcome::Completed {
                    succeeded: self.succeeded,
                    failed: self.failed,
                    skipped: self.skipped,
                    total_entries,
                },
            )
        }
    }

    /// Takes the diff of the commit under the cursor, or the news that it
    /// could not be computed (`None`). With a diff, the files it touches are
    /// listed and the list is encoded for the store, and the prompt is built
    /// from the commit message, the diff, those files and the summary of the
    /// most recent durable row. Without one, the commit is counted as failed
    /// and the pass goes on with the next.
    pub fn on_diff(&mut self, store: &Storage, diff: Option<&str>) -> (action: SyncAction)
        requires
            old(self).wf(),
            store.wf(),
        ensures
            final(self).wf(),
            old(self).stage != SyncStage::AwaitingDiff ==> *final(self) == *old(self) && action
                == SyncAction::Ignored,
            old(self).stage == SyncStage::AwaitingDiff ==> {
                &&& final(self).same_batch(old(self))
                &&& final(self).succeeded == old(self).succeeded
                &&& match diff {
                    Some(text) => diff_step(
                        *old(self),
                        store.durable(),
                        text@,
                        *final(self),
                        action,
                    ),
                    None => {
                        &&& final(self).cursor == old(self).cursor + 1
                        &&& final(self).failed == old(self).failed + 1
                        &&& final(self).files == old(self).files
                        &&& final(self).files_json == old(self).files_json
                        &&& final(self).last_failure == Some(CommitFailure::DiffUnavailable)
                        &&& final(self).proceeds(action, store.durable().len() as int)
                    },
                }
            },
    {
        if self.stage != SyncStage::AwaitingDiff {
            return SyncAction::Ignored;
        }
        match diff {
            Some(text) => {
                let files = changed_files(text);
                let previous = store.get_latest_context_summary();
                let prompt = match &previous {
                    Some(p) => build_prompt(
                        self.pending[self.cursor].message.as_str(),
                        text,
                        &files,
                        Some(p.as_str()),
                    ),
                    None => build_prompt(
                        self.pending[self.cursor].message.as_str(),
                        text,
                        &files,
                        None,
                    ),
                };
                self.files_json = encode_string_list(&files).unwrap();
                self.files = files;
                self.stage = SyncStage::AwaitingReply;
                SyncAction::Generate { prompt }
            },
            None => {
                self.failed = self.failed + 1;
                self.last_failure = Some(CommitFailure::DiffUnavailable);
                self.advance(store.get_context_count())
            },
        }
    }

    /// Takes the reply to the prompt of the commit under the cursor: the
    /// status and body of the response, or `None` where the call itself
    /// failed. The reply is read into a record, or into the reason why there
    /// is none, and the pass goes on as [`SyncSession::on_extraction`] says.
    pub fn on_reply(&mut self, store: &mut Storage, reply: Option<(u16, &str)>, now: i64) -> (action:
        SyncAction)
        requires
            old(self).wf(),
            old(store).wf(),
            i64::MIN <= expiry(now as int, old(self).ttl_days as int) <= i64::MAX,
        ensures
            final(self).wf(),
            final(store).wf(),
            old(self).stage != SyncStage::AwaitingReply ==> *final(self) == *old(self) && action
                == SyncAction::Ignored && *final(store) == *old(store),
            old(self).stage == SyncStage::AwaitingReply ==> extraction_step(
                *old(self),
                *old(store),
                reply_outcome(reply),
                now as int,
                *final(self),
                *final(store),
                action,
            ),
    {
        if self.stage != SyncStage::AwaitingReply {
            return SyncAction::Ignored;
        }
        let extraction: Result<(ExtractedContext, String), CommitFailure> = match reply {
            None => Err(CommitFailure::NoReply),
            Some((status, body)) => {
                let text = decode_reply(body);
                let read = match &text {
                    Some(t) => extraction_from_reply(status, Some(t.as_str())),
                    None => extraction_from_reply(status, None),
                };
                match read {
                    Err(ExtractError::Backend { status }) => Err(CommitFailure::Backend { status }),
                    Err(ExtractError::MalformedReply) => Err(CommitFailure::MalformedReply),
                    Ok(context) => match text {
                        Some(raw) => Ok((context, raw)),
                        None => Err(CommitFailure::MalformedReply),
                    },
                }
            },
        };
        self.on_extraction(store, extraction, now)
    }

    /// Takes what the extraction for the commit under the cursor brought: a
    /// record with the reply text it was read from, or the reason why there
    /// is none. A record is stored, as a durable row under the commit's hash
    /// and as a time-limited row; the commit counts as a success when both
    /// rows are in. Anything else counts the commit as failed, with its
    /// reason, and leaves the store as far as it got. Either way the pass goes
    /// on with the next commit.
    pub fn on_extraction(
        &mut self,
        store: &mut Storage,
        extraction: Result<(ExtractedContext, String), CommitFailure>,
        now: i64,
    ) -> (action: SyncAction)
        requires
            old(self).wf(),
            old(store).wf(),
            i64::MIN <= expiry(now as int, old(self).ttl_days as int) <= i64::MAX,
        ensures
            final(self).wf(),
            final(store).wf(),
            old(self).stage != SyncStage::AwaitingReply ==> *final(self) == *old(self) && action
                == SyncAction::Ignored && *final(store) == *old(store),
            old(self).stage == SyncStage::AwaitingReply ==> extraction_step(
                *old(self),
                *old(store),
                outcome_view(extraction),
                now as int,
                *final(self),
                *final(store),
                action,
            ),
    {
        if self.stage != SyncStage::AwaitingReply {
            return SyncAction::Ignored;
        }
        let ghost rows = store.durable();
        let failure: Option<CommitFailure> = match extraction {
            Err(reason) => Some(reason),
            Ok((context, raw)) => match self.record(store, &context, raw.as_str(), now) {
                Ok(()) => None,
                Err(e) => Some(CommitFailure::Store(e)),
            },
        };
        proof {
            let commit = self.pending[self.cursor as int]@;
            let outcome = outcome_view(extraction);
            if outcome is Ok && old(store).next_global_id() < i64::MAX {
                lemma_upsert_replaces(
                    rows,
                    durable_row(
                        old(store).next_global_id(),
                        commit,
                        outcome_summary(outcome),
                        self.files_json@,
                        outcome_raw(outcome),
                        now as int,
                    ),
                );
            }
        }
        match failure {
            None => {
                self.succeeded = self.succeeded + 1;
            },
            Some(_) => {
                self.failed = self.failed + 1;
            },
        }
        self.last_failure = failure;
        self.advance(store.get_context_count())
    }

    fn record(&self, store: &mut Storage, context: &ExtractedContext, raw: &str, now: i64) -> (out:
        Result<(), StoreError>)
        requires
            self.cursor < self.pending.len(),
            old(store).wf(),
            i64::MIN <= expiry(now as int, self.ttl_days as int) <= i64::MAX,
        ensures
            final(store).wf(),
            ({
                let commit = self.pending[self.cursor as int]@;
                let durable_in = old(store).next_global_id() < i64::MAX;
                let both_in = durable_in && old(store).next_ttl_id() < i64::MAX;
                &&& match out {
                    Ok(_) => store_refusal(*old(store)) is None,
                    Err(e) => store_refusal(*old(store)) == Some(e),
                }
                &&& both_in <==> out is Ok
                &&& final(store).next_global_id() == old(store).next_global_id() + if durable_in {
                    1int
                } else {
                    0int
                }
                &&& final(store).next_ttl_id() == old(store).next_ttl_id() + if both_in {
                    1int
                } else {
                    0int
                }
                &&& final(store).ephemeral().len() == old(store).ephemeral().len() + if both_in {
                    1int
                } else {
                    0int
                }
                &&& final(store).durable() == if durable_in {
                    upserted(
                        old(store).durable(),
                        durable_row(
                            old(store).next_global_id(),
                            commit,
                            context.summary@,
                            self.files_json@,
                            raw@,
                            now as int,
                        ),
                    )
                } else {
                    old(store).durable()
                }
                &&& final(store).ephemeral() == if both_in {
                    remembered(
                        old(store).ephemeral(),
                        memory_row(
                            old(store).next_ttl_id(),
                            commit,
                            context.summary@,
                            now as int,
                            self.ttl_days as int,
                        ),
                    )
                } else {
                    old(store).ephemeral()
                }
            }),
    {
        let commit = &self.pending[self.cursor];
        match store.store_encoded_context(
            commit,
            context.summary.as_str(),
            self.files_json.as_str(),
            raw,
            now,
        ) {
            Err(e) => Err(e),
            Ok(()) => store.store_ttl_memory(
                commit.hash.as_str(),
                context.summary.as_str(),
                self.ttl_days,
                now,
            ),
        }
    }
}

/// What an extraction brought, as content: the record and the reply text it
/// was read from, or the reason why there is none.
pub open spec fn outcome_view(extraction: Result<(ExtractedContext, String), CommitFailure>) -> Result<
    (ContextView, Seq<char>),
    CommitFailure,
> {
    match extraction {
        Ok((context, raw)) => Ok((context@, raw@)),
        Err(reason) => Err(reason),
    }
}

/// What a reply brings: nothing but a reason where the call failed, the
/// backend refused, or the body carried no reply text; otherwise the record
/// read from the reply text, with that text.
pub open spec fn reply_outcome(reply: Option<(u16, &str)>) -> Result<
    (ContextView, Seq<char>),
    CommitFailure,
> {
    match reply {
        None => Err(CommitFailure::NoReply),
        Some((status, body)) => match extraction_result(status, reply_text(body@)) {
            Err(ExtractError::Backend { status }) => Err(CommitFailure::Backend { status }),
            Err(ExtractError::MalformedReply) => Err(CommitFailure::MalformedReply),
            Ok(record) => match reply_text(body@) {
                Some(text) => Ok((record, text)),
                None => Err(CommitFailure::MalformedReply),
            },
        },
    }
}

/// The summary an extraction brought.
pub open spec fn outcome_summary(outcome: Result<(ContextView, Seq<char>), CommitFailure>) -> Seq<
    char,
> {
    match outcome {
        Ok((record, _)) => record.summary,
        Err(_) => Seq::empty(),
    }
}

/// The reply text an extraction was read from.
pub open spec fn outcome_raw(outcome: Result<(ContextView, Seq<char>), CommitFailure>) -> Seq<
    char,
> {
    match outcome {
        Ok((_, raw)) => raw,
        Err(_) => Seq::empty(),
    }
}

/// Why the store refuses a record, if it does: each table must have an
/// identifier left.
pub open spec fn store_refusal(store: Storage) -> Option<StoreError> {
    if store.next_global_id() == i64::MAX || store.next_ttl_id() == i64::MAX {
        Some(StoreError::Full)
    } else {
        None
    }
}

/// Why a commit is left without a summary, if it is: the reason the
/// extraction gave, or the refusal of the store.
pub open spec fn step_failure(
    store: Storage,
    outcome: Result<(ContextView, Seq<char>), CommitFailure>,
) -> Option<CommitFailure> {
    match outcome {
        Err(reason) => Some(reason),
        Ok(_) => match store_refusal(store) {
            None => None,
            Some(e) => Some(CommitFailure::Store(e)),
        },
    }
}

/// The durable row for a commit and the summary extracted for it. The raw
/// payload is the reply text the summary was read from.
pub open spec fn durable_row(
    id: int,
    commit: CommitView,
    summary: Seq<char>,
    files_json: Seq<char>,
    raw: Seq<char>,
    now: int,
) -> GlobalContextView {
    GlobalContextView {
        id,
        commit_hash: commit.hash,
        commit_message: commit.message,
        commit_date: commit.date,
        context_summary: summary,
        files_changed: files_json,
        llm_extracted_context: raw,
        created_at: now,
    }
}

/// The time-limited row for a commit and the summary extracted for it.
pub open spec fn memory_row(
    id: int,
    commit: CommitView,
    summary: Seq<char>,
    now: int,
    ttl_days: int,
) -> TtlMemoryView {
    TtlMemoryView {
        id,
        commit_hash: commit.hash,
        content: summary,
        expires_at: expiry(now, ttl_days),
        created_at: now,
    }
}

/// One step of a pass that waits for a reply: from the session `pre` and the
/// store `before`, given what the extraction brought, to the session `post`,
/// the store `after` and the next action.
///
/// The durable row goes in when there is a record and an identifier is left; the time-limited row follows when
/// its table has an identifier left too, and only then does the commit count
/// as a success. No durable row is ever lost, and the pass moves on to the
/// next commit whatever happened.
pub open spec fn extraction_step(
    pre: SyncSession,
    before: Storage,
    outcome: Result<(ContextView, Seq<char>), CommitFailure>,
    now: int,
    post: SyncSession,
    after: Storage,
    action: SyncAction,
) -> bool {
    let commit = pre.pending[pre.cursor as int]@;
    let durable_in = outcome is Ok && before.next_global_id() < i64::MAX;
    let both_in = durable_in && before.next_ttl_id() < i64::MAX;
    &&& post.same_batch(&pre)
    &&& post.files == pre.files
    &&& post.files_json == pre.files_json
    &&& post.last_failure == step_failure(before, outcome)
    &&& both_in <==> post.last_failure is None
    &&& post.cursor == pre.cursor + 1
    &&& post.succeeded == pre.succeeded + if both_in {
        1int
    } else {
        0int
    }
    &&& post.failed == pre.failed + if both_in {
        0int
    } else {
        1int
    }
    &&& after.durable() == if durable_in {
        upserted(
            before.durable(),
            durable_row(
                before.next_global_id(),
                commit,
                outcome_summary(outcome),
                pre.files_json@,
                outcome_raw(outcome),
                now,
            ),
        )
    } else {
        before.durable()
    }
    &&& after.ephemeral() == if both_in {
        remembered(
            before.ephemeral(),
            memory_row(before.next_ttl_id(), commit, outcome_summary(outcome), now, pre.ttl_days as int),
        )
    } else {
        before.ephemeral()
    }
    &&& after.next_global_id() == before.next_global_id() + if durable_in {
        1int
    } else {
        0int
    }
    &&& after.next_ttl_id() == before.next_ttl_id() + if both_in {
        1int
    } else {
        0int
    }
    &&& after.ephemeral().len() == before.ephemeral().len() + if both_in {
        1int
    } else {
        0int
    }
    &&& durable_in ==> has_hash(after.durable(), commit.hash)
    &&& forall|h: Seq<char>| has_hash(before.durable(), h) ==> has_hash(after.durable(), h)
    &&& post.proceeds(action, after.durable().len() as int)
}

/// Where the store stands against the repository.
#[derive(Debug, PartialEq, Eq)]
pub struct StatusReport {
    /// How many commits the head reaches.
    pub total_commits: usize,
    /// How many durable rows there are.
    pub stored_entries: usize,
    /// The hash of the most recently committed durable row.
    pub last_processed: Option<String>,
    pub backend_reachable: bool,
}

/// Reports where the store stands; nothing is changed.
pub fn get_sync_status(store: &Storage, total_commits: usize, backend_reachable: bool) -> (report:
    StatusReport)
    requires
        store.wf(),
    ensures
        report.total_commits == total_commits,
        report.backend_reachable == backend_reachable,
        report.stored_entries == store.durable().len(),
        match report.last_processed {
            Some(hash) => store.durable().len() > 0 && hash@ == store.durable()[0].commit_hash,
            None => store.durable().len() == 0,
        },
{
    StatusReport {
        total_commits,
        stored_entries: store.get_context_count(),
        last_processed: store.get_last_processed_commit(),
        backend_reachable,
    }
}

// ---------------------------------------------------------------------------
// Laws
// ---------------------------------------------------------------------------

/// A second pass over commits that all have a durable row finds nothing to
/// do: every candidate is skipped.
pub proof fn lemma_stored_commits_are_skipped(
    rows: Seq<GlobalContextView>,
    candidates: Seq<CommitView>,
)
    requires
        forall|i: int| 0 <= i < candidates.len() ==> has_hash(rows, (#[trigger] candidates[i]).hash),
    ensures
        planned(rows, candidates).len() == 0,
{
    lemma_unprocessed_none(rows, oldest_first(candidates));
}

proof fn lemma_unprocessed_none(rows: Seq<GlobalContextView>, commits: Seq<CommitView>)
    requires
        forall|i: int| 0 <= i < commits.len() ==> has_hash(rows, (#[trigger] commits[i]).hash),
    ensures
        unprocessed(rows, commits).len() == 0,
    decreases commits.len(),
{
    if commits.len() > 0 {
        let front = commits.drop_last();
        assert forall|i: int| 0 <= i < front.len() implies has_hash(
            rows,
            (#[trigger] front[i]).hash,
        ) by {
            assert(front[i] == commits[i]);
        }
        lemma_unprocessed_none(rows, front);
        assert(has_hash(rows, commits[commits.len() - 1].hash));
    }
}

/// The plan keeps the order of history: what is queued is a selection of the
/// candidates taken oldest first, it holds no commit that has a durable row,
/// and it holds every candidate that has none.
pub proof fn lemma_plan_selects(rows: Seq<GlobalContextView>, commits: Seq<CommitView>)
    ensures
        unprocessed(rows, commits).len() <= commits.len(),
        forall|i: int|
            0 <= i < unprocessed(rows, commits).len() ==> !has_hash(
                rows,
                (#[trigger] unprocessed(rows, commits)[i]).hash,
            ) && commits.contains(unprocessed(rows, commits)[i]),
        forall|i: int|
            0 <= i < commits.len() && !has_hash(rows, (#[trigger] commits[i]).hash) ==> unprocessed(
                rows,
                commits,
            ).contains(commits[i]),
    decreases commits.len(),
{
    if commits.len() > 0 {
        let front = commits.drop_last();
        let last = commits.last();
        lemma_plan_selects(rows, front);
        let out = unprocessed(rows, commits);
        let before = unprocessed(rows, front);
        assert forall|i: int| 0 <= i < out.len() implies !has_hash(rows, (#[trigger] out[i]).hash)
            && commits.contains(out[i]) by {
            if i < before.len() {
                assert(out[i] == before[i]);
                let k = choose|k: int| 0 <= k < front.len() && front[k] == before[i];
                assert(commits[k] == out[i]);
            } else {
                assert(commits[commits.len() - 1] == out[i]);
            }
        }
        assert forall|i: int| 0 <= i < commits.len() && !has_hash(
            rows,
            (#[trigger] commits[i]).hash,
        ) implies out.contains(commits[i]) by {
            if i < front.len() {
                assert(front[i] == commits[i]);
                let k = choose|k: int| 0 <= k < before.len() && before[k] == commits[i];
                assert(out[k] == commits[i]);
            } else {
                assert(out[out.len() - 1] == commits[i]);
            }
        }
    }
}

/// The durable rows after each row of `stored` was stored in turn.
pub open spec fn stored_all(rows: Seq<GlobalContextView>, stored: Seq<GlobalContextView>) -> Seq<
    GlobalContextView,
>
    decreases stored.len(),
{
    if stored.len() == 0 {
        rows
    } else {
        upserted(stored_all(rows, stored.drop_last()), stored.last())
    }
}

proof fn lemma_stored_all_holds(rows: Seq<GlobalContextView>, stored: Seq<GlobalContextView>)
    requires
        durable_wf(rows),
    ensures
        durable_wf(stored_all(rows, stored)),
        forall|h: Seq<char>| has_hash(rows, h) ==> has_hash(stored_all(rows, stored), h),
        forall|i: int|
            0 <= i < stored.len() ==> has_hash(
                stored_all(rows, stored),
                (#[trigger] stored[i]).commit_hash,
            ),
    decreases stored.len(),
{
    if stored.len() > 0 {
        let front = stored.drop_last();
        let last = stored.last();
        lemma_stored_all_holds(rows, front);
        let before = stored_all(rows, front);
        lemma_upsert_replaces(before, last);
        let after = stored_all(rows, stored);
        assert forall|h: Seq<char>| has_hash(before, h) implies has_hash(after, h) by {
            if h != last.commit_hash {
                assert(has_hash(after, h) <==> has_hash(before, h));
            }
        }
        assert forall|i: int| 0 <= i < stored.len() implies has_hash(
            after,
            (#[trigger] stored[i]).commit_hash,
        ) by {
            if i < front.len() {
                assert(front[i] == stored[i]);
                assert(has_hash(before, front[i].commit_hash));
            }
        }
    }
}

/// A pass is idempotent: once every commit that a pass queued has been
/// stored, whatever the summaries, a second pass over the same candidates
/// queues nothing, so it adds no durable row.
pub proof fn lemma_second_pass_is_empty(
    rows: Seq<GlobalContextView>,
    candidates: Seq<CommitView>,
    stored: Seq<GlobalContextView>,
)
    requires
        durable_wf(rows),
        stored.len() == planned(rows, candidates).len(),
        forall|i: int|
            0 <= i < stored.len() ==> (#[trigger] stored[i]).commit_hash == planned(
                rows,
                candidates,
            )[i].hash,
    ensures
        durable_wf(stored_all(rows, stored)),
        planned(stored_all(rows, stored), candidates).len() == 0,
{
    let turned = oldest_first(candidates);
    let queued = planned(rows, candidates);
    let after = stored_all(rows, stored);
    lemma_stored_all_holds(rows, stored);
    lemma_plan_selects(rows, turned);
    assert forall|i: int| 0 <= i < turned.len() implies has_hash(
        after,
        (#[trigger] turned[i]).hash,
    ) by {
        if !has_hash(rows, turned[i].hash) {
            assert(queued.contains(turned[i]));
            let k = choose|k: int| 0 <= k < queued.len() && queued[k] == turned[i];
            assert(stored[k].commit_hash == turned[i].hash);
        }
    }
    lemma_unprocessed_none(after, turned);
}

/// Summaries chain in the order of history: when a commit is stored that is
/// no older than any commit in the table, the summary offered to the next
/// extraction is the one just stored.
pub proof fn lemma_next_prompt_sees_last_summary(
    rows: Seq<GlobalContextView>,
    row: GlobalContextView,
)
    requires
        durable_wf(rows),
        forall|i: int| 0 <= i < rows.len() ==> (#[trigger] rows[i]).commit_date <= row.commit_date,
    ensures
        latest_summary(upserted(rows, row)) == Some(row.context_summary),
{
    lemma_latest_after_store(rows, row);
}

/// One step of a pass that waits for a diff and gets it: from the session
/// `pre`, with the durable rows `rows` in the store, to the session `post`
/// and the prompt to send. The files the diff touches are listed and
/// encoded, and the prompt carries the commit message, the diff, those files
/// and the summary of the most recent durable row.
pub open spec fn diff_step(
    pre: SyncSession,
    rows: Seq<GlobalContextView>,
    text: Seq<char>,
    post: SyncSession,
    action: SyncAction,
) -> bool {
    &&& post.same_batch(&pre)
    &&& post.stage == SyncStage::AwaitingReply
    &&& post.cursor == pre.cursor
    &&& post.succeeded == pre.succeeded
    &&& post.failed == pre.failed
    &&& post.last_failure == pre.last_failure
    &&& texts(post.files@) == changed_paths(text)
    &&& post.files_json@ == json_string_list(changed_paths(text))
    &&& action matches SyncAction::Generate { prompt }
    &&& prompt@ == prompt_text(
        pre.pending@[pre.cursor as int].message@,
        text,
        changed_paths(text),
        latest_summary(rows),
    )
}

/// Every row of `rows` was committed at `date` or earlier.
pub open spec fn dated_up_to(rows: Seq<GlobalContextView>, date: int) -> bool {
    forall|i: int| 0 <= i < rows.len() ==> (#[trigger] rows[i]).commit_date <= date
}

/// What one step of a pass does, read off its relation.
///
/// A commit whose extraction failed leaves both tables as they were, counts
/// as one failure and keeps its reason; a commit whose extraction succeeded,
/// with identifiers left in both tables, counts as one success and has its
/// durable row. No step touches the row of another commit, and the number of
/// durable rows grows by one exactly when a commit is stored for the first
/// time. When the commit is no older than any commit in the table, its
/// summary is the one the next prompt is built with.
pub proof fn lemma_step_facts(
    pre: SyncSession,
    before: Storage,
    outcome: Result<(ContextView, Seq<char>), CommitFailure>,
    now: int,
    post: SyncSession,
    after: Storage,
    action: SyncAction,
)
    requires
        before.wf(),
        extraction_step(pre, before, outcome, now, post, after, action),
    ensures
        match outcome {
            Err(reason) => {
                &&& after.durable() == before.durable()
                &&& after.ephemeral() == before.ephemeral()
                &&& post.succeeded == pre.succeeded
                &&& post.failed == pre.failed + 1
                &&& post.last_failure == Some(reason)
            },
            Ok(_) => before.next_global_id() < i64::MAX && before.next_ttl_id() < i64::MAX ==> {
                &&& post.succeeded == pre.succeeded + 1
                &&& post.failed == pre.failed
                &&& post.last_failure is None
                &&& has_hash(after.durable(), pre.pending@[pre.cursor as int].hash@)
                &&& after.ephemeral().len() == before.ephemeral().len() + 1
            },
        },
        post.succeeded + post.failed == pre.succeeded + pre.failed + 1,
        post.proceeds(action, after.durable().len() as int),
        after.durable().len() == before.durable().len() + if outcome is Ok && before.next_global_id()
            < i64::MAX && !has_hash(before.durable(), pre.pending@[pre.cursor as int].hash@) {
            1int
        } else {
            0int
        },
        forall|h: Seq<char>|
            h != pre.pending@[pre.cursor as int].hash@ ==> (has_hash(after.durable(), h)
                <==> has_hash(before.durable(), h)),
        has_hash(before.durable(), pre.pending@[pre.cursor as int].hash@) ==> has_hash(
            after.durable(),
            pre.pending@[pre.cursor as int].hash@,
        ),
        !(outcome is Ok && before.next_global_id() < i64::MAX) ==> (has_hash(
            after.durable(),
            pre.pending@[pre.cursor as int].hash@,
        ) <==> has_hash(before.durable(), pre.pending@[pre.cursor as int].hash@)),
        forall|date: int|
            pre.pending@[pre.cursor as int].date <= date && #[trigger] dated_up_to(
                before.durable(),
                date,
            ) ==> dated_up_to(after.durable(), date),
        outcome is Ok && before.next_global_id() < i64::MAX && dated_up_to(
            before.durable(),
            pre.pending@[pre.cursor as int].date as int,
        ) ==> latest_summary(after.durable()) == Some(outcome_summary(outcome)),
        outcome is Err ==> latest_summary(after.durable()) == latest_summary(before.durable()),
{
    let commit = pre.pending@[pre.cursor as int]@;
    let rows = before.durable();
    if outcome is Ok && before.next_global_id() < i64::MAX {
        let row = durable_row(
            before.next_global_id(),
            commit,
            outcome_summary(outcome),
            pre.files_json@,
            outcome_raw(outcome),
            now,
        );
        lemma_upsert_replaces(rows, row);
        let out = upserted(rows, row);
        assert(after.durable() == out);
        assert forall|date: int| commit.date <= date && #[trigger] dated_up_to(
            rows,
            date,
        ) implies dated_up_to(out, date) by {
            assert forall|i: int| 0 <= i < out.len() implies (#[trigger] out[i]).commit_date
                <= date by {
                if out[i] != row {
                    let k = choose|k: int| 0 <= k < rows.len() && rows[k] == out[i];
                    assert(rows[k].commit_date <= date);
                }
            }
        }
        if dated_up_to(rows, commit.date) {
            lemma_latest_after_store(rows, row);
        }
    }
}

/// One commit's turn in a pass: the session as it asks for the diff, the
/// store before, the diff and the prompt built from it, the session as it
/// waits for the reply, what the extraction brought and when, and the
/// session, the store and the action after.
pub struct Turn {
    pub asked: SyncSession,
    pub before: Storage,
    pub diff: Seq<char>,
    pub generate: SyncAction,
    pub waiting: SyncSession,
    pub outcome: Result<(ContextView, Seq<char>), CommitFailure>,
    pub now: int,
    pub done: SyncSession,
    pub after: Storage,
    pub action: SyncAction,
}

/// The turn is made of two steps of a pass: the diff comes in as `diff_step`
/// says, then the extraction as `extraction_step` says.
pub open spec fn turn_holds(t: Turn) -> bool {
    &&& t.asked.wf()
    &&& t.asked.stage == SyncStage::AwaitingDiff
    &&& t.before.wf()
    &&& diff_step(t.asked, t.before.durable(), t.diff, t.waiting, t.generate)
    &&& extraction_step(t.waiting, t.before, t.outcome, t.now, t.done, t.after, t.action)
}

/// Turn `b` takes up where turn `a` ended.
pub open spec fn turn_follows(a: Turn, b: Turn) -> bool {
    b.asked == a.done && b.before == a.after
}

/// The summary the prompt of a turn was built with.
pub open spec fn previous_summary(t: Turn) -> Option<Seq<char>> {
    latest_summary(t.before.durable())
}

/// The turns are a whole pass over a batch: one turn for each queued commit,
/// from the first, each a step, each taking up where the one before ended.
pub open spec fn is_pass(turns: Seq<Turn>) -> bool {
    &&& turns.len() > 0
    &&& turns[0].asked.cursor == 0
    &&& turns[0].asked.succeeded == 0
    &&& turns[0].asked.failed == 0
    &&& turns[0].asked.pending@.len() == turns.len()
    &&& forall|k: int| 0 <= k < turns.len() ==> turn_holds(#[trigger] turns[k])
    &&& forall|k: int| 0 < k < turns.len() ==> turn_follows(turns[k - 1], #[trigger] turns[k])
}

/// The batch is what a plan gives: no commit stands twice in it and none has a
/// durable row.
pub open spec fn batch_is_new(rows: Seq<GlobalContextView>, pending: Seq<CommitInfo>) -> bool {
    &&& forall|i: int, j: int|
        0 <= i < j < pending.len() ==> (#[trigger] pending[i]).hash@ != (#[trigger] pending[j]).hash@
    &&& forall|i: int| 0 <= i < pending.len() ==> !has_hash(rows, (#[trigger] pending[i]).hash@)
}

/// Both tables have identifiers left for `n` more rows.
pub open spec fn has_room(store: Storage, n: int) -> bool {
    store.next_global_id() + n <= i64::MAX && store.next_ttl_id() + n <= i64::MAX
}

/// The batch follows history: no commit in it is older than the one before
/// it, and none is older than a commit in the table.
pub open spec fn in_date_order(rows: Seq<GlobalContextView>, pending: Seq<CommitInfo>) -> bool {
    &&& forall|i: int, j: int|
        0 <= i < j < pending.len() ==> (#[trigger] pending[i]).date <= (#[trigger] pending[j]).date
    &&& pending.len() > 0 ==> dated_up_to(rows, pending[0].date as int)
}

/// How many of the turns brought a record.
pub open spec fn ok_count(turns: Seq<Turn>) -> int
    decreases turns.len(),
{
    if turns.len() == 0 {
        0
    } else {
        ok_count(turns.drop_last()) + if turns.last().outcome is Ok {
            1int
        } else {
            0int
        }
    }
}

/// Where a pass stands after its first `m` turns: every commit so far was
/// counted once, as a success where its extraction brought a record and as a
/// failure where it did not; exactly the commits that brought a record have a
/// durable row and a time-limited row; every row that was there before is
/// still there; and, for a batch that follows history, the summary the next
/// prompt is built with is that of the commit stored last.
pub open spec fn after_turns(turns: Seq<Turn>, m: int) -> bool {
    let first = turns[0];
    let t = turns[m - 1];
    let pending = first.asked.pending@;
    let ok = ok_count(turns.take(m));
    &&& t.waiting.pending@ == pending
    &&& t.waiting.cursor == m - 1
    &&& t.generate matches SyncAction::Generate { prompt }
    &&& prompt@ == prompt_text(
        pending[m - 1].message@,
        t.diff,
        changed_paths(t.diff),
        previous_summary(t),
    )
    &&& t.done.pending@ == pending
    &&& t.done.skipped == first.asked.skipped
    &&& t.done.cursor == m
    &&& 0 <= ok <= m
    &&& t.done.succeeded == ok
    &&& t.done.failed == m - ok
    &&& t.done.last_failure == match t.outcome {
        Ok(_) => None,
        Err(reason) => Some(reason),
    }
    &&& t.after.next_global_id() == first.before.next_global_id() + ok
    &&& t.after.next_ttl_id() == first.before.next_ttl_id() + ok
    &&& t.after.durable().len() == first.before.durable().len() + ok
    &&& t.after.ephemeral().len() == first.before.ephemeral().len() + ok
    &&& forall|k: int|
        0 <= k < pending.len() ==> (has_hash(t.after.durable(), (#[trigger] pending[k]).hash@) <==> k
            < m && turns[k].outcome is Ok)
    &&& forall|h: Seq<char>|
        has_hash(first.before.durable(), h) ==> has_hash(t.after.durable(), h)
    &&& in_date_order(first.before.durable(), pending) ==> {
        &&& dated_up_to(t.after.durable(), pending[m - 1].date as int)
        &&& latest_summary(t.after.durable()) == if t.outcome is Ok {
            Some(outcome_summary(t.outcome))
        } else {
            previous_summary(t)
        }
    }
}

#[verifier::rlimit(40)]
proof fn lemma_pass_prefix(turns: Seq<Turn>, m: int)
    requires
        is_pass(turns),
        batch_is_new(turns[0].before.durable(), turns[0].asked.pending@),
        has_room(turns[0].before, turns.len() as int),
        1 <= m <= turns.len(),
    ensures
        after_turns(turns, m),
    decreases m,
{
    let first = turns[0];
    let t = turns[m - 1];
    let pending = first.asked.pending@;
    let rows = first.before.durable();
    assert(turn_holds(t));
    assert(turns.take(m).drop_last() =~= turns.take(m - 1));
    assert(turns.take(m).last() == t);
    if m == 1 {
        assert(turns.take(0).len() == 0);
        assert(ok_count(turns.take(0)) == 0);
    } else {
        lemma_pass_prefix(turns, m - 1);
        assert(turn_follows(turns[m - 1 - 1], t));
    }
    let before_ok = ok_count(turns.take(m - 1));
    assert(t.waiting.pending@ == pending);
    assert(t.waiting.cursor == m - 1);
    assert(t.before.next_global_id() == first.before.next_global_id() + before_ok);
    assert(t.before.next_ttl_id() == first.before.next_ttl_id() + before_ok);
    assert(0 <= before_ok <= m - 1);
    let commit = pending[m - 1];
    assert(t.waiting.pending@[t.waiting.cursor as int] == commit);
    lemma_step_facts(t.waiting, t.before, t.outcome, t.now, t.done, t.after, t.action);
    assert(!has_hash(t.before.durable(), commit.hash@)) by {
        if m == 1 {
            assert(!has_hash(rows, pending[0].hash@));
        }
    }
    assert forall|k: int| 0 <= k < pending.len() implies (has_hash(
        t.after.durable(),
        (#[trigger] pending[k]).hash@,
    ) <==> k < m && turns[k].outcome is Ok) by {
        if k != m - 1 {
            if k < m - 1 {
                assert(pending[k].hash@ != pending[m - 1].hash@);
            } else {
                assert(pending[m - 1].hash@ != pending[k].hash@);
            }
            assert(has_hash(t.after.durable(), pending[k].hash@) <==> has_hash(
                t.before.durable(),
                pending[k].hash@,
            ));
            if m == 1 {
                assert(!has_hash(rows, pending[k].hash@));
            }
        }
    }
    assert forall|h: Seq<char>| has_hash(rows, h) implies has_hash(t.after.durable(), h) by {
        assert(has_hash(t.before.durable(), h));
    }
    if in_date_order(rows, pending) {
        assert(dated_up_to(t.before.durable(), commit.date as int)) by {
            if m > 1 {
                assert(pending[m - 1 - 1].date <= pending[m - 1].date);
                let earlier = t.before.durable();
                assert forall|i: int| 0 <= i < earlier.len() implies (#[trigger] earlier[i]).commit_date
                    <= commit.date by {}
            }
        }
    }
}

/// A whole pass, whatever its length and whichever of its extractions fail.
///
/// One failed extraction costs one commit and nothing else: after every turn
/// the commits that brought a record have their durable row and their
/// time-limited row, the others have none, the counts of successes and
/// failures are the counts of the two kinds of turn, and no row that was there
/// before is lost. The last turn ends the pass with those counts and the
/// number of durable rows.
///
/// What each turn left behind is spelled out by `after_turns`.
#[verifier::rlimit(40)]
pub proof fn lemma_pass_outcome(turns: Seq<Turn>)
    requires
        is_pass(turns),
        batch_is_new(turns[0].before.durable(), turns[0].asked.pending@),
        has_room(turns[0].before, turns.len() as int),
    ensures
        forall|m: int| 1 <= m <= turns.len() ==> #[trigger] after_turns(turns, m),
        turns.last().done.stage == SyncStage::Finished,
        turns.last().action == SyncAction::Finish(
            SyncOutcome::Completed {
                succeeded: turns.last().done.succeeded,
                failed: turns.last().done.failed,
                skipped: turns[0].asked.skipped,
                total_entries: turns.last().after.durable().len() as usize,
            },
        ),
        turns.last().done.succeeded == ok_count(turns),
        turns.last().done.failed == turns.len() - ok_count(turns),
        turns.last().after.durable().len() == turns[0].before.durable().len() + ok_count(turns),
        turns.last().after.ephemeral().len() == turns[0].before.ephemeral().len() + ok_count(
            turns,
        ),
{
    assert forall|m: int| 1 <= m <= turns.len() implies #[trigger] after_turns(turns, m) by {
        lemma_pass_prefix(turns, m);
    }
    let n = turns.len() as int;
    lemma_pass_prefix(turns, n);
    assert(turns.take(n) =~= turns);
    let t = turns[n - 1];
    assert(turn_holds(t));
    lemma_step_facts(t.waiting, t.before, t.outcome, t.now, t.done, t.after, t.action);
}

/// Summaries chain in the order of history. In a pass over a batch in which
/// no commit is older than the one before it, nor older than a commit in the
/// table, the prompt of each commit after the first is built with the summary
/// stored for the commit before it; where that commit failed, with the
/// summary its own prompt was built with. Never with that of a later commit.
pub proof fn lemma_pass_chains(turns: Seq<Turn>, m: int)
    requires
        is_pass(turns),
        batch_is_new(turns[0].before.durable(), turns[0].asked.pending@),
        has_room(turns[0].before, turns.len() as int),
        in_date_order(turns[0].before.durable(), turns[0].asked.pending@),
        0 < m < turns.len(),
    ensures
        previous_summary(turns[m]) == if turns[m - 1].outcome is Ok {
            Some(outcome_summary(turns[m - 1].outcome))
        } else {
            previous_summary(turns[m - 1])
        },
        turns[m].generate matches SyncAction::Generate { prompt } && prompt@ == prompt_text(
            turns[0].asked.pending@[m].message@,
            turns[m].diff,
            changed_paths(turns[m].diff),
            previous_summary(turns[m]),
        ),
{
    lemma_pass_prefix(turns, m);
    lemma_pass_prefix(turns, m + 1);
    assert(turn_follows(turns[m - 1], turns[m]));
}

} // verus!
