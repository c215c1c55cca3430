//! The context store: one durable row per commit hash, replaced on
//! re-processing, and time-limited memory rows that stop being visible once
//! they expire and leave the store only when swept.
//!
//! Times count seconds since the Unix epoch.

use vstd::prelude::*;
use vstd::string::*;
use crate::git::CommitInfo;
use crate::json::{encode_string_list, json_string_list, texts};

verus! {

/// One durable row.
#[derive(Debug, PartialEq, Eq)]
pub struct GlobalContext {
    pub id: i64,
    pub commit_hash: String,
    pub commit_message: String,
    pub commit_date: i64,
    pub context_summary: String,
    pub files_changed: String,
    pub llm_extracted_context: String,
    pub created_at: i64,
}

/// Mathematical content of a durable row.
pub struct GlobalContextView {
    pub id: int,
    pub commit_hash: Seq<char>,
    pub commit_message: Seq<char>,
    pub commit_date: int,
    pub context_summary: Seq<char>,
    pub files_changed: Seq<char>,
    pub llm_extracted_context: Seq<char>,
    pub created_at: int,
}

impl View for GlobalContext {
    type V = GlobalContextView;

    open spec fn view(&self) -> GlobalContextView {
        GlobalContextView {
            id: self.id as int,
            commit_hash: self.commit_hash@,
            commit_message: self.commit_message@,
            commit_date: self.commit_date as int,
            context_summary: self.context_summary@,
            files_changed: self.files_changed@,
            llm_extracted_context: self.llm_extracted_context@,
            created_at: self.created_at as int,
        }
    }
}

impl Clone for GlobalContext {
    fn clone(&self) -> (out: Self)
        ensures
            out@ == self@,
    {
        GlobalContext {
            id: self.id,
            commit_hash: self.commit_hash.clone(),
            commit_message: self.commit_message.clone(),
            commit_date: self.commit_date,
            context_summary: self.context_summary.clone(),
            files_changed: self.files_changed.clone(),
            llm_extracted_context: self.llm_extracted_context.clone(),
            created_at: self.created_at,
        }
    }
}

/// One time-limited row.
#[derive(Debug, PartialEq, Eq)]
pub struct TtlMemory {
    pub id: i64,
    pub commit_hash: String,
    pub content: String,
    pub expires_at: i64,
    pub created_at: i64,
}

/// Mathematical content of a time-limited row.
pub struct TtlMemoryView {
    pub id: int,
    pub commit_hash: Seq<char>,
    pub content: Seq<char>,
    pub expires_at: int,
    pub created_at: int,
}

impl View for TtlMemory {
    type V = TtlMemoryView;

    open spec fn view(&self) -> TtlMemoryView {
        TtlMemoryView {
            id: self.id as int,
            commit_hash: self.commit_hash@,
            content: self.content@,
            expires_at: self.expires_at as int,
            created_at: self.created_at as int,
        }
    }
}

impl Clone for TtlMemory {
    fn clone(&self) -> (out: Self)
        ensures
            out@ == self@,
    {
        TtlMemory {
            id: self.id,
            commit_hash: self.commit_hash.clone(),
            content: self.content.clone(),
            expires_at: self.expires_at,
            created_at: self.created_at,
        }
    }
}

/// Why the store refused a write.
#[derive(Debug, PartialEq, Eq)]
pub enum StoreError {
    /// No row identifier is left.
    Full,
    /// A restored row repeats a hash or an identifier the store already holds.
    Conflict,
}

// ---------------------------------------------------------------------------
// Durable rows
// ---------------------------------------------------------------------------

/// Some row of `rows` carries `hash`.
pub open spec fn has_hash(rows: Seq<GlobalContextView>, hash: Seq<char>) -> bool {
    exists|i: int| 0 <= i < rows.len() && (#[trigger] rows[i]).commit_hash == hash
}

/// No two rows carry the same hash.
pub open spec fn unique_hashes(rows: Seq<GlobalContextView>) -> bool {
    forall|i: int, j: int|
        0 <= i < j < rows.len() ==> (#[trigger] rows[i]).commit_hash != (
        #[trigger] rows[j]).commit_hash
}

/// Rows stand by commit date, most recent first.
pub open spec fn newest_first(rows: Seq<GlobalContextView>) -> bool {
    forall|i: int, j: int|
        0 <= i < j < rows.len() ==> (#[trigger] rows[i]).commit_date >= (
        #[trigger] rows[j]).commit_date
}

/// What always holds of the durable rows.
pub open spec fn durable_wf(rows: Seq<GlobalContextView>) -> bool {
    unique_hashes(rows) && newest_first(rows)
}

/// Where the row with `hash` stands, if any.
pub open spec fn hash_index(rows: Seq<GlobalContextView>, hash: Seq<char>) -> Option<int> {
    if has_hash(rows, hash) {
        Some(choose|i: int| 0 <= i < rows.len() && (#[trigger] rows[i]).commit_hash == hash)
    } else {
        None
    }
}

/// `rows` with the row for `hash` taken out.
pub open spec fn without_hash(rows: Seq<GlobalContextView>, hash: Seq<char>) -> Seq<
    GlobalContextView,
> {
    match hash_index(rows, hash) {
        Some(i) => rows.remove(i),
        None => rows,
    }
}

/// `p` parts the rows into those committed after `date` and the rest.
pub open spec fn is_date_slot(rows: Seq<GlobalContextView>, date: int, p: int) -> bool {
    &&& 0 <= p <= rows.len()
    &&& forall|j: int| 0 <= j < p ==> (#[trigger] rows[j]).commit_date > date
    &&& forall|j: int| p <= j < rows.len() ==> (#[trigger] rows[j]).commit_date <= date
}

/// Where a row committed at `date` enters: after every row committed later,
/// before every row committed at the same time or earlier.
pub open spec fn date_slot(rows: Seq<GlobalContextView>, date: int) -> int {
    choose|p: int| is_date_slot(rows, date, p)
}

/// `rows` after `row` replaced whatever stood under its hash.
pub open spec fn upserted(rows: Seq<GlobalContextView>, row: GlobalContextView) -> Seq<
    GlobalContextView,
> {
    let rest = without_hash(rows, row.commit_hash);
    rest.insert(date_slot(rest, row.commit_date), row)
}

/// The rows committed at `date` or later, in their order.
pub open spec fn rows_since(rows: Seq<GlobalContextView>, date: int) -> Seq<GlobalContextView>
    decreases rows.len(),
{
    if rows.len() == 0 {
        rows
    } else if rows.last().commit_date >= date {
        rows_since(rows.drop_last(), date).push(rows.last())
    } else {
        rows_since(rows.drop_last(), date)
    }
}

/// The rows a query for everything since the commit `hash` returns: nothing
/// when the hash is unknown.
pub open spec fn context_since(rows: Seq<GlobalContextView>, hash: Seq<char>) -> Seq<
    GlobalContextView,
> {
    match hash_index(rows, hash) {
        Some(i) => rows_since(rows, rows[i].commit_date),
        None => Seq::empty(),
    }
}

// ---------------------------------------------------------------------------
// Time-limited rows
// ---------------------------------------------------------------------------

/// Rows stand by creation time, most recent first.
pub open spec fn newest_created_first(rows: Seq<TtlMemoryView>) -> bool {
    forall|i: int, j: int|
        0 <= i < j < rows.len() ==> (#[trigger] rows[i]).created_at >= (
        #[trigger] rows[j]).created_at
}

/// The rows that have not expired at `now`, in their order.
pub open spec fn visible_at(rows: Seq<TtlMemoryView>, now: int) -> Seq<TtlMemoryView>
    decreases rows.len(),
{
    if rows.len() == 0 {
        rows
    } else if rows.last().expires_at > now {
        visible_at(rows.drop_last(), now).push(rows.last())
    } else {
        visible_at(rows.drop_last(), now)
    }
}

/// How many rows have expired at `now`.
pub open spec fn expired_count(rows: Seq<TtlMemoryView>, now: int) -> nat
    decreases rows.len(),
{
    if rows.len() == 0 {
        0
    } else if rows.last().expires_at <= now {
        expired_count(rows.drop_last(), now) + 1
    } else {
        expired_count(rows.drop_last(), now)
    }
}

/// `p` parts the rows into those created after `at` and the rest.
pub open spec fn is_created_slot(rows: Seq<TtlMemoryView>, at: int, p: int) -> bool {
    &&& 0 <= p <= rows.len()
    &&& forall|j: int| 0 <= j < p ==> (#[trigger] rows[j]).created_at > at
    &&& forall|j: int| p <= j < rows.len() ==> (#[trigger] rows[j]).created_at <= at
}

/// Where a row created at `at` enters.
pub open spec fn created_slot(rows: Seq<TtlMemoryView>, at: int) -> int {
    choose|p: int| is_created_slot(rows, at, p)
}

/// `rows` with `row` added.
pub open spec fn remembered(rows: Seq<TtlMemoryView>, row: TtlMemoryView) -> Seq<TtlMemoryView> {
    rows.insert(created_slot(rows, row.created_at), row)
}

/// Seconds in a day.
pub const SECONDS_PER_DAY: i64 = 86_400;

/// The expiry time of a row created at `now` that lives `ttl_days` days.
pub open spec fn expiry(now: int, ttl_days: int) -> int {
    now + ttl_days * 86_400
}

// ---------------------------------------------------------------------------
// The store
// ---------------------------------------------------------------------------

/// The two tables.
pub struct Storage {
    global: Vec<GlobalContext>,
    ttl: Vec<TtlMemory>,
    next_global_id: i64,
    next_ttl_id: i64,
}

impl Storage {
    /// The durable rows, most recent commit first.
    pub closed spec fn durable(&self) -> Seq<GlobalContextView> {
        Seq::new(self.global@.len(), |i: int| self.global@[i]@)
    }

    /// The time-limited rows, expired ones included, most recently created
    /// first.
    pub closed spec fn ephemeral(&self) -> Seq<TtlMemoryView> {
        Seq::new(self.ttl@.len(), |i: int| self.ttl@[i]@)
    }

    /// The identifier the next durable row gets.
    pub closed spec fn next_global_id(&self) -> int {
        self.next_global_id as int
    }

    /// The identifier the next time-limited row gets.
    pub closed spec fn next_ttl_id(&self) -> int {
        self.next_ttl_id as int
    }

    /// The invariant of the store: hashes are unique among the durable rows,
    /// both tables stand in their order, and identifiers are unique and below
    /// the next one to be given out.
    pub open spec fn wf(&self) -> bool {
        &&& durable_wf(self.durable())
        &&& newest_created_first(self.ephemeral())
        &&& 0 <= self.next_global_id() <= i64::MAX
        &&& 0 <= self.next_ttl_id() <= i64::MAX
        &&& durable_ids_wf(self.durable(), self.next_global_id())
        &&& ttl_ids_wf(self.ephemeral(), self.next_ttl_id())
    }

    /// An empty store.
    pub fn new() -> (store: Storage)
        ensures
            store.wf(),
            store.durable().len() == 0,
            store.ephemeral().len() == 0,
            store.next_global_id() == 1,
            store.next_ttl_id() == 1,
    {
        Storage { global: Vec::new(), ttl: Vec::new(), next_global_id: 1, next_ttl_id: 1 }
    }

    fn find_hash(&self, hash: &str) -> (found: Option<usize>)
        ensures
            match found {
                Some(i) => i < self.durable().len() && self.durable()[i as int].commit_hash
                    == hash@,
                None => !has_hash(self.durable(), hash@),
            },
    {
        let key = String::from_str(hash);
        let mut i: usize = 0;
        while i < self.global.len()
            invariant
                i <= self.global@.len(),
                key@ == hash@,
                forall|j: int| 0 <= j < i ==> (#[trigger] self.durable()[j]).commit_hash != hash@,
            decreases self.global.len() - i,
        {
            if self.global[i].commit_hash == key {
                return Some(i);
            }
            i = i + 1;
        }
        None
    }

    /// Whether a durable row exists for `commit_hash`.
    pub fn has_commit(&self, commit_hash: &str) -> (found: bool)
        ensures
            found == has_hash(self.durable(), commit_hash@),
    {
        self.find_hash(commit_hash).is_some()
    }

    fn find_date_slot(&self, date: i64) -> (p: usize)
        requires
            newest_first(self.durable()),
        ensures
            is_date_slot(self.durable(), date as int, p as int),
    {
        let mut i: usize = 0;
        while i < self.global.len()
            invariant
                i <= self.global@.len(),
                newest_first(self.durable()),
                forall|j: int| 0 <= j < i ==> (#[trigger] self.durable()[j]).commit_date > date,
            decreases self.global.len() - i,
        {
            if self.global[i].commit_date <= date {
                assert(self.durable()[i as int].commit_date <= date);
                return i;
            }
            i = i + 1;
        }
        i
    }

    fn put_row(&mut self, row: GlobalContext)
        requires
            old(self).wf(),
            0 <= row.id < old(self).next_global_id(),
            !holds_id(without_hash(old(self).durable(), row.commit_hash@), row.id as int),
        ensures
            final(self).wf(),
            final(self).durable() == upserted(old(self).durable(), row@),
            final(self).ephemeral() == old(self).ephemeral(),
            final(self).next_global_id() == old(self).next_global_id(),
            final(self).next_ttl_id() == old(self).next_ttl_id(),
    {
        let ghost rows = self.durable();
        let ghost hash = row.commit_hash@;
        let ghost next = self.next_global_id();
        let found = self.find_hash(row.commit_hash.as_str());
        match found {
            Some(i) => {
                self.global.remove(i);
                assert(self.durable() =~= rows.remove(i as int));
                proof {
                    lemma_hash_index(rows, hash, i as int);
                }
            },
            None => {},
        }
        let ghost rest = self.durable();
        assert(rest == without_hash(rows, hash));
        proof {
            lemma_without_hash(rows, hash, next);
        }
        let p = self.find_date_slot(row.commit_date);
        proof {
            lemma_date_slot(rest, row.commit_date as int, p as int);
            lemma_insert_row(rest, row@, p as int, next);
        }
        let ghost shown = row@;
        self.global.insert(p, row);
        assert(self.durable() =~= rest.insert(p as int, shown));
        assert(self.ephemeral() =~= old(self).ephemeral());
    }

    /// Stores the summary of a commit: the row that stood under the commit's
    /// hash, if any, is replaced whole. The list of changed files is kept as
    /// the JSON text of the list.
    pub fn store_global_context(
        &mut self,
        commit: &CommitInfo,
        context_summary: &str,
        files_changed: &Vec<String>,
        llm_extracted_json: &str,
        now: i64,
    ) -> (out: Result<(), StoreError>)
        requires
            old(self).wf(),
        ensures
            final(self).wf(),
            final(self).ephemeral() == old(self).ephemeral(),
            final(self).next_ttl_id() == old(self).next_ttl_id(),
            out is Ok ==> has_hash(final(self).durable(), commit.hash@),
            out is Ok ==> final(self).durable().len() == if has_hash(
                old(self).durable(),
                commit.hash@,
            ) {
                old(self).durable().len()
            } else {
                old(self).durable().len() + 1
            },
            forall|h: Seq<char>|
                has_hash(old(self).durable(), h) ==> has_hash(final(self).durable(), h),
            Self::stored_encoded(
                *old(self),
                commit@,
                context_summary@,
                json_string_list(texts(files_changed@)),
                llm_extracted_json@,
                now as int,
                *final(self),
                out,
            ),
    {
        let files_json = encode_string_list(files_changed).unwrap();
        self.store_encoded_context(
            commit,
            context_summary,
            files_json.as_str(),
            llm_extracted_json,
            now,
        )
    }

    /// Stores the summary of a commit whose list of changed files is encoded
    /// already: the row that stood under the commit's hash, if any, is
    /// replaced whole. Refused only when no row identifier is left.
    pub fn store_encoded_context(
        &mut self,
        commit: &CommitInfo,
        context_summary: &str,
        files_json: &str,
        llm_extracted_json: &str,
        now: i64,
    ) -> (out: Result<(), StoreError>)
        requires
            old(self).wf(),
        ensures
            final(self).wf(),
            final(self).ephemeral() == old(self).ephemeral(),
            final(self).next_ttl_id() == old(self).next_ttl_id(),
            out is Ok ==> has_hash(final(self).durable(), commit.hash@),
            out is Ok ==> final(self).durable().len() == if has_hash(
                old(self).durable(),
                commit.hash@,
            ) {
                old(self).durable().len()
            } else {
                old(self).durable().len() + 1
            },
            forall|h: Seq<char>|
                has_hash(old(self).durable(), h) ==> has_hash(final(self).durable(), h),
            Self::stored_encoded(
                *old(self),
                commit@,
                context_summary@,
                files_json@,
                llm_extracted_json@,
                now as int,
                *final(self),
                out,
            ),
    {
        if self.next_global_id == i64::MAX {
            return Err(StoreError::Full);
        }
        let row = GlobalContext {
            id: self.next_global_id,
            commit_hash: commit.hash.clone(),
            commit_message: commit.message.clone(),
            commit_date: commit.date,
            context_summary: String::from_str(context_summary),
            files_changed: String::from_str(files_json),
            llm_extracted_context: String::from_str(llm_extracted_json),
            created_at: now,
        };
        self.next_global_id = self.next_global_id + 1;
        assert(self.durable() =~= old(self).durable());
        assert(self.ephemeral() =~= old(self).ephemeral());
        proof {
            lemma_without_hash(self.durable(), row.commit_hash@, row.id as int);
            lemma_upsert_replaces(self.durable(), row@);
        }
        self.put_row(row);
        Ok(())
    }

    /// What storing an encoded summary does to the durable rows: with no
    /// identifier left the store answers `Full` and stays as it is; otherwise
    /// the new row, created at `now` under the next identifier, replaces
    /// whatever stood under the commit's hash.
    pub open spec fn stored_encoded(
        before: Storage,
        commit: crate::git::CommitView,
        summary: Seq<char>,
        files_json: Seq<char>,
        raw: Seq<char>,
        now: int,
        after: Storage,
        out: Result<(), StoreError>,
    ) -> bool {
        if before.next_global_id() == i64::MAX {
            &&& out == Err::<(), StoreError>(StoreError::Full)
            &&& after.durable() == before.durable()
            &&& after.next_global_id() == before.next_global_id()
        } else {
            &&& out is Ok
            &&& after.next_global_id() == before.next_global_id() + 1
            &&& after.durable() == upserted(
                before.durable(),
                (GlobalContextView {
                    id: before.next_global_id(),
                    commit_hash: commit.hash,
                    commit_message: commit.message,
                    commit_date: commit.date,
                    context_summary: summary,
                    files_changed: files_json,
                    llm_extracted_context: raw,
                    created_at: now,
                }),
            )
        }
    }

    /// The summary of the most recently committed durable row.
    pub fn get_latest_context_summary(&self) -> (out: Option<String>)
        requires
            self.wf(),
        ensures
            match out {
                Some(s) => self.durable().len() > 0 && s@ == self.durable()[0].context_summary,
                None => self.durable().len() == 0,
            },
            forall|i: int|
                0 <= i < self.durable().len() ==> (#[trigger] self.durable()[i]).commit_date
                    <= self.durable()[0].commit_date,
    {
        if self.global.len() == 0 {
            None
        } else {
            assert(self.durable()[0] == self.global@[0]@);
            Some(self.global[0].context_summary.clone())
        }
    }

    /// The hash of the most recently committed durable row.
    pub fn get_last_processed_commit(&self) -> (out: Option<String>)
        requires
            self.wf(),
        ensures
            match out {
                Some(s) => self.durable().len() > 0 && s@ == self.durable()[0].commit_hash,
                None => self.durable().len() == 0,
            },
            forall|i: int|
                0 <= i < self.durable().len() ==> (#[trigger] self.durable()[i]).commit_date
                    <= self.durable()[0].commit_date,
    {
        if self.global.len() == 0 {
            None
        } else {
            assert(self.durable()[0] == self.global@[0]@);
            Some(self.global[0].commit_hash.clone())
        }
    }

    /// Every durable row, most recent commit first.
    pub fn get_global_context(&self) -> (out: Vec<GlobalContext>)
        ensures
            global_views(out@) == self.durable(),
            out@.len() == self.durable().len(),
            self.wf() ==> newest_first(global_views(out@)) && unique_hashes(global_views(out@)),
    {
        let mut out: Vec<GlobalContext> = Vec::new();
        let mut i: usize = 0;
        while i < self.global.len()
            invariant
                i <= self.global@.len(),
                out@.len() == i,
                forall|j: int| 0 <= j < i ==> out@[j]@ == self.global@[j]@,
            decreases self.global.len() - i,
        {
            out.push(self.global[i].clone());
            i = i + 1;
        }
        assert(global_views(out@) =~= self.durable());
        out
    }

    /// The durable rows committed no earlier than the commit `commit_hash`,
    /// that commit included, most recent first; nothing when the store has no
    /// row for the hash.
    pub fn get_global_context_since(&self, commit_hash: &str) -> (out: Vec<GlobalContext>)
        requires
            self.wf(),
        ensures
            global_views(out@) == context_since(self.durable(), commit_hash@),
            out@.len() == context_since(self.durable(), commit_hash@).len(),
    {
        let mut out: Vec<GlobalContext> = Vec::new();
        let at = match self.find_hash(commit_hash) {
            Some(i) => i,
            None => {
                assert(global_views(out@) =~= Seq::<GlobalContextView>::empty());
                return out;
            },
        };
        let ghost rows = self.durable();
        assert(rows[at as int] == self.global@[at as int]@);
        let date = self.global[at].commit_date;
        assert(has_hash(rows, commit_hash@));
        let ghost chosen = hash_index(rows, commit_hash@)->0;
        assert(chosen == at as int);
        let mut i: usize = 0;
        while i < self.global.len()
            invariant
                i <= self.global@.len(),
                rows == self.durable(),
                global_views(out@) == rows_since(rows.take(i as int), date as int),
            decreases self.global.len() - i,
        {
            assert(rows.take(i + 1).drop_last() =~= rows.take(i as int));
            assert(rows.take(i + 1).last() == self.global@[i as int]@);
            if self.global[i].commit_date >= date {
                out.push(self.global[i].clone());
                assert(global_views(out@) =~= rows_since(rows.take(i as int), date as int).push(
                    self.global@[i as int]@,
                ));
            }
            i = i + 1;
        }
        assert(rows.take(self.global@.len() as int) =~= rows);
        out
    }

    /// How many durable rows there are.
    pub fn get_context_count(&self) -> (count: usize)
        ensures
            count == self.durable().len(),
    {
        self.global.len()
    }

    fn find_created_slot(&self, at: i64) -> (p: usize)
        requires
            newest_created_first(self.ephemeral()),
        ensures
            is_created_slot(self.ephemeral(), at as int, p as int),
    {
        let mut i: usize = 0;
        while i < self.ttl.len()
            invariant
                i <= self.ttl@.len(),
                newest_created_first(self.ephemeral()),
                forall|j: int| 0 <= j < i ==> (#[trigger] self.ephemeral()[j]).created_at > at,
            decreases self.ttl.len() - i,
        {
            if self.ttl[i].created_at <= at {
                assert(self.ephemeral()[i as int].created_at <= at);
                return i;
            }
            i = i + 1;
        }
        i
    }

    /// Adds a time-limited row that expires `ttl_days` days after `now`. A
    /// negative number of days gives a row that has expired already; it is
    /// stored all the same.
    pub fn store_ttl_memory(&mut self, commit_hash: &str, content: &str, ttl_days: i32, now: i64) -> (out:
        Result<(), StoreError>)
        requires
            old(self).wf(),
            i64::MIN <= expiry(now as int, ttl_days as int) <= i64::MAX,
        ensures
            final(self).wf(),
            final(self).durable() == old(self).durable(),
            final(self).next_global_id() == old(self).next_global_id(),
            out is Ok ==> final(self).ephemeral().len() == old(self).ephemeral().len() + 1,
            if old(self).next_ttl_id() == i64::MAX {
                &&& out == Err::<(), StoreError>(StoreError::Full)
                &&& final(self).ephemeral() == old(self).ephemeral()
                &&& final(self).next_ttl_id() == old(self).next_ttl_id()
            } else {
                &&& out is Ok
                &&& final(self).next_ttl_id() == old(self).next_ttl_id() + 1
                &&& final(self).ephemeral() == remembered(
                    old(self).ephemeral(),
                    (TtlMemoryView {
                        id: old(self).next_ttl_id(),
                        commit_hash: commit_hash@,
                        content: content@,
                        expires_at: expiry(now as int, ttl_days as int),
                        created_at: now as int,
                    }),
                )
            },
    {
        if self.next_ttl_id == i64::MAX {
            return Err(StoreError::Full);
        }
        let days: i64 = ttl_days as i64;
        assert(-2147483648 * 86_400 <= days * 86_400 <= 2147483647 * 86_400) by (nonlinear_arith)
            requires
                -2147483648 <= days <= 2147483647,
        ;
        let span: i64 = days * SECONDS_PER_DAY;
        let row = TtlMemory {
            id: self.next_ttl_id,
            commit_hash: String::from_str(commit_hash),
            content: String::from_str(content),
            expires_at: now + span,
            created_at: now,
        };
        let ghost rows = self.ephemeral();
        let ghost shown = row@;
        let p = self.find_created_slot(now);
        proof {
            lemma_created_slot(rows, now as int, p as int);
            lemma_remember_row(rows, shown, p as int, self.next_ttl_id(), self.next_ttl_id() + 1);
        }
        self.next_ttl_id = self.next_ttl_id + 1;
        self.ttl.insert(p, row);
        assert(self.ephemeral() =~= rows.insert(p as int, shown));
        assert(self.durable() =~= old(self).durable());
        Ok(())
    }

    /// The time-limited rows that have not expired at `now`, most recently
    /// created first. Expired rows stay in the store.
    pub fn get_ttl_memory(&self, now: i64) -> (out: Vec<TtlMemory>)
        ensures
            ttl_views(out@) == visible_at(self.ephemeral(), now as int),
            out@.len() == visible_at(self.ephemeral(), now as int).len(),
            forall|i: int| 0 <= i < out@.len() ==> (#[trigger] out@[i]).expires_at > now,
            self.wf() ==> newest_created_first(ttl_views(out@)),
    {
        let ghost rows = self.ephemeral();
        let mut out: Vec<TtlMemory> = Vec::new();
        let mut i: usize = 0;
        assert(ttl_views(out@) =~= visible_at(rows.take(0), now as int));
        while i < self.ttl.len()
            invariant
                i <= self.ttl@.len(),
                rows == self.ephemeral(),
                ttl_views(out@) == visible_at(rows.take(i as int), now as int),
            decreases self.ttl.len() - i,
        {
            assert(rows.take(i + 1).drop_last() =~= rows.take(i as int));
            assert(rows.take(i + 1).last() == self.ttl@[i as int]@);
            if self.ttl[i].expires_at > now {
                out.push(self.ttl[i].clone());
                assert(ttl_views(out@) =~= visible_at(rows.take(i as int), now as int).push(
                    self.ttl@[i as int]@,
                ));
            }
            i = i + 1;
        }
        assert(rows.take(self.ttl@.len() as int) =~= rows);
        proof {
            lemma_visible_rows(rows, now as int);
            assert forall|i: int| 0 <= i < out@.len() implies (#[trigger] out@[i]).expires_at
                > now by {
                assert(ttl_views(out@)[i] == out@[i]@);
            }
        }
        out
    }

    /// Removes every time-limited row.
    pub fn clear_ttl_memory(&mut self)
        requires
            old(self).wf(),
        ensures
            final(self).wf(),
            final(self).ephemeral().len() == 0,
            final(self).durable() == old(self).durable(),
            final(self).next_global_id() == old(self).next_global_id(),
            final(self).next_ttl_id() == old(self).next_ttl_id(),
    {
        self.ttl = Vec::new();
        assert(self.durable() =~= old(self).durable());
    }

    /// Removes the time-limited rows that have expired at `now` and says how
    /// many they were. The rows still visible at `now` stay as they are.
    pub fn cleanup_expired_ttl(&mut self, now: i64) -> (removed: usize)
        requires
            old(self).wf(),
        ensures
            final(self).wf(),
            final(self).ephemeral() == visible_at(old(self).ephemeral(), now as int),
            removed == expired_count(old(self).ephemeral(), now as int),
            final(self).ephemeral().len() + removed == old(self).ephemeral().len(),
            final(self).durable() == old(self).durable(),
            final(self).next_global_id() == old(self).next_global_id(),
            final(self).next_ttl_id() == old(self).next_ttl_id(),
    {
        let ghost rows = self.ephemeral();
        let kept = self.get_ttl_memory(now);
        proof {
            lemma_visible_rows(rows, now as int);
        }
        let removed = self.ttl.len() - kept.len();
        self.ttl = kept;
        assert(self.ephemeral() =~= visible_at(rows, now as int));
        assert(self.durable() =~= old(self).durable());
        proof {
            lemma_visible_ids(rows, now as int, self.next_ttl_id());
        }
        removed
    }

    /// Every time-limited row, expired ones included, most recently created
    /// first.
    pub fn get_all_ttl_memory(&self) -> (out: Vec<TtlMemory>)
        ensures
            ttl_views(out@) == self.ephemeral(),
            out@.len() == self.ephemeral().len(),
    {
        let mut out: Vec<TtlMemory> = Vec::new();
        let mut i: usize = 0;
        while i < self.ttl.len()
            invariant
                i <= self.ttl@.len(),
                out@.len() == i,
                forall|j: int| 0 <= j < i ==> out@[j]@ == self.ttl@[j]@,
            decreases self.ttl.len() - i,
        {
            out.push(self.ttl[i].clone());
            i = i + 1;
        }
        assert(ttl_views(out@) =~= self.ephemeral());
        out
    }

    /// Takes in a time-limited row as it stands, for a store that is being
    /// read back from where it was kept. Refused when the identifier is
    /// already held or cannot be followed by another.
    pub fn restore_ttl_memory(&mut self, row: TtlMemory) -> (out: Result<(), StoreError>)
        requires
            old(self).wf(),
        ensures
            final(self).wf(),
            final(self).durable() == old(self).durable(),
            final(self).next_global_id() == old(self).next_global_id(),
            if holds_ttl_id(old(self).ephemeral(), row.id as int) || row.id < 0 || row.id
                == i64::MAX {
                &&& out == Err::<(), StoreError>(StoreError::Conflict)
                &&& final(self).ephemeral() == old(self).ephemeral()
                &&& final(self).next_ttl_id() == old(self).next_ttl_id()
            } else {
                &&& out is Ok
                &&& final(self).ephemeral() == remembered(old(self).ephemeral(), row@)
                &&& final(self).next_ttl_id() == if row.id < old(self).next_ttl_id() {
                    old(self).next_ttl_id()
                } else {
                    row.id + 1
                }
            },
    {
        if row.id < 0 || row.id == i64::MAX {
            return Err(StoreError::Conflict);
        }
        let mut i: usize = 0;
        while i < self.ttl.len()
            invariant
                i <= self.ttl@.len(),
                *self == *old(self),
                self.wf(),
                forall|j: int| 0 <= j < i ==> (#[trigger] self.ephemeral()[j]).id != row.id,
            decreases self.ttl.len() - i,
        {
            if self.ttl[i].id == row.id {
                assert(self.ephemeral()[i as int].id == row.id);
                return Err(StoreError::Conflict);
            }
            i = i + 1;
        }
        let ghost rows = self.ephemeral();
        let ghost shown = row@;
        let ghost next = self.next_ttl_id();
        let p = self.find_created_slot(row.created_at);
        if row.id >= self.next_ttl_id {
            self.next_ttl_id = row.id + 1;
        }
        proof {
            lemma_created_slot(rows, row.created_at as int, p as int);
            lemma_remember_row(rows, shown, p as int, next, self.next_ttl_id());
        }
        self.ttl.insert(p, row);
        assert(self.ephemeral() =~= rows.insert(p as int, shown));
        assert(self.durable() =~= old(self).durable());
        Ok(())
    }

    /// Takes in a durable row as it stands, identifier and creation time
    /// included, for a store that is being read back from where it was
    /// kept. Refused when the hash or the identifier is already held, or
    /// when the identifier cannot be followed by another.
    pub fn restore_global_context(&mut self, row: GlobalContext) -> (out: Result<(), StoreError>)
        requires
            old(self).wf(),
        ensures
            final(self).wf(),
            final(self).ephemeral() == old(self).ephemeral(),
            final(self).next_ttl_id() == old(self).next_ttl_id(),
            if has_hash(old(self).durable(), row.commit_hash@) || holds_id(
                old(self).durable(),
                row.id as int,
            ) || row.id < 0 || row.id == i64::MAX {
                &&& out == Err::<(), StoreError>(StoreError::Conflict)
                &&& final(self).durable() == old(self).durable()
                &&& final(self).next_global_id() == old(self).next_global_id()
            } else {
                &&& out is Ok
                &&& final(self).durable() == upserted(old(self).durable(), row@)
                &&& final(self).next_global_id() == if row.id < old(self).next_global_id() {
                    old(self).next_global_id()
                } else {
                    row.id + 1
                }
            },
    {
        if row.id < 0 || row.id == i64::MAX {
            return Err(StoreError::Conflict);
        }
        if self.has_commit(row.commit_hash.as_str()) {
            return Err(StoreError::Conflict);
        }
        let mut i: usize = 0;
        while i < self.global.len()
            invariant
                i <= self.global@.len(),
                *self == *old(self),
                self.wf(),
                forall|j: int| 0 <= j < i ==> (#[trigger] self.durable()[j]).id != row.id,
            decreases self.global.len() - i,
        {
            if self.global[i].id == row.id {
                assert(self.durable()[i as int].id == row.id);
                return Err(StoreError::Conflict);
            }
            i = i + 1;
        }
        if row.id >= self.next_global_id {
            self.next_global_id = row.id + 1;
        }
        assert(self.durable() =~= old(self).durable());
        assert(self.ephemeral() =~= old(self).ephemeral());
        assert(without_hash(self.durable(), row.commit_hash@) == self.durable());
        self.put_row(row);
        Ok(())
    }
}

/// Some row of `rows` carries the identifier `id`.
pub open spec fn holds_id(rows: Seq<GlobalContextView>, id: int) -> bool {
    exists|i: int| 0 <= i < rows.len() && (#[trigger] rows[i]).id == id
}

/// Some row of `rows` carries the identifier `id`.
pub open spec fn holds_ttl_id(rows: Seq<TtlMemoryView>, id: int) -> bool {
    exists|i: int| 0 <= i < rows.len() && (#[trigger] rows[i]).id == id
}

/// The views of a list of durable rows.
pub open spec fn global_views(rows: Seq<GlobalContext>) -> Seq<GlobalContextView> {
    Seq::new(rows.len(), |i: int| rows[i]@)
}

/// The views of a list of time-limited rows.
pub open spec fn ttl_views(rows: Seq<TtlMemory>) -> Seq<TtlMemoryView> {
    Seq::new(rows.len(), |i: int| rows[i]@)
}

/// Identifiers of durable rows are unique and lie in `0..next`.
pub open spec fn durable_ids_wf(rows: Seq<GlobalContextView>, next: int) -> bool {
    &&& forall|i: int| 0 <= i < rows.len() ==> 0 <= (#[trigger] rows[i]).id < next
    &&& forall|i: int, j: int|
        0 <= i < j < rows.len() ==> (#[trigger] rows[i]).id != (#[trigger] rows[j]).id
}

/// Identifiers of time-limited rows are unique and lie in `0..next`.
pub open spec fn ttl_ids_wf(rows: Seq<TtlMemoryView>, next: int) -> bool {
    &&& forall|i: int| 0 <= i < rows.len() ==> 0 <= (#[trigger] rows[i]).id < next
    &&& forall|i: int, j: int|
        0 <= i < j < rows.len() ==> (#[trigger] rows[i]).id != (#[trigger] rows[j]).id
}

proof fn lemma_hash_index(rows: Seq<GlobalContextView>, hash: Seq<char>, i: int)
    requires
        unique_hashes(rows),
        0 <= i < rows.len(),
        rows[i].commit_hash == hash,
    ensures
        has_hash(rows, hash),
        hash_index(rows, hash) == Some(i),
{
    let k = choose|k: int| 0 <= k < rows.len() && (#[trigger] rows[k]).commit_hash == hash;
    if k < i {
        assert(rows[k].commit_hash != rows[i].commit_hash);
    } else if i < k {
        assert(rows[i].commit_hash != rows[k].commit_hash);
    }
}

proof fn lemma_without_hash(rows: Seq<GlobalContextView>, hash: Seq<char>, next: int)
    requires
        durable_wf(rows),
    ensures
        durable_wf(without_hash(rows, hash)),
        !has_hash(without_hash(rows, hash), hash),
        durable_ids_wf(rows, next) ==> durable_ids_wf(without_hash(rows, hash), next),
        forall|h: Seq<char>| h != hash ==> (has_hash(without_hash(rows, hash), h) <==> has_hash(rows, h)),
        without_hash(rows, hash).len() == if has_hash(rows, hash) {
            rows.len() - 1
        } else {
            rows.len() as int
        },
{
    let rest = without_hash(rows, hash);
    match hash_index(rows, hash) {
        Some(i) => {
            assert(0 <= i < rows.len() && rows[i].commit_hash == hash);
            assert(rest == rows.remove(i));
            assert forall|k: int| 0 <= k < rest.len() implies #[trigger] rest[k] == rows[if k < i {
                k
            } else {
                k + 1
            }] by {}
            assert forall|a: int, b: int| 0 <= a < b < rest.len() implies (
            #[trigger] rest[a]).commit_hash != (#[trigger] rest[b]).commit_hash && rest[a].commit_date
                >= rest[b].commit_date by {
                let a2 = if a < i { a } else { a + 1 };
                let b2 = if b < i { b } else { b + 1 };
                assert(rows[a2].commit_hash != rows[b2].commit_hash);
                assert(rows[a2].commit_date >= rows[b2].commit_date);
            }
            if has_hash(rest, hash) {
                let k = choose|k: int| 0 <= k < rest.len() && (#[trigger] rest[k]).commit_hash == hash;
                let k2 = if k < i { k } else { k + 1 };
                if k2 < i {
                    assert(rows[k2].commit_hash != rows[i].commit_hash);
                } else {
                    assert(rows[i].commit_hash != rows[k2].commit_hash);
                }
            }
            if durable_ids_wf(rows, next) {
                assert forall|a: int, b: int| 0 <= a < b < rest.len() implies (#[trigger] rest[a]).id
                    != (#[trigger] rest[b]).id by {
                    let a2 = if a < i { a } else { a + 1 };
                    let b2 = if b < i { b } else { b + 1 };
                    assert(rows[a2].id != rows[b2].id);
                }
                assert forall|a: int| 0 <= a < rest.len() implies 0 <= (#[trigger] rest[a]).id
                    < next by {
                    let a2 = if a < i { a } else { a + 1 };
                    assert(0 <= rows[a2].id < next);
                }
            }
            assert forall|h: Seq<char>| h != hash implies (has_hash(rest, h) <==> has_hash(rows, h)) by {
                if has_hash(rest, h) {
                    let k = choose|k: int| 0 <= k < rest.len() && (#[trigger] rest[k]).commit_hash == h;
                    let k2 = if k < i { k } else { k + 1 };
                    assert(rows[k2].commit_hash == h);
                }
                if has_hash(rows, h) {
                    let k = choose|k: int| 0 <= k < rows.len() && (#[trigger] rows[k]).commit_hash == h;
                    let k2 = if k < i { k } else { k - 1 };
                    assert(rest[k2].commit_hash == h);
                }
            }
        },
        None => {},
    }
}

proof fn lemma_date_slot(rows: Seq<GlobalContextView>, date: int, p: int)
    requires
        is_date_slot(rows, date, p),
    ensures
        date_slot(rows, date) == p,
{
    let q = date_slot(rows, date);
    assert(is_date_slot(rows, date, q));
    if q < p {
        assert(rows[q].commit_date > date);
    } else if p < q {
        assert(rows[p].commit_date > date);
    }
}

proof fn lemma_insert_row(rest: Seq<GlobalContextView>, row: GlobalContextView, p: int, next: int)
    requires
        durable_wf(rest),
        !has_hash(rest, row.commit_hash),
        is_date_slot(rest, row.commit_date, p),
    ensures
        durable_wf(rest.insert(p, row)),
        has_hash(rest.insert(p, row), row.commit_hash),
        rest.insert(p, row).len() == rest.len() + 1,
        forall|h: Seq<char>| h != row.commit_hash ==> (has_hash(rest.insert(p, row), h) <==> has_hash(rest, h)),
        durable_ids_wf(rest, next) && 0 <= row.id < next && !holds_id(rest, row.id)
            ==> durable_ids_wf(rest.insert(p, row), next),
{
    let out = rest.insert(p, row);
    assert(out[p] == row);
    assert forall|k: int| 0 <= k < out.len() && k != p implies #[trigger] out[k] == rest[if k < p {
        k
    } else {
        k - 1
    }] by {}
    assert forall|a: int, b: int| 0 <= a < b < out.len() implies (#[trigger] out[a]).commit_hash != (
    #[trigger] out[b]).commit_hash && out[a].commit_date >= out[b].commit_date by {
        let a2 = if a < p { a } else { a - 1 };
        let b2 = if b < p { b } else { b - 1 };
        if a == p {
            assert(rest[b2].commit_hash != row.commit_hash);
            assert(rest[b2].commit_date <= row.commit_date);
        } else if b == p {
            assert(rest[a2].commit_hash != row.commit_hash);
            assert(rest[a2].commit_date > row.commit_date);
        } else {
            assert(rest[a2].commit_hash != rest[b2].commit_hash);
            assert(rest[a2].commit_date >= rest[b2].commit_date);
        }
    }
    assert forall|h: Seq<char>| h != row.commit_hash implies (has_hash(out, h) <==> has_hash(rest, h)) by {
        if has_hash(out, h) {
            let k = choose|k: int| 0 <= k < out.len() && (#[trigger] out[k]).commit_hash == h;
            let k2 = if k < p { k } else { k - 1 };
            assert(rest[k2].commit_hash == h);
        }
        if has_hash(rest, h) {
            let k = choose|k: int| 0 <= k < rest.len() && (#[trigger] rest[k]).commit_hash == h;
            let k2 = if k < p { k } else { k + 1 };
            assert(out[k2].commit_hash == h);
        }
    }
    if durable_ids_wf(rest, next) && 0 <= row.id < next && !holds_id(rest, row.id) {
        assert forall|a: int, b: int| 0 <= a < b < out.len() implies (#[trigger] out[a]).id != (
        #[trigger] out[b]).id by {
            let a2 = if a < p { a } else { a - 1 };
            let b2 = if b < p { b } else { b - 1 };
            if a == p {
                assert(rest[b2].id != row.id);
            } else if b == p {
                assert(rest[a2].id != row.id);
            } else {
                assert(rest[a2].id != rest[b2].id);
            }
        }
        assert forall|a: int| 0 <= a < out.len() implies 0 <= (#[trigger] out[a]).id < next by {
            let a2 = if a < p { a } else { a - 1 };
            if a != p {
                assert(0 <= rest[a2].id < next);
            }
        }
    }
}

proof fn lemma_created_slot(rows: Seq<TtlMemoryView>, at: int, p: int)
    requires
        is_created_slot(rows, at, p),
    ensures
        created_slot(rows, at) == p,
{
    let q = created_slot(rows, at);
    assert(is_created_slot(rows, at, q));
    if q < p {
        assert(rows[q].created_at > at);
    } else if p < q {
        assert(rows[p].created_at > at);
    }
}

proof fn lemma_remember_row(rows: Seq<TtlMemoryView>, row: TtlMemoryView, p: int, next: int, bound: int)
    requires
        newest_created_first(rows),
        is_created_slot(rows, row.created_at, p),
        ttl_ids_wf(rows, next),
        next <= bound,
        0 <= row.id < bound,
        forall|i: int| 0 <= i < rows.len() ==> (#[trigger] rows[i]).id != row.id,
    ensures
        newest_created_first(rows.insert(p, row)),
        ttl_ids_wf(rows.insert(p, row), bound),
{
    let out = rows.insert(p, row);
    assert(out[p] == row);
    assert forall|k: int| 0 <= k < out.len() && k != p implies #[trigger] out[k] == rows[if k < p {
        k
    } else {
        k - 1
    }] by {}
    assert forall|a: int, b: int| 0 <= a < b < out.len() implies (#[trigger] out[a]).created_at >= (
    #[trigger] out[b]).created_at && out[a].id != out[b].id by {
        let a2 = if a < p { a } else { a - 1 };
        let b2 = if b < p { b } else { b - 1 };
        if a == p {
            assert(rows[b2].created_at <= row.created_at);
            assert(rows[b2].id != row.id);
        } else if b == p {
            assert(rows[a2].created_at > row.created_at);
            assert(rows[a2].id != row.id);
        } else {
            assert(rows[a2].created_at >= rows[b2].created_at);
            assert(rows[a2].id != rows[b2].id);
        }
    }
    assert forall|a: int| 0 <= a < out.len() implies 0 <= (#[trigger] out[a]).id < bound by {
        let a2 = if a < p { a } else { a - 1 };
        if a != p {
            assert(0 <= rows[a2].id < next);
        }
    }
}

proof fn lemma_visible_ids(rows: Seq<TtlMemoryView>, now: int, next: int)
    requires
        ttl_ids_wf(rows, next),
    ensures
        ttl_ids_wf(visible_at(rows, now), next),
    decreases rows.len(),
{
    if rows.len() > 0 {
        let front = rows.drop_last();
        assert forall|k: int| 0 <= k < front.len() implies #[trigger] front[k] == rows[k] by {}
        assert(ttl_ids_wf(front, next)) by {
            assert forall|a: int, b: int| 0 <= a < b < front.len() implies (#[trigger] front[a]).id != (
            #[trigger] front[b]).id by {
                assert(rows[a].id != rows[b].id);
            }
            assert forall|a: int| 0 <= a < front.len() implies 0 <= (#[trigger] front[a]).id
                < next by {
                assert(0 <= rows[a].id < next);
            }
        }
        lemma_visible_ids(front, now, next);
        lemma_visible_rows(front, now);
        let shown = visible_at(rows, now);
        let before = visible_at(front, now);
        if rows.last().expires_at > now {
            let last = rows.last();
            assert(rows[rows.len() - 1] == last);
            assert forall|a: int| 0 <= a < before.len() implies (#[trigger] before[a]).id
                != last.id by {
                let k = choose|k: int| 0 <= k < front.len() && front[k] == before[a];
                assert(rows[k].id != rows[rows.len() - 1].id);
            }
            assert forall|a: int, b: int| 0 <= a < b < shown.len() implies (#[trigger] shown[a]).id != (
            #[trigger] shown[b]).id by {
                if b < before.len() {
                    assert(before[a].id != before[b].id);
                } else {
                    assert(before[a].id != last.id);
                }
            }
            assert forall|a: int| 0 <= a < shown.len() implies 0 <= (#[trigger] shown[a]).id
                < next by {
                if a < before.len() {
                    assert(0 <= before[a].id < next);
                }
            }
        }
    }
}

// ---------------------------------------------------------------------------
// Laws
// ---------------------------------------------------------------------------

/// Sweeping and reading agree: the visible rows and the expired rows part
/// the table; every visible row is a row of the table that has not expired,
/// in the table's order; and a row of the table that has not expired is
/// visible.
pub proof fn lemma_visible_rows(rows: Seq<TtlMemoryView>, now: int)
    ensures
        visible_at(rows, now).len() + expired_count(rows, now) == rows.len(),
        forall|i: int|
            0 <= i < visible_at(rows, now).len() ==> (#[trigger] visible_at(rows, now)[i]).expires_at
                > now && exists|k: int| 0 <= k < rows.len() && rows[k] == visible_at(rows, now)[i],
        forall|k: int|
            0 <= k < rows.len() && (#[trigger] rows[k]).expires_at > now ==> visible_at(
                rows,
                now,
            ).contains(rows[k]),
        newest_created_first(rows) ==> newest_created_first(visible_at(rows, now)),
    decreases rows.len(),
{
    if rows.len() > 0 {
        let front = rows.drop_last();
        lemma_visible_rows(front, now);
        let shown = visible_at(rows, now);
        let before = visible_at(front, now);
        assert forall|i: int| 0 <= i < shown.len() implies (#[trigger] shown[i]).expires_at > now
            && exists|k: int| 0 <= k < rows.len() && rows[k] == shown[i] by {
            if i < before.len() {
                assert(shown[i] == before[i]);
                let k = choose|k: int| 0 <= k < front.len() && front[k] == before[i];
                assert(rows[k] == shown[i]);
            } else {
                assert(rows[rows.len() - 1] == shown[i]);
            }
        }
        assert forall|k: int| 0 <= k < rows.len() && (#[trigger] rows[k]).expires_at
            > now implies shown.contains(rows[k]) by {
            if k < front.len() {
                assert(front[k] == rows[k]);
                assert(before.contains(rows[k]));
                let m = choose|m: int| 0 <= m < before.len() && before[m] == rows[k];
                assert(shown[m] == rows[k]);
            } else {
                assert(shown[shown.len() - 1] == rows[k]);
            }
        }
        if newest_created_first(rows) {
            assert(newest_created_first(front)) by {
                assert forall|i: int, j: int| 0 <= i < j < front.len() implies (
                #[trigger] front[i]).created_at >= (#[trigger] front[j]).created_at by {
                    assert(rows[i] == front[i] && rows[j] == front[j]);
                }
            }
            assert forall|i: int, j: int| 0 <= i < j < shown.len() implies (
            #[trigger] shown[i]).created_at >= (#[trigger] shown[j]).created_at by {
                if j < before.len() {
                    assert(shown[i] == before[i] && shown[j] == before[j]);
                } else {
                    assert(shown[i] == before[i]);
                    let k = choose|k: int| 0 <= k < front.len() && front[k] == before[i];
                    assert(rows[k] == front[k]);
                    assert(shown[j] == rows[rows.len() - 1]);
                }
            }
        }
    }
}

proof fn lemma_slot_exists(rows: Seq<GlobalContextView>, date: int)
    requires
        newest_first(rows),
    ensures
        is_date_slot(rows, date, date_slot(rows, date)),
    decreases rows.len(),
{
    if rows.len() == 0 {
        assert(is_date_slot(rows, date, 0));
    } else {
        let front = rows.drop_last();
        assert forall|k: int| 0 <= k < front.len() implies #[trigger] front[k] == rows[k] by {}
        assert(newest_first(front)) by {
            assert forall|a: int, b: int| 0 <= a < b < front.len() implies (
            #[trigger] front[a]).commit_date >= (#[trigger] front[b]).commit_date by {
                assert(rows[a].commit_date >= rows[b].commit_date);
            }
        }
        lemma_slot_exists(front, date);
        let q = date_slot(front, date);
        let last = rows.len() - 1;
        if q < front.len() {
            assert forall|j: int| q <= j < rows.len() implies (#[trigger] rows[j]).commit_date
                <= date by {
                if j == last {
                    assert(front[q].commit_date <= date);
                    assert(rows[q].commit_date >= rows[last].commit_date);
                } else {
                    assert(front[j].commit_date <= date);
                }
            }
            assert forall|j: int| 0 <= j < q implies (#[trigger] rows[j]).commit_date > date by {
                assert(front[j].commit_date > date);
            }
            assert(is_date_slot(rows, date, q));
        } else {
            let p = if rows[last].commit_date > date {
                last + 1
            } else {
                last
            };
            assert forall|j: int| 0 <= j < p implies (#[trigger] rows[j]).commit_date > date by {
                if j < last {
                    assert(front[j].commit_date > date);
                }
            }
            assert(is_date_slot(rows, date, p));
        }
    }
}

/// Storing a summary under a hash replaces what stood there: afterwards the
/// table holds exactly one row for the hash, the new one; rows under other
/// hashes stay; and the number of rows grows by one only where the hash was
/// new. The table keeps its invariant.
pub proof fn lemma_upsert_replaces(rows: Seq<GlobalContextView>, row: GlobalContextView)
    requires
        durable_wf(rows),
    ensures
        durable_wf(upserted(rows, row)),
        upserted(rows, row).len() == if has_hash(rows, row.commit_hash) {
            rows.len()
        } else {
            rows.len() + 1
        },
        has_hash(upserted(rows, row), row.commit_hash),
        forall|i: int|
            0 <= i < upserted(rows, row).len() && (#[trigger] upserted(rows, row)[i]).commit_hash
                == row.commit_hash ==> upserted(rows, row)[i] == row,
        forall|h: Seq<char>|
            h != row.commit_hash ==> (has_hash(upserted(rows, row), h) <==> has_hash(rows, h)),
        forall|i: int|
            0 <= i < rows.len() && (#[trigger] rows[i]).commit_hash != row.commit_hash
                ==> upserted(rows, row).contains(rows[i]),
        forall|i: int|
            0 <= i < upserted(rows, row).len() ==> (#[trigger] upserted(rows, row)[i]) == row
                || rows.contains(upserted(rows, row)[i]),
{
    let hash = row.commit_hash;
    let rest = without_hash(rows, hash);
    lemma_without_hash(rows, hash, 0);
    lemma_slot_exists(rest, row.commit_date);
    let p = date_slot(rest, row.commit_date);
    lemma_insert_row(rest, row, p, 0);
    let out = upserted(rows, row);
    assert(out == rest.insert(p, row));
    assert(out[p] == row);
    assert forall|k: int| 0 <= k < out.len() && k != p implies #[trigger] out[k] == rest[if k < p {
        k
    } else {
        k - 1
    }] by {}
    assert forall|i: int| 0 <= i < out.len() && (#[trigger] out[i]).commit_hash
        == hash implies out[i] == row by {
        if i != p {
            let i2 = if i < p { i } else { i - 1 };
            assert(rest[i2].commit_hash == hash);
        }
    }
    assert forall|i: int| 0 <= i < out.len() implies (#[trigger] out[i]) == row || rows.contains(
        out[i],
    ) by {
        if i != p {
            let i2 = if i < p { i } else { i - 1 };
            assert(out[i] == rest[i2]);
            match hash_index(rows, hash) {
                Some(at) => {
                    assert(rest == rows.remove(at));
                    let i3 = if i2 < at { i2 } else { i2 + 1 };
                    assert(rows[i3] == rest[i2]);
                },
                None => {
                    assert(rows[i2] == rest[i2]);
                },
            }
        }
    }
    assert forall|i: int| 0 <= i < rows.len() && (#[trigger] rows[i]).commit_hash
        != hash implies out.contains(rows[i]) by {
        let k: int = match hash_index(rows, hash) {
            Some(at) => {
                assert(rest == rows.remove(at));
                let k = if i < at { i } else { i - 1 };
                assert(rest[k] == rows[i]);
                k
            },
            None => i,
        };
        let k2 = if k < p { k } else { k + 1 };
        assert(out[k2] == rows[i]);
    }
}

/// A sweep leaves every later read as it was: what is visible at `later`
/// after the rows expired at `now` are gone is what was visible at `later`
/// before.
pub proof fn lemma_sweep_keeps_visible(rows: Seq<TtlMemoryView>, now: int, later: int)
    requires
        now <= later,
    ensures
        visible_at(visible_at(rows, now), later) == visible_at(rows, later),
    decreases rows.len(),
{
    if rows.len() > 0 {
        let front = rows.drop_last();
        let last = rows.last();
        lemma_sweep_keeps_visible(front, now, later);
        if last.expires_at > now {
            let kept = visible_at(front, now).push(last);
            assert(kept.drop_last() =~= visible_at(front, now));
            assert(kept.last() == last);
        }
    }
}

/// Summaries chain forward: once a commit is stored that is no older than
/// any commit in the table, its row is the most recent one, so its summary
/// is what the next extraction is given.
pub proof fn lemma_latest_after_store(rows: Seq<GlobalContextView>, row: GlobalContextView)
    requires
        durable_wf(rows),
        forall|i: int| 0 <= i < rows.len() ==> (#[trigger] rows[i]).commit_date <= row.commit_date,
    ensures
        upserted(rows, row).len() > 0,
        upserted(rows, row)[0] == row,
{
    let rest = without_hash(rows, row.commit_hash);
    lemma_without_hash(rows, row.commit_hash, 0);
    assert forall|k: int| 0 <= k < rest.len() implies (#[trigger] rest[k]).commit_date
        <= row.commit_date by {
        match hash_index(rows, row.commit_hash) {
            Some(at) => {
                assert(rest == rows.remove(at));
                let k2 = if k < at { k } else { k + 1 };
                assert(rest[k] == rows[k2]);
            },
            None => {},
        }
    }
    assert(is_date_slot(rest, row.commit_date, 0));
    lemma_date_slot(rest, row.commit_date, 0);
}

} // verus!
