//! The state behind the terminal screens: what is selected, where the cursor
//! stands, which step a screen shows. Drawing is left to the caller.

use vstd::prelude::*;
use vstd::string::*;
use crate::git::{commit_views, CommitInfo, CommitView};
use crate::storage::GlobalContext;

verus! {

/// The banner.
#[derive(Debug, PartialEq, Eq)]
pub struct Logo;

/// A labelled progress bar.
#[derive(Debug, PartialEq, Eq)]
pub struct ProgressBar {
    pub current: usize,
    pub total: usize,
    pub label: String,
}

impl ProgressBar {
    /// A bar that stands at `current` of `total`.
    pub fn new(current: usize, total: usize, label: &str) -> (bar: ProgressBar)
        ensures
            bar.current == current,
            bar.total == total,
            bar.label@ == label@,
    {
        ProgressBar { current, total, label: String::from_str(label) }
    }
}

/// A list whose items can be ticked.
#[derive(Debug, PartialEq, Eq)]
pub struct SelectionList {
    pub items: Vec<String>,
    pub selected: Vec<bool>,
    pub scroll: u16,
}

fn all_clear(n: usize) -> (flags: Vec<bool>)
    ensures
        flags@.len() == n,
        forall|i: int| 0 <= i < n ==> !flags@[i],
{
    let mut flags: Vec<bool> = Vec::new();
    while flags.len() < n
        invariant
            flags@.len() <= n,
            forall|i: int| 0 <= i < flags@.len() ==> !flags@[i],
        decreases n - flags.len(),
    {
        flags.push(false);
    }
    flags
}

impl SelectionList {
    /// A list with nothing ticked.
    pub fn new(items: Vec<String>) -> (list: SelectionList)
        ensures
            list.items == items,
            list.selected@.len() == items@.len(),
            forall|i: int| 0 <= i < items@.len() ==> !list.selected@[i],
            list.scroll == 0,
    {
        let selected = all_clear(items.len());
        SelectionList { items, selected, scroll: 0 }
    }

    /// Flips the tick of item `index`; an index past the end changes nothing.
    pub fn toggle(&mut self, index: usize)
        ensures
            final(self).items == old(self).items,
            final(self).scroll == old(self).scroll,
            final(self).selected@ == if index < old(self).selected@.len() {
                old(self).selected@.update(index as int, !old(self).selected@[index as int])
            } else {
                old(self).selected@
            },
    {
        if index < self.selected.len() {
            let flipped = !self.selected[index];
            self.selected.set(index, flipped);
        }
    }

    /// Ticks item `index` alone; an index past the end leaves nothing ticked.
    pub fn select(&mut self, index: usize)
        ensures
            final(self).items == old(self).items,
            final(self).scroll == old(self).scroll,
            final(self).selected@.len() == old(self).selected@.len(),
            forall|i: int|
                0 <= i < final(self).selected@.len() ==> final(self).selected@[i] == (i == index),
    {
        self.selected = all_clear(self.selected.len());
        if index < self.selected.len() {
            self.selected.set(index, true);
        }
    }
}

/// The steps of the set-up screen.
#[derive(Debug, Clone, Copy, PartialEq, Eq, Structural)]
pub enum InitStep {
    Welcome,
    Creating,
    Success,
    Error,
}

/// The step that follows `step`: success and error are final.
pub open spec fn step_after(step: InitStep) -> InitStep {
    match step {
        InitStep::Welcome => InitStep::Creating,
        InitStep::Creating => InitStep::Success,
        InitStep::Success => InitStep::Success,
        InitStep::Error => InitStep::Error,
    }
}

/// The set-up screen.
#[derive(Debug, PartialEq, Eq)]
pub struct InitScreen {
    pub step: InitStep,
    pub message: String,
}

impl InitScreen {
    /// The screen at its first step, with no message.
    pub fn new() -> (screen: InitScreen)
        ensures
            screen.step == InitStep::Welcome,
            screen.message@.len() == 0,
    {
        InitScreen { step: InitStep::Welcome, message: String::new() }
    }

    /// Moves to the next step.
    pub fn next_step(&mut self)
        ensures
            final(self).step == step_after(old(self).step),
            final(self).message == old(self).message,
    {
        match self.step {
            InitStep::Welcome => {
                self.step = InitStep::Creating;
            },
            InitStep::Creating => {
                self.step = InitStep::Success;
            },
            InitStep::Success => {},
            InitStep::Error => {},
        }
    }

    /// Shows `msg` as the error the set-up ended with.
    pub fn set_error(&mut self, msg: String)
        ensures
            final(self).step == InitStep::Error,
            final(self).message == msg,
    {
        self.step = InitStep::Error;
        self.message = msg;
    }
}

/// What the synchronisation screen shows.
#[derive(Debug, Clone, Copy, PartialEq, Eq, Structural)]
pub enum SyncStatus {
    Selection,
    Processing,
    Complete,
    Error,
}

/// The synchronisation screen: a list of commits, a cursor, and the indices
/// of the commits picked for processing.
#[derive(Debug, PartialEq, Eq)]
pub struct SyncScreen {
    pub commits: Vec<CommitInfo>,
    pub selected_indices: Vec<usize>,
    pub current_index: usize,
    pub scroll: u16,
    pub status: SyncStatus,
    pub processing_index: usize,
}

/// How many rows of a list are on screen at once.
pub const VISIBLE_ROWS: usize = 10;

/// `p` is the first place where `x` stands in `s`.
pub open spec fn first_place(s: Seq<usize>, x: usize, p: int) -> bool {
    &&& 0 <= p < s.len()
    &&& s[p] == x
    &&& forall|j: int| 0 <= j < p ==> s[j] != x
}

/// `picks` after the pick of `x` is flipped: its first mention is taken out,
/// or, where it has none, `x` is added at the end.
pub open spec fn flipped(picks: Seq<usize>, x: usize) -> Seq<usize> {
    if exists|p: int| first_place(picks, x, p) {
        picks.remove(choose|p: int| first_place(picks, x, p))
    } else {
        picks.push(x)
    }
}

/// The commits that `picks` point at, in the order of `picks`; a pick past
/// the end of the list points at nothing.
pub open spec fn picked(commits: Seq<CommitView>, picks: Seq<usize>) -> Seq<CommitView>
    decreases picks.len(),
{
    if picks.len() == 0 {
        Seq::empty()
    } else if picks.last() < commits.len() {
        picked(commits, picks.drop_last()).push(commits[picks.last() as int])
    } else {
        picked(commits, picks.drop_last())
    }
}

impl SyncScreen {
    /// The screen for `commits`, with the first one picked.
    pub fn new(commits: Vec<CommitInfo>) -> (screen: SyncScreen)
        ensures
            screen.commits == commits,
            screen.selected_indices@ == seq![0usize],
            screen.current_index == 0,
            screen.scroll == 0,
            screen.status == SyncStatus::Selection,
            screen.processing_index == 0,
    {
        let mut selected_indices: Vec<usize> = Vec::new();
        selected_indices.push(0);
        assert(selected_indices@ =~= seq![0usize]);
        SyncScreen {
            commits,
            selected_indices,
            current_index: 0,
            scroll: 0,
            status: SyncStatus::Selection,
            processing_index: 0,
        }
    }

    /// Moves the cursor up one row; the view follows when the cursor leaves
    /// it at the top.
    pub fn move_up(&mut self)
        ensures
            final(self).commits == old(self).commits,
            final(self).selected_indices == old(self).selected_indices,
            final(self).status == old(self).status,
            final(self).processing_index == old(self).processing_index,
            final(self).current_index == if old(self).current_index > 0 {
                old(self).current_index - 1
            } else {
                0
            },
            final(self).scroll == if 0 < old(self).current_index <= old(self).scroll {
                (old(self).current_index - 1) as u16
            } else {
                old(self).scroll
            },
    {
        if self.current_index > 0 {
            self.current_index = self.current_index - 1;
            if self.current_index < self.scroll as usize {
                self.scroll = self.current_index as u16;
            }
        }
    }

    /// Moves the cursor down one row, down to the last commit; the view
    /// follows when the cursor leaves it at the bottom.
    pub fn move_down(&mut self)
        requires
            old(self).commits.len() > 0,
            old(self).scroll < u16::MAX,
        ensures
            final(self).commits == old(self).commits,
            final(self).selected_indices == old(self).selected_indices,
            final(self).status == old(self).status,
            final(self).processing_index == old(self).processing_index,
            final(self).current_index == if old(self).current_index < old(self).commits.len() - 1 {
                old(self).current_index + 1
            } else {
                old(self).current_index as int
            },
            final(self).scroll == if old(self).current_index < old(self).commits.len() - 1 && old(
                self,
            ).current_index + 1 >= old(self).scroll + 10 {
                old(self).scroll + 1
            } else {
                old(self).scroll as int
            },
    {
        if self.current_index < self.commits.len() - 1 {
            self.current_index = self.current_index + 1;
            if self.current_index >= self.scroll as usize + VISIBLE_ROWS {
                self.scroll = self.scroll + 1;
            }
        }
    }

    /// Flips the pick of the commit under the cursor.
    pub fn toggle_selection(&mut self)
        requires
            old(self).selected_indices.len() < usize::MAX,
        ensures
            final(self).commits == old(self).commits,
            final(self).current_index == old(self).current_index,
            final(self).scroll == old(self).scroll,
            final(self).status == old(self).status,
            final(self).processing_index == old(self).processing_index,
            final(self).selected_indices@ == flipped(
                old(self).selected_indices@,
                old(self).current_index,
            ),
    {
        let ghost picks = self.selected_indices@;
        let x = self.current_index;
        let mut p: usize = 0;
        while p < self.selected_indices.len()
            invariant
                p <= self.selected_indices.len(),
                self.selected_indices@ == picks,
                *self == *old(self),
                x == self.current_index,
                forall|j: int| 0 <= j < p ==> picks[j] != x,
            decreases self.selected_indices.len() - p,
        {
            if self.selected_indices[p] == x {
                assert(first_place(picks, x, p as int));
                let ghost q = choose|q: int| first_place(picks, x, q);
                assert(q == p);
                self.selected_indices.remove(p);
                return ;
            }
            p = p + 1;
        }
        assert(!exists|q: int| first_place(picks, x, q));
        self.selected_indices.push(x);
    }

    /// The commits picked for processing.
    pub fn get_selected_commits(&self) -> (out: Vec<CommitInfo>)
        ensures
            commit_views(out@) == picked(commit_views(self.commits@), self.selected_indices@),
            out@.len() == picked(commit_views(self.commits@), self.selected_indices@).len(),
    {
        let ghost shown = commit_views(self.commits@);
        let ghost picks = self.selected_indices@;
        let mut out: Vec<CommitInfo> = Vec::new();
        let mut k: usize = 0;
        assert(commit_views(out@) =~= picked(shown, picks.take(0)));
        while k < self.selected_indices.len()
            invariant
                k <= self.selected_indices.len(),
                shown == commit_views(self.commits@),
                picks == self.selected_indices@,
                commit_views(out@) == picked(shown, picks.take(k as int)),
            decreases self.selected_indices.len() - k,
        {
            assert(picks.take(k + 1).drop_last() =~= picks.take(k as int));
            assert(picks.take(k + 1).last() == picks[k as int]);
            let i = self.selected_indices[k];
            if i < self.commits.len() {
                let ghost before = commit_views(out@);
                out.push(self.commits[i].clone());
                assert(commit_views(out@) =~= before.push(shown[i as int]));
            }
            k = k + 1;
        }
        assert(picks.take(self.selected_indices.len() as int) =~= picks);
        out
    }
}

/// The screen that lists the stored context.
#[derive(Debug, PartialEq, Eq)]
pub struct ContextScreen {
    pub contexts: Vec<GlobalContext>,
    pub scroll: u16,
    pub current_index: usize,
}

impl ContextScreen {
    /// The screen for `contexts`, with the cursor on the first entry.
    pub fn new(contexts: Vec<GlobalContext>) -> (screen: ContextScreen)
        ensures
            screen.contexts == contexts,
            screen.scroll == 0,
            screen.current_index == 0,
    {
        ContextScreen { contexts, scroll: 0, current_index: 0 }
    }

    /// Moves the cursor up one row.
    pub fn move_up(&mut self)
        ensures
            final(self).contexts == old(self).contexts,
            final(self).scroll == old(self).scroll,
            final(self).current_index == if old(self).current_index > 0 {
                old(self).current_index - 1
            } else {
                0
            },
    {
        if self.current_index > 0 {
            self.current_index = self.current_index - 1;
        }
    }

    /// Moves the cursor down one row, down to the last entry.
    pub fn move_down(&mut self)
        requires
            old(self).contexts.len() > 0,
        ensures
            final(self).contexts == old(self).contexts,
            final(self).scroll == old(self).scroll,
            final(self).current_index == if old(self).current_index < old(self).contexts.len() - 1 {
                old(self).current_index + 1
            } else {
                old(self).current_index as int
            },
    {
        if self.current_index < self.contexts.len() - 1 {
            self.current_index = self.current_index + 1;
        }
    }
}

/// Which screen the terminal shows.
#[derive(Debug, PartialEq, Eq)]
pub enum AppState {
    Sync(SyncScreen),
    Context(ContextScreen),
    Exit,
}

/// The terminal application.
#[derive(Debug, PartialEq, Eq)]
pub struct App {
    pub state: AppState,
    pub should_exit: bool,
}

impl App {
    /// An application that shows no screen yet.
    pub fn new() -> (app: App)
        ensures
            app.state is Exit,
            !app.should_exit,
    {
        App { state: AppState::Exit, should_exit: false }
    }
}

} // verus!
