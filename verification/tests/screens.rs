use contexthub::config::{ContextConfig, GitConfig, UiConfig};
use contexthub::git::CommitInfo;
use contexthub::storage::GlobalContext;
use contexthub::ui::{
    App, AppState, ContextScreen, InitScreen, InitStep, ProgressBar, SelectionList, SyncScreen,
    SyncStatus,
};

fn commits(n: usize) -> Vec<CommitInfo> {
    (0..n).map(|i| CommitInfo::from_parts(&format!("hash{}", i), Some("m"), None, i as i64, vec![])).collect()
}

fn rows(n: usize) -> Vec<GlobalContext> {
    (0..n)
        .map(|i| GlobalContext {
            id: i as i64,
            commit_hash: format!("h{}", i),
            commit_message: String::new(),
            commit_date: 0,
            context_summary: String::new(),
            files_changed: String::new(),
            llm_extracted_context: String::new(),
            created_at: 0,
        })
        .collect()
}

#[test]
fn defaults_of_the_settings() {
    let c = ContextConfig::default();
    assert_eq!(c.default_commit_range, 10);
    assert_eq!(c.max_tokens_per_commit, 1000);
    assert_eq!(c.global_retention_days, -1);
    assert_eq!(c.ttl_days, 7);
    let g = GitConfig::default();
    assert!(!g.auto_sync);
    assert!(!g.hook_enabled);
    assert_eq!(UiConfig::default().theme, "tokyo-night");
    assert_eq!(c.clone(), c);
}

#[test]
fn ttl_days_can_be_set() {
    let mut c = ContextConfig::default();
    c.set_ttl_days(-3);
    assert_eq!(c.ttl_days, -3);
    assert_eq!(c.default_commit_range, 10);
}

#[test]
fn progress_bar_keeps_what_it_is_given() {
    let bar = ProgressBar::new(3, 9, "Syncing");
    assert_eq!(bar.current, 3);
    assert_eq!(bar.total, 9);
    assert_eq!(bar.label, "Syncing");
}

#[test]
fn selection_list_ticks() {
    let mut list = SelectionList::new(vec!["a".to_string(), "b".to_string(), "c".to_string()]);
    assert_eq!(list.selected, vec![false, false, false]);
    assert_eq!(list.scroll, 0);
    list.toggle(1);
    assert_eq!(list.selected, vec![false, true, false]);
    list.toggle(2);
    list.toggle(1);
    assert_eq!(list.selected, vec![false, false, true]);
    list.toggle(3);
    assert_eq!(list.selected, vec![false, false, true]);
    list.select(0);
    assert_eq!(list.selected, vec![true, false, false]);
    list.select(7);
    assert_eq!(list.selected, vec![false, false, false]);
    assert_eq!(list.items.len(), 3);
}

#[test]
fn init_screen_steps() {
    let mut screen = InitScreen::new();
    assert_eq!(screen.step, InitStep::Welcome);
    assert_eq!(screen.message, "");
    screen.next_step();
    assert_eq!(screen.step, InitStep::Creating);
    screen.next_step();
    assert_eq!(screen.step, InitStep::Success);
    screen.next_step();
    assert_eq!(screen.step, InitStep::Success);
    screen.set_error("disk full".to_string());
    assert_eq!(screen.step, InitStep::Error);
    assert_eq!(screen.message, "disk full");
    screen.next_step();
    assert_eq!(screen.step, InitStep::Error);
}

#[test]
fn sync_screen_cursor_and_view() {
    let mut screen = SyncScreen::new(commits(15));
    assert_eq!(screen.selected_indices, vec![0]);
    assert_eq!(screen.status, SyncStatus::Selection);
    screen.move_up();
    assert_eq!(screen.current_index, 0);
    for _ in 0..9 {
        screen.move_down();
    }
    assert_eq!(screen.current_index, 9);
    assert_eq!(screen.scroll, 0);
    screen.move_down();
    assert_eq!(screen.current_index, 10);
    assert_eq!(screen.scroll, 1);
    for _ in 0..10 {
        screen.move_down();
    }
    assert_eq!(screen.current_index, 14);
    assert_eq!(screen.scroll, 5);
    for _ in 0..10 {
        screen.move_up();
    }
    assert_eq!(screen.current_index, 4);
    assert_eq!(screen.scroll, 4);
}

#[test]
fn sync_screen_picks() {
    let mut screen = SyncScreen::new(commits(3));
    screen.toggle_selection();
    assert!(screen.selected_indices.is_empty());
    screen.move_down();
    screen.toggle_selection();
    screen.move_down();
    screen.toggle_selection();
    screen.move_up();
    screen.move_up();
    screen.toggle_selection();
    assert_eq!(screen.selected_indices, vec![1, 2, 0]);
    let picked: Vec<String> = screen.get_selected_commits().into_iter().map(|c| c.hash).collect();
    assert_eq!(picked, vec!["hash1", "hash2", "hash0"]);
    screen.selected_indices.push(9);
    assert_eq!(screen.get_selected_commits().len(), 3);
}

#[test]
fn context_screen_cursor() {
    let mut screen = ContextScreen::new(rows(2));
    assert_eq!(screen.current_index, 0);
    screen.move_up();
    assert_eq!(screen.current_index, 0);
    screen.move_down();
    assert_eq!(screen.current_index, 1);
    screen.move_down();
    assert_eq!(screen.current_index, 1);
    screen.move_up();
    assert_eq!(screen.current_index, 0);
    assert_eq!(screen.scroll, 0);
}

#[test]
fn application_starts_without_a_screen() {
    let app = App::new();
    assert_eq!(app.state, AppState::Exit);
    assert!(!app.should_exit);
}
