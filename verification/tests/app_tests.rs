use kdo::app::{App, ConfirmedAction, Focus, Mode};
use kdo::task::Task;

fn parse(line: &str) -> Task {
    kdo::parse::TaskParser::new().parse_line(line).unwrap()
}

fn sample_app() -> App {
    let tasks = vec![
        parse("x (A) done thing @home +chores"),
        parse("(B) call mom @phone +family"),
        parse("water plants @home +chores"),
    ];
    App::new("test", "todo.txt", &tasks)
}

#[test]
fn new_app_layout() {
    let app = sample_app();
    assert_eq!(app.tasks.len(), 4);
    assert_eq!(app.tasks[0].description(), "[new]");
    assert_eq!(app.task_list.items(), &vec![0, 1, 2, 3]);
    assert_eq!(app.task_list.selection(), Some(0));
    assert_eq!(
        app.context_list.items(),
        &vec!["[all]".to_string(), "home".to_string(), "phone".to_string()]
    );
    assert_eq!(
        app.project_list.items(),
        &vec![
            "[all]".to_string(),
            "chores".to_string(),
            "family".to_string()
        ]
    );
    assert_eq!(
        app.priority_list.items(),
        &vec!["[all]".to_string(), "A".to_string(), "B".to_string()]
    );
    assert_eq!(app.mode, Mode::Normal);
    assert_eq!(app.focus, Focus::Tasks);
    assert_eq!(app.omit_completed, true);
    assert_eq!(app.error_msg, "");
}

#[test]
fn filter_tasks_hides_completed() {
    let mut app = sample_app();
    app.filter_tasks();
    assert_eq!(app.task_list.items(), &vec![0, 2, 3]);
    assert_eq!(app.task_list.selection(), Some(0));
}

#[test]
fn toggle_twice_matches_fresh_filter() {
    // the filtered list depends only on the current flag, not on the
    // history of flag values
    let mut a = sample_app();
    a.filter_tasks();
    let mut b = sample_app();
    b.toggle_completed();
    assert_eq!(b.task_list.items(), &vec![0, 1, 2, 3]);
    b.toggle_completed();
    assert_eq!(a.task_list.items(), b.task_list.items());
    assert_eq!(a.omit_completed, b.omit_completed);
}

#[test]
fn facet_filtering_by_context() {
    let mut app = sample_app();
    app.context_list.select(Some(2));  // "phone"
    app.filter_tasks();
    assert_eq!(app.task_list.items(), &vec![0, 2]);
}

#[test]
fn navigation_ring() {
    let mut app = sample_app();
    app.navigate_right();
    assert_eq!(app.focus, Focus::Contexts);
    app.navigate_right();
    assert_eq!(app.focus, Focus::Projects);
    app.navigate_right();
    assert_eq!(app.focus, Focus::Priorities);
    app.navigate_right();
    assert_eq!(app.focus, Focus::Tasks);
    app.navigate_left();
    assert_eq!(app.focus, Focus::Priorities);
    app.navigate_left();
    assert_eq!(app.focus, Focus::Projects);
    // no navigation outside Normal mode
    app.enter_help_mode();
    app.navigate_left();
    assert_eq!(app.focus, Focus::Projects);
    app.exit_help_mode();
}

#[test]
fn navigation_moves_task_cursor() {
    let mut app = sample_app();
    app.navigate_down();
    assert_eq!(app.task_list.selection(), Some(1));
    app.navigate_up();
    app.navigate_up();
    // wraps to the last entry
    assert_eq!(app.task_list.selection(), Some(3));
}

#[test]
fn sort_orders_tasks() {
    // ascending: incomplete before completed, then letters before "no
    // priority", then the remaining fields
    let tasks = vec![parse("(B) two"), parse("(A) one"), parse("three"), parse("x (A) zzz")];
    let mut app = App::new("t", "f", &tasks);
    app.sort_tasks();
    assert_eq!(app.tasks[0].description(), "[new]");
    assert_eq!(app.tasks[1].description(), "one");
    assert_eq!(app.tasks[2].description(), "two");
    assert_eq!(app.tasks[3].description(), "three");
    assert_eq!(app.tasks[4].description(), "zzz");
}

#[test]
fn sort_orders_dates_after_priority() {
    // among equal priorities, an absent creation date sorts first,
    // then earlier dates before later ones
    let tasks = vec![
        parse("(A) 2024-01-02 later"),
        parse("(A) 2024-01-01 earlier"),
        parse("(A) undated"),
    ];
    let mut app = App::new("t", "f", &tasks);
    app.sort_tasks();
    assert_eq!(app.tasks[1].description(), "undated");
    assert_eq!(app.tasks[2].description(), "earlier");
    assert_eq!(app.tasks[3].description(), "later");
}

#[test]
fn sort_is_stable() {
    let tasks = vec![parse("(A) first"), parse("(A) first"), parse("(B) other")];
    let mut app = App::new("t", "f", &tasks);
    app.sort_tasks();
    assert_eq!(app.tasks[1].description(), "first");
    assert_eq!(app.tasks[2].description(), "first");
    assert_eq!(app.tasks[3].description(), "other");
}

#[test]
fn mark_selected_task_complete_stamps_date() {
    let mut app = App::new("t", "f", &vec![parse("2024-01-05 water @home")]);
    app.task_list.select(Some(1));
    app.mark_selected_task_complete();
    let t = &app.tasks[1];
    assert!(t.completed);
    let d = t.date_completed.expect("completion date stamped");
    assert!(1 <= d.month && d.month <= 12);
    assert!(1 <= d.day && d.day <= 31);
}

#[test]
fn mark_complete_without_creation_date() {
    let mut app = App::new("t", "f", &vec![parse("no dates here")]);
    app.task_list.select(Some(1));
    app.mark_selected_task_complete();
    let t = &app.tasks[1];
    assert!(t.completed);
    assert_eq!(t.date_completed, None);
}

#[test]
fn mark_complete_without_selection_is_noop() {
    let mut app = App::new("t", "f", &vec![parse("a task")]);
    app.mark_selected_task_complete();
    assert!(!app.tasks[1].completed);
}

#[test]
fn edit_mode_seeds_with_rendering() {
    let mut app = sample_app();
    app.task_list.select(Some(2));
    let seed = app.enter_edit_mode();
    assert_eq!(app.mode, Mode::Edit);
    assert_eq!(seed, "(B) call mom @phone +family");
    // the sentinel seeds an empty editor
    app.task_list.select(Some(0));
    assert_eq!(app.enter_edit_mode(), "");
}

#[test]
fn exit_edit_cancel_changes_nothing() {
    let mut app = sample_app();
    app.task_list.select(Some(2));
    app.enter_edit_mode();
    app.exit_edit_mode(None);
    assert_eq!(app.mode, Mode::Normal);
    assert_eq!(app.tasks.len(), 4);
    assert_eq!(app.tasks[2].description(), "call mom @phone +family");
}

#[test]
fn exit_edit_replaces_selected_task() {
    let mut app = sample_app();
    app.task_list.select(Some(2));
    app.enter_edit_mode();
    app.exit_edit_mode(Some("(C) call dad @phone".to_string()));
    assert_eq!(app.mode, Mode::Normal);
    assert_eq!(app.tasks.len(), 4);
    assert_eq!(app.tasks[2].description(), "call dad @phone");
    assert_eq!(app.tasks[2].priority, Some('C'));
    // facet lists regenerated: the family project is gone
    assert_eq!(
        app.project_list.items(),
        &vec!["[all]".to_string(), "chores".to_string()]
    );
}

#[test]
fn exit_edit_appends_on_sentinel() {
    let mut app = sample_app();
    app.task_list.select(Some(0));
    app.enter_edit_mode();
    app.exit_edit_mode(Some("new thing +chores".to_string()));
    assert_eq!(app.tasks.len(), 5);
    let t = &app.tasks[4];
    assert_eq!(t.description(), "new thing +chores");
    // a newly created task is stamped with the current date
    let d = t.date_created.expect("creation date stamped");
    assert!(1 <= d.month && d.month <= 12);
    assert_eq!(app.task_list.selection(), Some(0));
}

#[test]
fn exit_edit_parse_failure_sets_error() {
    let mut app = sample_app();
    app.task_list.select(Some(2));
    app.enter_edit_mode();
    app.exit_edit_mode(Some("   ".to_string()));
    assert_eq!(app.mode, Mode::Normal);
    assert_eq!(app.error_msg, "Failed to parse Task");
    assert_eq!(app.tasks.len(), 4);
}

#[test]
fn exit_edit_empty_deletes_selected() {
    let mut app = sample_app();
    app.task_list.select(Some(2));
    app.enter_edit_mode();
    app.exit_edit_mode(Some("".to_string()));
    assert_eq!(app.tasks.len(), 3);
    assert_eq!(app.tasks[1].description(), "done thing @home +chores");
    assert_eq!(app.tasks[2].description(), "water plants @home +chores");
    // deleting the selected task returns the cursor to the sentinel
    assert_eq!(app.task_list.selection(), Some(0));
}

#[test]
fn exit_edit_empty_on_sentinel_is_noop() {
    let mut app = sample_app();
    app.task_list.select(Some(0));
    app.enter_edit_mode();
    app.exit_edit_mode(Some("".to_string()));
    assert_eq!(app.tasks.len(), 4);
    assert_eq!(app.mode, Mode::Normal);
}

#[test]
fn delete_only_filtered_task_regenerates_facets() {
    // deleting the only task under an active context filter: the
    // context value disappears from the regenerated facet list, and
    // the task cursor returns to the sentinel
    let tasks = vec![parse("lonely @home"), parse("other @work")];
    let mut app = App::new("t", "f", &tasks);
    app.context_list.select(Some(1));  // "home"
    app.filter_tasks();
    assert_eq!(app.task_list.items(), &vec![0, 1]);
    app.task_list.select(Some(1));
    app.enter_edit_mode();
    app.exit_edit_mode(Some("".to_string()));
    assert_eq!(app.tasks.len(), 2);
    // "home" had no other carrier and is gone; "work" stays
    assert_eq!(
        app.context_list.items(),
        &vec!["[all]".to_string(), "work".to_string()]
    );
    assert_eq!(app.context_list.selection(), None);
    // with the context restriction cleared the remaining task is listed
    assert_eq!(app.task_list.items(), &vec![0, 1]);
    // the cursor is back on the sentinel; no real task is selected
    assert_eq!(app.task_list.selection(), Some(0));
    assert_eq!(app.get_selected_task_idx(), None);
}

#[test]
fn replace_keeps_cursor_without_priority_filter() {
    // with no priority facet selected, giving the selected task a
    // priority does not reset the cursor: only an active facet
    // selection that no longer matches does
    let mut app = sample_app();
    app.task_list.select(Some(2));
    app.enter_edit_mode();
    app.exit_edit_mode(Some("(C) call dad @phone".to_string()));
    assert_eq!(app.task_list.selection(), Some(2));
}

#[test]
fn replace_resets_cursor_under_priority_filter() {
    // with a priority still selected after the edit, a replacement
    // whose priority differs deselects the task
    let tasks = vec![
        parse("x (A) done thing"),
        parse("(B) call mom"),
        parse("(B) water plants"),
    ];
    let mut app = App::new("t", "f", &tasks);
    app.toggle_completed();  // include all tasks so positions are stable
    app.priority_list.select(Some(2));  // "B"
    app.filter_tasks();
    assert_eq!(app.task_list.items(), &vec![0, 2, 3]);
    app.task_list.select(Some(1));  // the first (B) task
    app.enter_edit_mode();
    app.exit_edit_mode(Some("(C) call dad".to_string()));
    // "B" survives through the other task, so the filter stays active
    // and the replaced task no longer matches it
    assert_eq!(app.get_selected_priority(), Some('B'));
    assert_eq!(app.task_list.items(), &vec![0, 3]);
    assert_eq!(app.task_list.selection(), Some(0));
}

#[test]
fn confirm_workflow() {
    let mut app = sample_app();
    app.enter_confirm_mode(ConfirmedAction::Sort);
    assert_eq!(app.mode, Mode::Confirm(ConfirmedAction::Sort));
    app.cancel_action();
    assert_eq!(app.mode, Mode::Normal);
    // cancelling discarded the sort
    assert_eq!(app.tasks[1].description(), "done thing @home +chores");
    app.enter_confirm_mode(ConfirmedAction::Sort);
    let r = app.confirm_action();
    assert!(r.is_none());
    assert_eq!(app.mode, Mode::Normal);
    assert_eq!(app.tasks[1].description(), "call mom @phone +family");
    // confirming outside Confirm mode does nothing
    let r = app.confirm_action();
    assert!(r.is_none());
}

#[test]
fn confirm_save_returns_lines() {
    let mut app = sample_app();
    app.enter_confirm_mode(ConfirmedAction::Save);
    let lines = app.confirm_action().expect("save hands back the lines");
    assert_eq!(app.mode, Mode::Normal);
    assert_eq!(
        lines,
        vec![
            "x (A) done thing @home +chores".to_string(),
            "(B) call mom @phone +family".to_string(),
            "water plants @home +chores".to_string(),
        ]
    );
}

#[test]
fn selected_facet_getters() {
    let mut app = sample_app();
    assert_eq!(app.get_selected_context(), None);
    app.context_list.select(Some(1));
    assert_eq!(app.get_selected_context(), Some("home".to_string()));
    app.priority_list.select(Some(2));
    assert_eq!(app.get_selected_priority(), Some('B'));
    app.project_list.select(Some(2));
    assert_eq!(app.get_selected_project(), Some("family".to_string()));
    assert_eq!(app.get_selected_task_list_idx(), None);
    app.task_list.select(Some(3));
    assert_eq!(app.get_selected_task_list_idx(), Some(3));
    assert_eq!(app.get_selected_task_idx(), Some(3));
    assert_eq!(
        app.get_selected_task().unwrap().description(),
        "water plants @home +chores"
    );
}
