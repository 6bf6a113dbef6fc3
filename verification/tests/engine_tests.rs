use kdo::selection_list::SelectionList;
use kdo::task::Task;
use kdo::tasks::{
    collect_contexts, collect_priorities, collect_projects, include_completed, num_contexts,
    num_priorities, num_projects, read, with_context, with_priority, with_project, TasksFilter,
};

fn parse(line: &str) -> Task {
    kdo::parse::TaskParser::new().parse_line(line).unwrap()
}

fn sample() -> Vec<Task> {
    vec![
        parse("x (A) done thing @home +chores"),
        parse("(B) call mom @phone +family"),
        parse("water plants @home +chores"),
        parse("(A) file taxes +paperwork"),
    ]
}

#[test]
fn selection_list_wraps_forward() {
    let mut l = SelectionList::with_items(vec![10, 20, 30]);
    assert_eq!(l.selection(), Some(0));
    l.next();
    assert_eq!(l.selection(), Some(1));
    l.next();
    l.next();
    // three steps on a three-entry list come back around
    assert_eq!(l.selection(), Some(0));
}

#[test]
fn selection_list_wraps_backward() {
    let mut l = SelectionList::with_items(vec![10, 20, 30]);
    l.previous();
    assert_eq!(l.selection(), Some(2));
    l.previous();
    l.previous();
    assert_eq!(l.selection(), Some(0));
}

#[test]
fn selection_list_empty_has_no_cursor() {
    let l: SelectionList<usize> = SelectionList::with_items(vec![]);
    assert_eq!(l.selection(), None);
    assert!(l.items().is_empty());
}

#[test]
fn selection_list_select_bounds() {
    let mut l = SelectionList::with_items(vec![1, 2]);
    l.select(Some(1));
    assert_eq!(l.selection(), Some(1));
    l.select(Some(5));
    assert_eq!(l.selection(), None);
    l.select(Some(0));
    assert_eq!(l.selection(), Some(0));
    l.unselect();
    assert_eq!(l.selection(), None);
}

#[test]
fn filter_keeps_parallel_indices() {
    let tasks = sample();
    let f = TasksFilter::new(&tasks).with_context(Some("home"));
    assert_eq!(f.task_indices, vec![0, 2]);
    assert_eq!(f.tasks.len(), 2);
    assert_eq!(f.tasks[1].description(), "water plants @home +chores");
}

#[test]
fn filter_chain_intersects() {
    let tasks = sample();
    let f = TasksFilter::new(&tasks)
        .without_completed(true)
        .with_project(Some("chores"))
        .with_context(Some("home"))
        .with_priority(None);
    assert_eq!(f.task_indices, vec![2]);
}

#[test]
fn filter_priority() {
    let tasks = sample();
    let f = TasksFilter::new(&tasks).with_priority(Some('A'));
    assert_eq!(f.task_indices, vec![0, 3]);
}

#[test]
fn filter_latest_completed_flag_only() {
    let tasks = sample();
    // a later `false` flag does not undo an earlier exclusion on the
    // same chain: the chain is not history-free ...
    let chained = TasksFilter::new(&tasks).without_completed(true).without_completed(false);
    assert_eq!(chained.task_indices, vec![1, 2, 3]);
    let fresh_false = TasksFilter::new(&tasks).without_completed(false);
    assert_eq!(fresh_false.task_indices, vec![0, 1, 2, 3]);
    assert_ne!(chained.task_indices, fresh_false.task_indices);
    // ... but a fresh filter, as the controller builds one per query,
    // depends only on the flag it is given
    let again = TasksFilter::new(&tasks).without_completed(true).without_completed(true);
    let once = TasksFilter::new(&tasks).without_completed(true);
    assert_eq!(again.task_indices, once.task_indices);
}

#[test]
fn collect_contexts_sorted_unique() {
    let tasks = sample();
    assert_eq!(
        collect_contexts(&tasks, true),
        vec!["home".to_string(), "phone".to_string()]
    );
    // the completed task is the only other carrier of @home, yet home
    // stays because an incomplete task carries it too
    assert_eq!(
        collect_contexts(&tasks, false),
        vec!["home".to_string(), "phone".to_string()]
    );
    assert_eq!(num_contexts(&tasks, true), 2);
}

#[test]
fn collect_projects_sorted_unique() {
    let tasks = sample();
    assert_eq!(
        collect_projects(&tasks, true),
        vec![
            "chores".to_string(),
            "family".to_string(),
            "paperwork".to_string()
        ]
    );
    assert_eq!(num_projects(&tasks, true), 3);
    assert_eq!(num_projects(&tasks, false), 3);
}

#[test]
fn collect_priorities_sorted_unique() {
    let tasks = sample();
    assert_eq!(collect_priorities(&tasks, true), vec!['A', 'B']);
    // the completed task is the only 'A' besides the incomplete one
    assert_eq!(collect_priorities(&tasks, false), vec!['A', 'B']);
    assert_eq!(num_priorities(&tasks, true), 2);
    let one = vec![parse("x (C) only completed has it")];
    assert_eq!(collect_priorities(&one, false), Vec::<char>::new());
    assert_eq!(num_priorities(&one, false), 0);
}

#[test]
fn free_filters_clone_matching() {
    let tasks = sample();
    let kept = include_completed(&tasks, false);
    assert_eq!(kept.len(), 3);
    let all = include_completed(&tasks, true);
    assert_eq!(all.len(), 4);
    let home = with_context(&tasks, "home");
    assert_eq!(home.len(), 2);
    let fam = with_project(&tasks, "family");
    assert_eq!(fam.len(), 1);
    assert_eq!(fam[0].description(), "call mom @phone +family");
    let a = with_priority(&tasks, 'A');
    assert_eq!(a.len(), 2);
}

#[test]
fn filter_aggregation_methods() {
    let tasks = sample();
    let f = TasksFilter::new(&tasks);
    assert_eq!(f.num_contexts(true), 2);
    assert_eq!(
        f.collect_contexts(true),
        vec!["home".to_string(), "phone".to_string()]
    );
    assert_eq!(f.num_projects(false), 3);
    assert_eq!(f.collect_projects(true).len(), 3);
    assert_eq!(f.collect_priorities(true), vec!['A', 'B']);
    assert_eq!(f.num_priorities(true), 2);
}

#[test]
fn read_skips_blank_lines() {
    let lines = vec![
        "(A) one".to_string(),
        "".to_string(),
        "   ".to_string(),
        "two @here".to_string(),
    ];
    let tasks = read(&lines);
    assert_eq!(tasks.len(), 2);
    assert_eq!(tasks[0].description(), "one");
    assert_eq!(tasks[1].description(), "two @here");
}
