use vstd::prelude::*;
use crate::date::{today, Date};
use crate::selection_list::SelectionList;
use crate::task::{
    lemma_insert_sorted_contains, lemma_insert_sorted_len, spec_render, stable_sorted,
    insert_task, Task, TaskView,
};
use crate::tasks::{
    collect_contexts, collect_priorities, collect_projects, sorted_facet, sorted_priorities,
    strings_of, views_of, FacetKind,
};
use crate::text::string_from_chars;
use crate::parse::TaskParser;

verus! {

/// The application's interaction mode.
#[derive(Clone, Copy, Debug, PartialEq, Eq, Structural)]
pub enum Mode {
    Edit,
    Normal,
    Help,
    Confirm(ConfirmedAction),
}

/// Which list the cursor keys act on, in Normal mode.
#[derive(Clone, Copy, Debug, PartialEq, Eq, Structural)]
pub enum Focus {
    Tasks,
    Projects,
    Contexts,
    Priorities,
}

/// Actions that ask for confirmation before running.
#[derive(Clone, Copy, Debug, PartialEq, Eq, Structural)]
pub enum ConfirmedAction {
    Save,
    Sort,
}

/// The application controller: the authoritative task collection (a
/// sentinel "[new]" task at index 0), one selection list of task
/// indices, three facet selection lists headed by an "[all]" entry,
/// the mode and focus machine, and the completed-visibility flag.
pub struct App {
    pub title: String,
    pub filepath: String,
    pub should_quit: bool,
    pub tasks: Vec<Task>,
    pub task_list: SelectionList<usize>,
    pub context_list: SelectionList<String>,
    pub project_list: SelectionList<String>,
    pub priority_list: SelectionList<String>,
    pub mode: Mode,
    pub focus: Focus,
    pub omit_completed: bool,
    pub error_msg: String,
}

/// Whether a task survives the current filter settings.
pub open spec fn spec_pass(
    t: TaskView,
    omit: bool,
    proj: Option<Seq<char>>,
    ctx: Option<Seq<char>>,
    pri: Option<char>,
) -> bool {
    &&& !omit || !t.completed
    &&& match proj {
        Some(p) => t.projects.contains(p),
        None => true,
    }
    &&& match ctx {
        Some(c) => t.contexts.contains(c),
        None => true,
    }
    &&& match pri {
        Some(p) => t.priority == Some(p),
        None => true,
    }
}

/// The collection indices (1 and up; the sentinel is excluded) of the
/// tasks that survive the filter, ascending.
pub open spec fn filtered_indices(
    tasks: Seq<TaskView>,
    omit: bool,
    proj: Option<Seq<char>>,
    ctx: Option<Seq<char>>,
    pri: Option<char>,
) -> Seq<usize>
    decreases tasks.len(),
{
    if tasks.len() <= 1 {
        Seq::empty()
    } else {
        let r = filtered_indices(tasks.drop_last(), omit, proj, ctx, pri);
        if spec_pass(tasks.last(), omit, proj, ctx, pri) {
            r.push((tasks.len() - 1) as usize)
        } else {
            r
        }
    }
}

/// The facet value a list presently selects: its selected entry, if
/// that entry is a real one and not the leading "[all]".
pub open spec fn selected_value(items: Seq<Seq<char>>, sel: Option<usize>) -> Option<Seq<char>> {
    match sel {
        Some(i) => if 0 < i < items.len() {
            Some(items[i as int])
        } else {
            None
        },
        None => None,
    }
}

pub open spec fn spec_selected_facet(l: SelectionList<String>) -> Option<Seq<char>> {
    selected_value(strings_of(l.items@), l.selection)
}

/// The selected priority: the first character of the selected entry.
pub open spec fn spec_selected_priority(l: SelectionList<String>) -> Option<char> {
    match spec_selected_facet(l) {
        Some(s) => if s.len() > 0 {
            Some(s[0])
        } else {
            None
        },
        None => None,
    }
}

/// The collection index of the selected task, if a real task (not the
/// sentinel) is selected.
pub open spec fn spec_selected_task_idx(a: App) -> Option<usize> {
    match a.task_list.selection {
        Some(i) => if 0 < i < a.task_list.items@.len() {
            Some(a.task_list.items@[i as int])
        } else {
            None
        },
        None => None,
    }
}

/// The selected task itself, when the selected index names one.
pub open spec fn spec_selected_task(a: App) -> Option<TaskView> {
    match spec_selected_task_idx(a) {
        Some(idx) => if idx < a.tasks@.len() {
            Some(a.tasks@[idx as int]@)
        } else {
            None
        },
        None => None,
    }
}

/// The context facet list: "[all]" then every context, ascending.
pub open spec fn facet_ctx_items(tasks: Seq<TaskView>) -> Seq<Seq<char>> {
    seq!["[all]"@] + sorted_facet(FacetKind::Contexts, tasks, true)
}

/// The project facet list: "[all]" then every project, ascending.
pub open spec fn facet_proj_items(tasks: Seq<TaskView>) -> Seq<Seq<char>> {
    seq!["[all]"@] + sorted_facet(FacetKind::Projects, tasks, true)
}

/// Each character as a one-character written value.
pub open spec fn char_strings(s: Seq<char>) -> Seq<Seq<char>> {
    s.map_values(|c: char| seq![c])
}

/// The priority facet list: "[all]" then every priority, ascending.
pub open spec fn facet_pri_items(tasks: Seq<TaskView>) -> Seq<Seq<char>> {
    seq!["[all]"@] + char_strings(sorted_priorities(tasks, true))
}

/// The first position of `v` in `items`, if any.
pub open spec fn find_value(items: Seq<Seq<char>>, v: Seq<char>) -> Option<int>
    decreases items.len(),
{
    if items.len() == 0 {
        None
    } else if items[0] == v {
        Some(0int)
    } else {
        match find_value(items.drop_first(), v) {
            Some(i) => Some(i + 1),
            None => None,
        }
    }
}

/// The character sequences of an optional string.
pub open spec fn opt_str_view(o: Option<String>) -> Option<Seq<char>> {
    match o {
        Some(s) => Some(s@),
        None => None,
    }
}

pub open spec fn opt_usize(o: Option<int>) -> Option<usize> {
    match o {
        Some(i) => Some(i as usize),
        None => None,
    }
}

pub proof fn lemma_find_value(items: Seq<Seq<char>>, v: Seq<char>)
    ensures
        match find_value(items, v) {
            None => forall|j: int| 0 <= j < items.len() ==> items[j] != v,
            Some(i) => 0 <= i < items.len() && items[i] == v && forall|j: int|
                0 <= j < i ==> items[j] != v,
        },
    decreases items.len(),
{
    if items.len() == 0 {
    } else if items[0] == v {
    } else {
        lemma_find_value(items.drop_first(), v);
        assert(forall|j: int|
            1 <= j < items.len() ==> items[j] == items.drop_first()[j - 1]);
    }
}

/// The derived state a recomputation produces.
pub ghost struct RefreshedState {
    pub ctx_items: Seq<Seq<char>>,
    pub ctx_sel: Option<usize>,
    pub proj_items: Seq<Seq<char>>,
    pub proj_sel: Option<usize>,
    pub pri_items: Seq<Seq<char>>,
    pub pri_sel: Option<usize>,
    pub task_items: Seq<usize>,
    pub task_sel: Option<usize>,
}

/// A facet cursor after its list is rebuilt: the previous value's
/// position if one was selected and is still present, the head
/// otherwise (or no cursor at all if the value is gone).
pub open spec fn refreshed_facet_sel(
    old_val: Option<Seq<char>>,
    items: Seq<Seq<char>>,
) -> Option<usize> {
    match old_val {
        Some(v) => opt_usize(find_value(items, v)),
        None => Some(0usize),
    }
}

/// The whole derived state after a structural edit, as a function of
/// the task collection, the completed-visibility flag, the facet
/// values previously selected, the task cursor, and the previously
/// selected task.
pub open spec fn spec_refresh(
    tv: Seq<TaskView>,
    omit: bool,
    old_ctx: Option<Seq<char>>,
    old_proj: Option<Seq<char>>,
    old_pri: Option<char>,
    old_task_sel: Option<usize>,
    old_sel_task: Option<TaskView>,
) -> RefreshedState {
    let ctx_items = facet_ctx_items(tv);
    let ctx_sel = refreshed_facet_sel(old_ctx, ctx_items);
    let proj_items = facet_proj_items(tv);
    let proj_sel = refreshed_facet_sel(old_proj, proj_items);
    let pri_items = facet_pri_items(tv);
    let pri_sel = match old_pri {
        Some(p) => opt_usize(find_value(pri_items, seq![p])),
        None => Some(0usize),
    };
    let new_ctx = selected_value(ctx_items, ctx_sel);
    let new_proj = selected_value(proj_items, proj_sel);
    let new_pri = match selected_value(pri_items, pri_sel) {
        Some(s) => if s.len() > 0 {
            Some(s[0])
        } else {
            None
        },
        None => None,
    };
    let task_items = seq![0usize] + filtered_indices(tv, omit, new_proj, new_ctx, new_pri);
    let sel1 = match old_task_sel {
        Some(s) => if s < task_items.len() {
            Some(s)
        } else {
            None
        },
        None => None,
    };
    let task_sel = match old_sel_task {
        Some(t) => if (new_pri matches Some(p) && t.priority != Some(p)) || (new_ctx matches Some(
            c,
        ) && !t.contexts.contains(c)) || (new_proj matches Some(pj) && !t.projects.contains(pj)) {
            Some(0usize)
        } else {
            sel1
        },
        None => sel1,
    };
    RefreshedState {
        ctx_items,
        ctx_sel,
        proj_items,
        proj_sel,
        pri_items,
        pri_sel,
        task_items,
        task_sel,
    }
}

/// Whether the controller's four lists hold exactly the recomputed
/// derived state.
pub open spec fn refreshed_to(a: App, r: RefreshedState) -> bool {
    &&& strings_of(a.context_list.items@) == r.ctx_items
    &&& a.context_list.selection == r.ctx_sel
    &&& strings_of(a.project_list.items@) == r.proj_items
    &&& a.project_list.selection == r.proj_sel
    &&& strings_of(a.priority_list.items@) == r.pri_items
    &&& a.priority_list.selection == r.pri_sel
    &&& a.task_list.items@ == r.task_items
    &&& a.task_list.selection == r.task_sel
}

/// A structural edit's aftermath: the collection holds `tv2`, the
/// mode is Normal, the untouched fields carry over, the derived lists
/// are the recomputation from `tv2` with the given carried-over
/// cursors, and the task cursor ends at `cursor`.
pub open spec fn edited_state(
    a0: App,
    a1: App,
    tv2: Seq<TaskView>,
    sel_after: Option<usize>,
    sel_task: Option<TaskView>,
    cursor: Option<usize>,
) -> bool {
    let r = spec_refresh(
        tv2,
        a0.omit_completed,
        spec_selected_facet(a0.context_list),
        spec_selected_facet(a0.project_list),
        spec_selected_priority(a0.priority_list),
        sel_after,
        sel_task,
    );
    &&& views_of(a1.tasks@) == tv2
    &&& a1.mode == Mode::Normal
    &&& a1.title == a0.title
    &&& a1.filepath == a0.filepath
    &&& a1.should_quit == a0.should_quit
    &&& a1.focus == a0.focus
    &&& a1.omit_completed == a0.omit_completed
    &&& a1.error_msg == a0.error_msg
    &&& strings_of(a1.context_list.items@) == r.ctx_items
    &&& a1.context_list.selection == r.ctx_sel
    &&& strings_of(a1.project_list.items@) == r.proj_items
    &&& a1.project_list.selection == r.proj_sel
    &&& strings_of(a1.priority_list.items@) == r.pri_items
    &&& a1.priority_list.selection == r.pri_sel
    &&& a1.task_list.items@ == r.task_items
    &&& a1.task_list.selection == cursor
}

/// What leaving Edit mode does, for every input and every current
/// date: cancel, delete, append, replace, or report a parse failure.
pub open spec fn exit_edit_outcome(
    a0: App,
    a1: App,
    input: Option<Seq<char>>,
    current: Option<Date>,
) -> bool {
    match input {
        None => a1 == (App { mode: Mode::Normal, ..a0 }),
        Some(s) => match a0.task_list.selection {
            None => a1 == (App { mode: Mode::Normal, ..a0 }),
            Some(li) => {
                let ti = a0.task_list.items@[li as int];
                if s.len() == 0 {
                    if li == 0 {
                        a1 == (App { mode: Mode::Normal, ..a0 })
                    } else {
                        // deleting the selected task discards the
                        // carried cursor: the task cursor returns to
                        // the sentinel
                        let tv2 = views_of(a0.tasks@).remove(ti as int);
                        edited_state(a0, a1, tv2, None, None, Some(0usize))
                    }
                } else {
                    match crate::parse::spec_parse(s) {
                        None => {
                            &&& a1 == (App {
                                mode: Mode::Normal,
                                error_msg: a1.error_msg,
                                ..a0
                            })
                            &&& a1.error_msg@ == "Failed to parse Task"@
                        },
                        Some(tvw) => {
                            if li == 0 {
                                let newtask = TaskView { date_created: current, ..tvw };
                                let tv2 = views_of(a0.tasks@).push(newtask);
                                let r = spec_refresh(
                                    tv2,
                                    a0.omit_completed,
                                    spec_selected_facet(a0.context_list),
                                    spec_selected_facet(a0.project_list),
                                    spec_selected_priority(a0.priority_list),
                                    Some(0usize),
                                    None,
                                );
                                edited_state(a0, a1, tv2, Some(0usize), None, r.task_sel)
                            } else {
                                let tv2 = views_of(a0.tasks@).update(ti as int, tvw);
                                let r = spec_refresh(
                                    tv2,
                                    a0.omit_completed,
                                    spec_selected_facet(a0.context_list),
                                    spec_selected_facet(a0.project_list),
                                    spec_selected_priority(a0.priority_list),
                                    a0.task_list.selection,
                                    Some(tv2[ti as int]),
                                );
                                edited_state(
                                    a0,
                                    a1,
                                    tv2,
                                    a0.task_list.selection,
                                    Some(tv2[ti as int]),
                                    r.task_sel,
                                )
                            }
                        },
                    }
                }
            },
        },
    }
}

/// The controller's filter is a pure function of the current
/// completed-visibility flag, task collection and facet selections:
/// flipping the flag twice yields exactly the filtered index list of
/// the original flag — no history of earlier flag values enters the
/// result.
pub proof fn lemma_filter_flag_history_free(
    tv: Seq<TaskView>,
    omit: bool,
    proj: Option<Seq<char>>,
    ctx: Option<Seq<char>>,
    pri: Option<char>,
)
    ensures
        filtered_indices(tv, !!omit, proj, ctx, pri) == filtered_indices(
            tv,
            omit,
            proj,
            ctx,
            pri,
        ),
{
}

/// What marking the selected task complete does, for every current
/// date: nothing without a real selection; otherwise only the selected
/// task changes — it becomes completed, and when it carries a creation
/// date and a current date is given, that date is stamped as its
/// completion date.
pub open spec fn mark_complete_outcome(a0: App, a1: App, current: Option<Date>) -> bool {
    match spec_selected_task_idx(a0) {
        None => a1 == a0,
        Some(idx) => {
            &&& a1 == (App { tasks: a1.tasks, ..a0 })
            &&& a1.tasks@.len() == a0.tasks@.len()
            &&& forall|j: int|
                0 <= j < a0.tasks@.len() && j != idx ==> (#[trigger] a1.tasks@[j])@
                    == a0.tasks@[j]@
            &&& a1.tasks@[idx as int]@ == (TaskView {
                completed: true,
                date_completed: (if a0.tasks@[idx as int]@.date_created is Some
                    && current is Some {
                    Some(current->0)
                } else {
                    a0.tasks@[idx as int]@.date_completed
                }),
                ..a0.tasks@[idx as int]@
            })
        },
    }
}

impl App {
    /// The part of the invariant that survives a structural edit: a
    /// sentinel heads the nonempty task collection, the facet lists
    /// are nonempty with their cursors in bounds, and every task can
    /// be rendered.  The task list may be stale until rebuilt.
    pub open spec fn base_wf(self) -> bool {
        &&& self.tasks@.len() >= 1
        &&& self.context_list.items@.len() >= 1 && self.context_list.wf()
        &&& self.project_list.items@.len() >= 1 && self.project_list.wf()
        &&& self.priority_list.items@.len() >= 1 && self.priority_list.wf()
        &&& forall|j: int| 0 <= j < self.tasks@.len() ==> (#[trigger] self.tasks@[j])@.dates_wf()
    }

    /// The controller's standing invariant: `base_wf`, and a task list
    /// holding in-range indices — index 0 (the sentinel) first and
    /// real indices after it — with its cursor in bounds.
    pub open spec fn wf(self) -> bool {
        &&& self.base_wf()
        &&& self.task_list.items@.len() >= 1
        &&& self.task_list.items@[0] == 0
        &&& forall|j: int|
            0 <= j < self.task_list.items@.len() ==> (#[trigger] self.task_list.items@[j])
                < self.tasks@.len()
        &&& forall|j: int|
            1 <= j < self.task_list.items@.len() ==> (#[trigger] self.task_list.items@[j]) >= 1
        &&& self.task_list.wf()
    }

    /// A fresh controller over the given tasks: the sentinel prepended,
    /// every task listed, the facet lists derived over the whole
    /// collection, Normal mode, focus on the tasks, completed tasks
    /// hidden on the next refilter.
    pub fn new(title: &str, filepath: &str, tasks: &[Task]) -> (r: App)
        requires
            forall|j: int| 0 <= j < tasks@.len() ==> (#[trigger] tasks@[j])@.dates_wf(),
        ensures
            r.wf(),
            r.tasks@.len() == tasks@.len() + 1,
            r.tasks@[0]@.description == "[new]"@,
            r.tasks@[0]@.completed == false && r.tasks@[0]@.priority is None
                && r.tasks@[0]@.date_completed is None && r.tasks@[0]@.date_created is None,
            forall|j: int| 0 <= j < tasks@.len() ==> r.tasks@[j + 1]@ == (#[trigger] tasks@[j])@,
            r.task_list.items@.len() == tasks@.len() + 1,
            forall|j: int| 0 <= j < r.task_list.items@.len() ==> (#[trigger] r.task_list.items@[j])
                == j,
            r.task_list.selection == Some(0usize),
            strings_of(r.context_list.items@) == facet_ctx_items(views_of(r.tasks@)),
            strings_of(r.project_list.items@) == facet_proj_items(views_of(r.tasks@)),
            strings_of(r.priority_list.items@) == facet_pri_items(views_of(r.tasks@)),
            r.context_list.selection == Some(0usize),
            r.project_list.selection == Some(0usize),
            r.priority_list.selection == Some(0usize),
            r.mode == Mode::Normal,
            r.focus == Focus::Tasks,
            r.omit_completed == true,
            r.should_quit == false,
            r.error_msg@ == Seq::<char>::empty(),
            r.title@ == title@,
            r.filepath@ == filepath@,
    {
        let mut sentinel = Task::empty();
        sentinel.set_description("[new]");
        let mut held: Vec<Task> = Vec::new();
        held.push(sentinel);
        let mut i: usize = 0;
        while i < tasks.len()
            invariant
                i <= tasks@.len(),
                held@.len() == i + 1,
                held@[0]@.description == "[new]"@,
                held@[0]@.completed == false && held@[0]@.priority is None
                    && held@[0]@.date_completed is None && held@[0]@.date_created is None,
                held@[0]@.wf(),
                forall|j: int| 0 <= j < tasks@.len() ==> (#[trigger] tasks@[j])@.dates_wf(),
                forall|j: int| 0 <= j < i ==> held@[j + 1]@ == (#[trigger] tasks@[j])@,
            decreases tasks@.len() - i,
        {
            held.push(tasks[i].clone());
            i = i + 1;
        }
        let task_items = App::get_task_items(held.as_slice());
        let context_items = App::get_context_items(held.as_slice());
        let project_items = App::get_project_items(held.as_slice());
        let priority_items = App::get_priority_items(held.as_slice());
        let r = App {
            title: title.to_owned(),
            filepath: filepath.to_owned(),
            should_quit: false,
            task_list: SelectionList::with_items(task_items),
            context_list: SelectionList::with_items(context_items),
            project_list: SelectionList::with_items(project_items),
            priority_list: SelectionList::with_items(priority_items),
            mode: Mode::Normal,
            focus: Focus::Tasks,
            omit_completed: true,
            error_msg: String::new(),
            tasks: held,
        };
        proof {
            assert forall|j: int|
                0 <= j < r.tasks@.len() implies (#[trigger] r.tasks@[j])@.dates_wf() by {
                if j == 0 {
                    assert(r.tasks@[0]@.wf());
                } else {
                    assert(r.tasks@[j]@ == tasks@[j - 1]@);
                    assert(tasks@[j - 1]@.dates_wf());
                }
            }
            assert(r.tasks@.len() >= 1);
            assert(r.task_list.items@.len() >= 1);
            assert(r.task_list.items@[0] == 0);
            assert(forall|j: int|
                0 <= j < r.task_list.items@.len() ==> (#[trigger] r.task_list.items@[j])
                    < r.tasks@.len());
            assert(forall|j: int|
                1 <= j < r.task_list.items@.len() ==> (#[trigger] r.task_list.items@[j]) >= 1);
            assert(strings_of(r.context_list.items@).len() == r.context_list.items@.len());
            assert(r.context_list.items@.len() >= 1);
            assert(strings_of(r.project_list.items@).len() == r.project_list.items@.len());
            assert(r.project_list.items@.len() >= 1);
            assert(strings_of(r.priority_list.items@).len() == r.priority_list.items@.len());
            assert(r.priority_list.items@.len() >= 1);
        }
        r
    }

    /// Every collection index, the sentinel's first.
    pub fn get_task_items(tasks: &[Task]) -> (r: Vec<usize>)
        ensures
            r@.len() == tasks@.len(),
            forall|j: int| 0 <= j < r@.len() ==> (#[trigger] r@[j]) == j,
    {
        let mut r: Vec<usize> = Vec::new();
        let mut i: usize = 0;
        while i < tasks.len()
            invariant
                i <= tasks@.len(),
                r@.len() == i,
                forall|j: int| 0 <= j < i ==> (#[trigger] r@[j]) == j,
            decreases tasks@.len() - i,
        {
            r.push(i);
            i = i + 1;
        }
        r
    }

    /// The context facet entries: "[all]", then every context.
    pub fn get_context_items(tasks: &[Task]) -> (r: Vec<String>)
        ensures
            strings_of(r@) == facet_ctx_items(views_of(tasks@)),
    {
        let mut r: Vec<String> = Vec::new();
        r.push("[all]".to_owned());
        let mut rest = collect_contexts(tasks, true);
        let ghost first = r@;
        r.append(&mut rest);
        proof {
            assert(strings_of(r@) =~= facet_ctx_items(views_of(tasks@)));
        }
        r
    }

    /// The project facet entries: "[all]", then every project.
    pub fn get_project_items(tasks: &[Task]) -> (r: Vec<String>)
        ensures
            strings_of(r@) == facet_proj_items(views_of(tasks@)),
    {
        let mut r: Vec<String> = Vec::new();
        r.push("[all]".to_owned());
        let mut rest = collect_projects(tasks, true);
        r.append(&mut rest);
        proof {
            assert(strings_of(r@) =~= facet_proj_items(views_of(tasks@)));
        }
        r
    }

    /// The priority facet entries: "[all]", then every priority.
    pub fn get_priority_items(tasks: &[Task]) -> (r: Vec<String>)
        ensures
            strings_of(r@) == facet_pri_items(views_of(tasks@)),
    {
        let mut r: Vec<String> = Vec::new();
        r.push("[all]".to_owned());
        let chars = collect_priorities(tasks, true);
        let mut i: usize = 0;
        while i < chars.len()
            invariant
                i <= chars@.len(),
                r@.len() == i + 1,
                strings_of(r@) == seq!["[all]"@] + char_strings(chars@.subrange(0, i as int)),
            decreases chars@.len() - i,
        {
            let ghost before = strings_of(r@);
            let mut one: Vec<char> = Vec::new();
            one.push(chars[i]);
            proof {
                assert(one@ =~= seq![chars@[i as int]]);
            }
            let entry = string_from_chars(&one, 0);
            proof {
                assert(entry@ =~= seq![chars@[i as int]]);
            }
            r.push(entry);
            proof {
                assert(strings_of(r@) =~= before.push(seq![chars@[i as int]]));
                assert(char_strings(chars@.subrange(0, i as int + 1)) =~= char_strings(
                    chars@.subrange(0, i as int),
                ).push(seq![chars@[i as int]]));
                assert(strings_of(r@) =~= seq!["[all]"@] + char_strings(
                    chars@.subrange(0, i as int + 1),
                ));
            }
            i = i + 1;
        }
        proof {
            assert(chars@.subrange(0, chars@.len() as int) =~= chars@);
        }
        r
    }

    /// The position of the selected task in the task list, if a real
    /// task is selected.
    pub fn get_selected_task_list_idx(&self) -> (r: Option<usize>)
        ensures
            r == (match self.task_list.selection {
                Some(i) => if i > 0 {
                    Some(i)
                } else {
                    None::<usize>
                },
                None => None::<usize>,
            }),
    {
        match self.task_list.selection() {
            Some(i) => if i > 0 {
                Some(i)
            } else {
                None
            },
            None => None,
        }
    }

    /// The collection index of the selected task, if a real task is
    /// selected.
    pub fn get_selected_task_idx(&self) -> (r: Option<usize>)
        ensures
            r == spec_selected_task_idx(*self),
    {
        match self.task_list.selection() {
            Some(i) => {
                if i > 0 && i < self.task_list.items.len() {
                    Some(self.task_list.items[i])
                } else {
                    None
                }
            },
            None => None,
        }
    }

    /// The selected task, if a real one is selected.
    pub fn get_selected_task(&self) -> (r: Option<&Task>)
        ensures
            match r {
                Some(t) => spec_selected_task(*self) == Some(t@),
                None => spec_selected_task(*self) is None,
            },
    {
        match self.get_selected_task_idx() {
            Some(idx) => {
                if idx < self.tasks.len() {
                    Some(&self.tasks[idx])
                } else {
                    None
                }
            },
            None => None,
        }
    }

    /// The selected context value, unless "[all]" is selected.
    pub fn get_selected_context(&self) -> (r: Option<String>)
        ensures
            match r {
                Some(s) => spec_selected_facet(self.context_list) == Some(s@),
                None => spec_selected_facet(self.context_list) is None,
            },
    {
        App::selected_item(&self.context_list)
    }

    /// The selected project value, unless "[all]" is selected.
    pub fn get_selected_project(&self) -> (r: Option<String>)
        ensures
            match r {
                Some(s) => spec_selected_facet(self.project_list) == Some(s@),
                None => spec_selected_facet(self.project_list) is None,
            },
    {
        App::selected_item(&self.project_list)
    }

    /// The selected priority, unless "[all]" is selected.
    pub fn get_selected_priority(&self) -> (r: Option<char>)
        ensures
            r == spec_selected_priority(self.priority_list),
    {
        match App::selected_item(&self.priority_list) {
            Some(s) => {
                let cs = crate::text::str_chars(s.as_str());
                if cs.len() > 0 {
                    Some(cs[0])
                } else {
                    None
                }
            },
            None => None,
        }
    }

    /// Rebuilds the task list from the current flag and facet
    /// selections: the sentinel index, then every surviving real
    /// index, ascending; the cursor returns to the sentinel.
    pub fn filter_tasks(&mut self)
        requires
            old(self).base_wf(),
        ensures
            *final(self) == (App { task_list: final(self).task_list, ..*old(self) }),
            final(self).task_list.items@ == seq![0usize] + filtered_indices(
                views_of(old(self).tasks@),
                old(self).omit_completed,
                spec_selected_facet(old(self).project_list),
                spec_selected_facet(old(self).context_list),
                spec_selected_priority(old(self).priority_list),
            ),
            final(self).task_list.selection == Some(0usize),
            final(self).wf(),
    {
        let proj = self.get_selected_project();
        let ctx = self.get_selected_context();
        let pri = self.get_selected_priority();
        let ghost pv = spec_selected_facet(self.project_list);
        let ghost cv = spec_selected_facet(self.context_list);
        let ghost prv = spec_selected_priority(self.priority_list);
        let ghost tv = views_of(self.tasks@);
        let ghost omit = self.omit_completed;
        let mut items: Vec<usize> = Vec::new();
        items.push(0);
        let mut i: usize = 1;
        proof {
            assert(tv.subrange(0, 1).len() <= 1);
            assert(items@ =~= seq![0usize] + filtered_indices(
                tv.subrange(0, 1),
                omit,
                pv,
                cv,
                prv,
            ));
        }
        while i < self.tasks.len()
            invariant
                1 <= i <= self.tasks@.len(),
                *self == *old(self),
                self.base_wf(),
                tv == views_of(self.tasks@),
                tv.len() == self.tasks@.len(),
                omit == self.omit_completed,
                pv == spec_selected_facet(self.project_list),
                cv == spec_selected_facet(self.context_list),
                prv == spec_selected_priority(self.priority_list),
                (match proj {
                    Some(ref s) => pv == Some(s@),
                    None => pv is None,
                }),
                (match ctx {
                    Some(ref s) => cv == Some(s@),
                    None => cv is None,
                }),
                pri == prv,
                items@ == seq![0usize] + filtered_indices(
                    tv.subrange(0, i as int),
                    omit,
                    pv,
                    cv,
                    prv,
                ),
                forall|j: int| 0 <= j < items@.len() ==> (#[trigger] items@[j]) < i,
                forall|j: int| 1 <= j < items@.len() ==> (#[trigger] items@[j]) >= 1,
                items@.len() >= 1 && items@[0] == 0,
            decreases self.tasks@.len() - i,
        {
            proof {
                assert(tv.subrange(0, i as int + 1).drop_last() =~= tv.subrange(0, i as int));
                assert(tv.subrange(0, i as int + 1).last() == tv[i as int]);
                assert(tv[i as int] == self.tasks@[i as int]@);
            }
            let t = &self.tasks[i];
            let pass_omit = !self.omit_completed || !t.completed;
            let pass_proj = match &proj {
                Some(p) => crate::tasks::contains_string(&t.projects, p),
                None => true,
            };
            let pass_ctx = match &ctx {
                Some(c) => crate::tasks::contains_string(&t.contexts, c),
                None => true,
            };
            let pass_pri = match pri {
                Some(p) => match t.priority {
                    Some(q) => q == p,
                    None => false,
                },
                None => true,
            };
            let ghost before = items@;
            if pass_omit && pass_proj && pass_ctx && pass_pri {
                proof {
                    assert(spec_pass(tv[i as int], omit, pv, cv, prv));
                }
                items.push(i);
            } else {
                proof {
                    assert(!spec_pass(tv[i as int], omit, pv, cv, prv));
                }
            }
            proof {
                assert(items@ =~= seq![0usize] + filtered_indices(
                    tv.subrange(0, i as int + 1),
                    omit,
                    pv,
                    cv,
                    prv,
                ));
            }
            i = i + 1;
        }
        proof {
            assert(tv.subrange(0, tv.len() as int) =~= tv);
        }
        self.task_list = SelectionList::with_items(items);
    }

    /// Flips the completed-visibility flag and rebuilds the task list
    /// under the new flag.
    pub fn toggle_completed(&mut self)
        requires
            old(self).wf(),
        ensures
            *final(self) == (App {
                omit_completed: !old(self).omit_completed,
                task_list: final(self).task_list,
                ..*old(self)
            }),
            final(self).task_list.items@ == seq![0usize] + filtered_indices(
                views_of(old(self).tasks@),
                !old(self).omit_completed,
                spec_selected_facet(old(self).project_list),
                spec_selected_facet(old(self).context_list),
                spec_selected_priority(old(self).priority_list),
            ),
            final(self).task_list.selection == Some(0usize),
            final(self).wf(),
    {
        self.omit_completed = !self.omit_completed;
        self.filter_tasks();
    }

    /// Sorts the real tasks into the task total order, stably; the
    /// sentinel keeps its place at the head of the collection.
    pub fn sort_tasks(&mut self)
        requires
            old(self).wf(),
        ensures
            *final(self) == (App { tasks: final(self).tasks, ..*old(self) }),
            views_of(final(self).tasks@) == seq![views_of(old(self).tasks@)[0]] + stable_sorted(
                views_of(old(self).tasks@).skip(1),
            ),
            final(self).tasks@.len() == old(self).tasks@.len(),
            final(self).wf(),
    {
        let ghost ov = views_of(self.tasks@);
        let mut sorted: Vec<Task> = Vec::new();
        let mut i: usize = self.tasks.len();
        proof {
            assert(ov.skip(i as int) =~= Seq::<TaskView>::empty());
            assert(views_of(sorted@) =~= stable_sorted(ov.skip(i as int)));
        }
        while i > 1
            invariant
                1 <= i <= self.tasks@.len(),
                *self == *old(self),
                self.wf(),
                ov == views_of(self.tasks@),
                ov.len() == self.tasks@.len(),
                views_of(sorted@) == stable_sorted(ov.skip(i as int)),
                views_of(sorted@).len() == ov.len() - i,
                forall|j: int| 0 <= j < sorted@.len() ==> (#[trigger] sorted@[j])@.dates_wf(),
            decreases i,
        {
            i = i - 1;
            let ghost rest = stable_sorted(ov.skip(i as int + 1));
            proof {
                assert(ov.skip(i as int)[0] == ov[i as int]);
                assert(ov.skip(i as int).drop_first() =~= ov.skip(i as int + 1));
                assert(stable_sorted(ov.skip(i as int)) == crate::task::insert_sorted(
                    ov[i as int],
                    rest,
                ));
                lemma_insert_sorted_len(ov[i as int], rest);
                lemma_insert_sorted_contains(ov[i as int], rest);
                assert(ov[i as int] == self.tasks@[i as int]@);
                assert(sorted.deep_view() =~= views_of(sorted@));
            }
            let ghost old_sorted = views_of(sorted@);
            insert_task(&mut sorted, self.tasks[i].clone());
            proof {
                assert(views_of(sorted@) =~= sorted.deep_view());
                assert(views_of(sorted@) == crate::task::insert_sorted(ov[i as int], old_sorted));
                assert forall|j: int|
                    0 <= j < sorted@.len() implies (#[trigger] sorted@[j])@.dates_wf() by {
                    assert(views_of(sorted@)[j] == sorted@[j]@);
                    assert(views_of(sorted@).contains(sorted@[j]@));
                    if old_sorted.contains(sorted@[j]@) {
                        let m = choose|m: int|
                            0 <= m < old_sorted.len() && old_sorted[m] == sorted@[j]@;
                    } else {
                        assert(sorted@[j]@ == ov[i as int]);
                    }
                }
            }
        }
        let mut rebuilt: Vec<Task> = Vec::new();
        rebuilt.push(self.tasks[0].clone());
        rebuilt.append(&mut sorted);
        self.tasks = rebuilt;
        proof {
            assert(views_of(self.tasks@) =~= seq![ov[0]] + stable_sorted(ov.skip(1)));
            assert forall|j: int|
                0 <= j < self.tasks@.len() implies (#[trigger] self.tasks@[j])@.dates_wf() by {
                if j == 0 {
                    assert(self.tasks@[0]@ == ov[0]);
                    assert(old(self).tasks@[0]@.dates_wf());
                } else {
                    assert(views_of(self.tasks@)[j] == stable_sorted(ov.skip(1))[j - 1]);
                }
            }
        }
    }

    /// Marks the selected real task completed; when it carries a
    /// creation date and a current date is given, that date is stamped
    /// as its completion date.
    pub fn mark_selected_task_complete_on(&mut self, current: Option<Date>)
        requires
            old(self).wf(),
            current matches Some(d) ==> d.wf(),
        ensures
            mark_complete_outcome(*old(self), *final(self), current),
            final(self).wf(),
    {
        match self.get_selected_task_idx() {
            Some(idx) => {
                proof {
                    assert(idx < self.tasks@.len());
                }
                let mut t = self.tasks[idx].clone();
                if t.date_created.is_some() {
                    match current {
                        Some(d) => {
                            t.date_completed = Some(d);
                        },
                        None => {},
                    }
                }
                t.completed = true;
                self.tasks[idx] = t;
            },
            None => {},
        }
    }

    /// Marks the selected real task completed, stamping today's date
    /// as its completion date when it carries a creation date.
    pub fn mark_selected_task_complete(&mut self)
        requires
            old(self).wf(),
        ensures
            exists|current: Option<Date>|
                (current matches Some(d) ==> d.wf()) && #[trigger] mark_complete_outcome(
                    *old(self),
                    *final(self),
                    current,
                ),
            final(self).wf(),
    {
        let current = today();
        self.mark_selected_task_complete_on(current);
    }

    /// The canonical renderings of the real tasks, one line each, in
    /// collection order: what persisting the list writes.
    pub fn save_lines(&self) -> (r: Vec<String>)
        requires
            self.wf(),
        ensures
            r@.len() == self.tasks@.len() - 1,
            forall|j: int|
                0 <= j < r@.len() ==> (#[trigger] r@[j])@ == spec_render(self.tasks@[j + 1]@),
    {
        let mut r: Vec<String> = Vec::new();
        let mut i: usize = 1;
        while i < self.tasks.len()
            invariant
                1 <= i <= self.tasks@.len(),
                self.wf(),
                r@.len() == i - 1,
                forall|j: int|
                    0 <= j < r@.len() ==> (#[trigger] r@[j])@ == spec_render(self.tasks@[j + 1]@),
            decreases self.tasks@.len() - i,
        {
            r.push(self.tasks[i].render());
            i = i + 1;
        }
        r
    }

    /// Runs the pending confirmed action: sorting sorts in place; saving
    /// hands back the lines to persist.  Returns to Normal mode either
    /// way; outside Confirm mode nothing happens.
    pub fn confirm_action(&mut self) -> (r: Option<Vec<String>>)
        requires
            old(self).wf(),
        ensures
            match old(self).mode {
                Mode::Confirm(ConfirmedAction::Save) => {
                    &&& *final(self) == (App { mode: Mode::Normal, ..*old(self) })
                    &&& r matches Some(lines) && lines@.len() == old(self).tasks@.len() - 1
                        && forall|j: int|
                        0 <= j < lines@.len() ==> (#[trigger] lines@[j])@ == spec_render(
                            old(self).tasks@[j + 1]@,
                        )
                },
                Mode::Confirm(ConfirmedAction::Sort) => {
                    &&& r is None
                    &&& *final(self) == (App {
                        mode: Mode::Normal,
                        tasks: final(self).tasks,
                        ..*old(self)
                    })
                    &&& views_of(final(self).tasks@) == seq![views_of(old(self).tasks@)[0]]
                        + stable_sorted(views_of(old(self).tasks@).skip(1))
                    &&& final(self).tasks@.len() == old(self).tasks@.len()
                },
                _ => r is None && *final(self) == *old(self),
            },
            final(self).wf(),
    {
        match self.mode {
            Mode::Confirm(ConfirmedAction::Save) => {
                let lines = self.save_lines();
                self.mode = Mode::Normal;
                Some(lines)
            },
            Mode::Confirm(ConfirmedAction::Sort) => {
                self.sort_tasks();
                self.mode = Mode::Normal;
                None
            },
            _ => None,
        }
    }

    /// Discards the pending confirmed action.
    pub fn cancel_action(&mut self)
        ensures
            *final(self) == (App { mode: Mode::Normal, ..*old(self) }),
    {
        self.mode = Mode::Normal;
    }

    /// Asks for confirmation of an action.
    pub fn enter_confirm_mode(&mut self, action: ConfirmedAction)
        ensures
            *final(self) == (App { mode: Mode::Confirm(action), ..*old(self) }),
    {
        self.mode = Mode::Confirm(action);
    }

    /// Enters Edit mode and hands back the canonical rendering of the
    /// selected task (empty when the sentinel or nothing is selected),
    /// with which the editor is seeded.
    pub fn enter_edit_mode(&mut self) -> (r: String)
        requires
            old(self).wf(),
        ensures
            *final(self) == (App { mode: Mode::Edit, ..*old(self) }),
            r@ == (match spec_selected_task(*old(self)) {
                Some(t) => spec_render(t),
                None => Seq::<char>::empty(),
            }),
    {
        self.mode = Mode::Edit;
        match self.get_selected_task_idx() {
            Some(idx) => {
                proof {
                    assert(idx < self.tasks@.len());
                    assert(self.tasks@[idx as int]@.dates_wf());
                }
                self.tasks[idx].render()
            },
            None => String::new(),
        }
    }

    /// Shows the help display, suspending everything else.
    pub fn enter_help_mode(&mut self)
        ensures
            *final(self) == (App { mode: Mode::Help, ..*old(self) }),
    {
        self.mode = Mode::Help;
    }

    /// Leaves the help display.
    pub fn exit_help_mode(&mut self)
        ensures
            *final(self) == (App { mode: Mode::Normal, ..*old(self) }),
    {
        self.mode = Mode::Normal;
    }

    /// Moves the focused list's cursor up one entry (with wraparound);
    /// moving on a facet list refilters the tasks.  Only Normal mode
    /// reacts.
    pub fn navigate_up(&mut self)
        requires
            old(self).wf(),
        ensures
            old(self).mode != Mode::Normal ==> *final(self) == *old(self),
            (old(self).mode == Mode::Normal && old(self).focus == Focus::Tasks) ==> {
                &&& *final(self) == (App { task_list: final(self).task_list, ..*old(self) })
                &&& final(self).task_list.items == old(self).task_list.items
                &&& final(self).task_list.selection == Some(
                    crate::selection_list::step_back(
                        old(self).task_list.selection,
                        old(self).task_list.items@.len() as int,
                    ) as usize,
                )
            },
            (old(self).mode == Mode::Normal && old(self).focus == Focus::Contexts) ==> {
                &&& *final(self) == (App {
                    context_list: final(self).context_list,
                    task_list: final(self).task_list,
                    ..*old(self)
                })
                &&& final(self).context_list.items == old(self).context_list.items
                &&& final(self).context_list.selection == Some(
                    crate::selection_list::step_back(
                        old(self).context_list.selection,
                        old(self).context_list.items@.len() as int,
                    ) as usize,
                )
                &&& final(self).task_list.items@ == seq![0usize] + filtered_indices(
                    views_of(old(self).tasks@),
                    old(self).omit_completed,
                    spec_selected_facet(old(self).project_list),
                    spec_selected_facet(final(self).context_list),
                    spec_selected_priority(old(self).priority_list),
                )
                &&& final(self).task_list.selection == Some(0usize)
            },
            (old(self).mode == Mode::Normal && old(self).focus == Focus::Projects) ==> {
                &&& *final(self) == (App {
                    project_list: final(self).project_list,
                    task_list: final(self).task_list,
                    ..*old(self)
                })
                &&& final(self).project_list.items == old(self).project_list.items
                &&& final(self).project_list.selection == Some(
                    crate::selection_list::step_back(
                        old(self).project_list.selection,
                        old(self).project_list.items@.len() as int,
                    ) as usize,
                )
                &&& final(self).task_list.items@ == seq![0usize] + filtered_indices(
                    views_of(old(self).tasks@),
                    old(self).omit_completed,
                    spec_selected_facet(final(self).project_list),
                    spec_selected_facet(old(self).context_list),
                    spec_selected_priority(old(self).priority_list),
                )
                &&& final(self).task_list.selection == Some(0usize)
            },
            (old(self).mode == Mode::Normal && old(self).focus == Focus::Priorities) ==> {
                &&& *final(self) == (App {
                    priority_list: final(self).priority_list,
                    task_list: final(self).task_list,
                    ..*old(self)
                })
                &&& final(self).priority_list.items == old(self).priority_list.items
                &&& final(self).priority_list.selection == Some(
                    crate::selection_list::step_back(
                        old(self).priority_list.selection,
                        old(self).priority_list.items@.len() as int,
                    ) as usize,
                )
                &&& final(self).task_list.items@ == seq![0usize] + filtered_indices(
                    views_of(old(self).tasks@),
                    old(self).omit_completed,
                    spec_selected_facet(old(self).project_list),
                    spec_selected_facet(old(self).context_list),
                    spec_selected_priority(final(self).priority_list),
                )
                &&& final(self).task_list.selection == Some(0usize)
            },
            final(self).wf(),
    {
        match self.mode {
            Mode::Normal => {
                match self.focus {
                    Focus::Tasks => {
                        self.task_list.previous();
                    },
                    Focus::Contexts => {
                        self.context_list.previous();
                        self.filter_tasks();
                    },
                    Focus::Projects => {
                        self.project_list.previous();
                        self.filter_tasks();
                    },
                    Focus::Priorities => {
                        self.priority_list.previous();
                        self.filter_tasks();
                    },
                }
            },
            _ => {},
        }
    }

    /// Moves the focused list's cursor down one entry (with
    /// wraparound); moving on a facet list refilters the tasks.  Only
    /// Normal mode reacts.
    pub fn navigate_down(&mut self)
        requires
            old(self).wf(),
        ensures
            old(self).mode != Mode::Normal ==> *final(self) == *old(self),
            (old(self).mode == Mode::Normal && old(self).focus == Focus::Tasks) ==> {
                &&& *final(self) == (App { task_list: final(self).task_list, ..*old(self) })
                &&& final(self).task_list.items == old(self).task_list.items
                &&& final(self).task_list.selection == Some(
                    crate::selection_list::step_forward(
                        old(self).task_list.selection,
                        old(self).task_list.items@.len() as int,
                    ) as usize,
                )
            },
            (old(self).mode == Mode::Normal && old(self).focus == Focus::Contexts) ==> {
                &&& *final(self) == (App {
                    context_list: final(self).context_list,
                    task_list: final(self).task_list,
                    ..*old(self)
                })
                &&& final(self).context_list.items == old(self).context_list.items
                &&& final(self).context_list.selection == Some(
                    crate::selection_list::step_forward(
                        old(self).context_list.selection,
                        old(self).context_list.items@.len() as int,
                    ) as usize,
                )
                &&& final(self).task_list.items@ == seq![0usize] + filtered_indices(
                    views_of(old(self).tasks@),
                    old(self).omit_completed,
                    spec_selected_facet(old(self).project_list),
                    spec_selected_facet(final(self).context_list),
                    spec_selected_priority(old(self).priority_list),
                )
                &&& final(self).task_list.selection == Some(0usize)
            },
            (old(self).mode == Mode::Normal && old(self).focus == Focus::Projects) ==> {
                &&& *final(self) == (App {
                    project_list: final(self).project_list,
                    task_list: final(self).task_list,
                    ..*old(self)
                })
                &&& final(self).project_list.items == old(self).project_list.items
                &&& final(self).project_list.selection == Some(
                    crate::selection_list::step_forward(
                        old(self).project_list.selection,
                        old(self).project_list.items@.len() as int,
                    ) as usize,
                )
                &&& final(self).task_list.items@ == seq![0usize] + filtered_indices(
                    views_of(old(self).tasks@),
                    old(self).omit_completed,
                    spec_selected_facet(final(self).project_list),
                    spec_selected_facet(old(self).context_list),
                    spec_selected_priority(old(self).priority_list),
                )
                &&& final(self).task_list.selection == Some(0usize)
            },
            (old(self).mode == Mode::Normal && old(self).focus == Focus::Priorities) ==> {
                &&& *final(self) == (App {
                    priority_list: final(self).priority_list,
                    task_list: final(self).task_list,
                    ..*old(self)
                })
                &&& final(self).priority_list.items == old(self).priority_list.items
                &&& final(self).priority_list.selection == Some(
                    crate::selection_list::step_forward(
                        old(self).priority_list.selection,
                        old(self).priority_list.items@.len() as int,
                    ) as usize,
                )
                &&& final(self).task_list.items@ == seq![0usize] + filtered_indices(
                    views_of(old(self).tasks@),
                    old(self).omit_completed,
                    spec_selected_facet(old(self).project_list),
                    spec_selected_facet(old(self).context_list),
                    spec_selected_priority(final(self).priority_list),
                )
                &&& final(self).task_list.selection == Some(0usize)
            },
            final(self).wf(),
    {
        match self.mode {
            Mode::Normal => {
                match self.focus {
                    Focus::Tasks => {
                        self.task_list.next();
                    },
                    Focus::Contexts => {
                        self.context_list.next();
                        self.filter_tasks();
                    },
                    Focus::Projects => {
                        self.project_list.next();
                        self.filter_tasks();
                    },
                    Focus::Priorities => {
                        self.priority_list.next();
                        self.filter_tasks();
                    },
                }
            },
            _ => {},
        }
    }

    /// Moves the focus one pane to the right through the fixed ring
    /// tasks, contexts, projects, priorities.  Only Normal mode reacts.
    pub fn navigate_right(&mut self)
        ensures
            old(self).mode != Mode::Normal ==> *final(self) == *old(self),
            old(self).mode == Mode::Normal ==> *final(self) == (App {
                focus: (match old(self).focus {
                    Focus::Tasks => Focus::Contexts,
                    Focus::Contexts => Focus::Projects,
                    Focus::Projects => Focus::Priorities,
                    Focus::Priorities => Focus::Tasks,
                }),
                ..*old(self)
            }),
    {
        match self.mode {
            Mode::Normal => {
                match self.focus {
                    Focus::Tasks => {
                        self.focus = Focus::Contexts;
                    },
                    Focus::Contexts => {
                        self.focus = Focus::Projects;
                    },
                    Focus::Projects => {
                        self.focus = Focus::Priorities;
                    },
                    Focus::Priorities => {
                        self.focus = Focus::Tasks;
                    },
                }
            },
            _ => {},
        }
    }

    /// Moves the focus one pane to the left through the fixed ring.
    /// Only Normal mode reacts.
    pub fn navigate_left(&mut self)
        ensures
            old(self).mode != Mode::Normal ==> *final(self) == *old(self),
            old(self).mode == Mode::Normal ==> *final(self) == (App {
                focus: (match old(self).focus {
                    Focus::Tasks => Focus::Priorities,
                    Focus::Contexts => Focus::Tasks,
                    Focus::Projects => Focus::Contexts,
                    Focus::Priorities => Focus::Projects,
                }),
                ..*old(self)
            }),
    {
        match self.mode {
            Mode::Normal => {
                match self.focus {
                    Focus::Tasks => {
                        self.focus = Focus::Priorities;
                    },
                    Focus::Contexts => {
                        self.focus = Focus::Tasks;
                    },
                    Focus::Projects => {
                        self.focus = Focus::Contexts;
                    },
                    Focus::Priorities => {
                        self.focus = Focus::Projects;
                    },
                }
            },
            _ => {},
        }
    }

    /// Recomputes the derived state after a structural edit: the three
    /// facet lists are rebuilt from the whole collection, each cursor
    /// re-resolved to its previous value if still present; the task
    /// list is refiltered under the re-resolved facets, its cursor
    /// carried over, and reset to the sentinel if the previously
    /// selected task no longer matches the active facet selections.
    #[verifier::rlimit(100)]
    pub fn update_state_after_edit(&mut self)
        requires
            old(self).base_wf(),
        ensures
            ({
                let r = spec_refresh(
                    views_of(old(self).tasks@),
                    old(self).omit_completed,
                    spec_selected_facet(old(self).context_list),
                    spec_selected_facet(old(self).project_list),
                    spec_selected_priority(old(self).priority_list),
                    old(self).task_list.selection,
                    spec_selected_task(*old(self)),
                );
                &&& *final(self) == (App {
                    context_list: final(self).context_list,
                    project_list: final(self).project_list,
                    priority_list: final(self).priority_list,
                    task_list: final(self).task_list,
                    ..*old(self)
                })
                &&& refreshed_to(*final(self), r)
            }),
            final(self).wf(),
    {
        let ghost tv = views_of(self.tasks@);
        let ghost r = spec_refresh(
            tv,
            self.omit_completed,
            spec_selected_facet(self.context_list),
            spec_selected_facet(self.project_list),
            spec_selected_priority(self.priority_list),
            self.task_list.selection,
            spec_selected_task(*self),
        );
        let ghost old_sel_task = spec_selected_task(*self);
        let selected_context = self.get_selected_context();
        self.context_list = SelectionList::with_items(
            App::get_context_items(self.tasks.as_slice()),
        );
        proof {
            assert(strings_of(self.context_list.items@) == r.ctx_items);
            assert(self.context_list.items@.len() == r.ctx_items.len());
            assert(r.ctx_items.len() >= 1);
        }
        if let Some(context) = selected_context {
            let pos = position_of(&self.context_list.items, &context);
            proof {
                lemma_find_value(r.ctx_items, context@);
            }
            self.context_list.select(pos);
        }
        proof {
            assert(self.context_list.selection == r.ctx_sel);
        }
        let selected_project = self.get_selected_project();
        self.project_list = SelectionList::with_items(
            App::get_project_items(self.tasks.as_slice()),
        );
        proof {
            assert(strings_of(self.project_list.items@) == r.proj_items);
            assert(self.project_list.items@.len() == r.proj_items.len());
            assert(r.proj_items.len() >= 1);
        }
        if let Some(project) = selected_project {
            let pos = position_of(&self.project_list.items, &project);
            proof {
                lemma_find_value(r.proj_items, project@);
            }
            self.project_list.select(pos);
        }
        proof {
            assert(self.project_list.selection == r.proj_sel);
        }
        let selected_priority = self.get_selected_priority();
        self.priority_list = SelectionList::with_items(
            App::get_priority_items(self.tasks.as_slice()),
        );
        proof {
            assert(strings_of(self.priority_list.items@) == r.pri_items);
            assert(self.priority_list.items@.len() == r.pri_items.len());
            assert(r.pri_items.len() >= 1);
        }
        if let Some(priority) = selected_priority {
            let mut one: Vec<char> = Vec::new();
            one.push(priority);
            let pstr = string_from_chars(&one, 0);
            proof {
                assert(pstr@ =~= seq![priority]);
            }
            let pos = position_of(&self.priority_list.items, &pstr);
            proof {
                lemma_find_value(r.pri_items, seq![priority]);
            }
            self.priority_list.select(pos);
        }
        proof {
            assert(self.priority_list.selection == r.pri_sel);
            assert(spec_selected_facet(self.context_list) == selected_value(
                r.ctx_items,
                r.ctx_sel,
            ));
            assert(spec_selected_facet(self.project_list) == selected_value(
                r.proj_items,
                r.proj_sel,
            ));
            assert(spec_selected_priority(self.priority_list) == (
            match selected_value(r.pri_items, r.pri_sel) {
                Some(sp) => if sp.len() > 0 {
                    Some(sp[0])
                } else {
                    None::<char>
                },
                None => None::<char>,
            }));
        }
        let selected_task: Option<Task> = match self.get_selected_task() {
            Some(t) => Some(t.clone()),
            None => None,
        };
        proof {
            assert(spec_selected_task(*self) == old_sel_task);
            match selected_task {
                Some(ref t) => {
                    assert(old_sel_task == Some(t@));
                },
                None => {
                    assert(old_sel_task is None);
                },
            }
        }
        let selected_task_list_idx = self.task_list.selection();
        self.filter_tasks();
        proof {
            assert(self.task_list.items@ == r.task_items);
        }
        self.task_list.select(selected_task_list_idx);
        if let Some(task) = &selected_task {
            let pri_now = self.get_selected_priority();
            let pri_mismatch = match pri_now {
                Some(b) => match task.priority {
                    Some(a) => a != b,
                    None => true,
                },
                None => false,
            };
            if pri_mismatch {
                self.task_list.select(Some(0));
            }
            if let Some(c) = self.get_selected_context() {
                if !crate::tasks::contains_string(&task.contexts, &c) {
                    self.task_list.select(Some(0));
                }
            }
            if let Some(p) = self.get_selected_project() {
                if !crate::tasks::contains_string(&task.projects, &p) {
                    self.task_list.select(Some(0));
                }
            }
        }
        proof {
            assert(self.task_list.selection == r.task_sel);
            assert(refreshed_to(*self, r));
        }
    }

    /// Leaves Edit mode.  A missing input cancels; an empty input
    /// deletes the selected real task and returns the task cursor to
    /// the sentinel; any other input is parsed and either replaces the
    /// selected task, or — on the sentinel — appends a new task
    /// stamped with the given current date.  A structural change
    /// recomputes the derived state; a parse failure only sets the
    /// error message.
    pub fn exit_edit_mode_on(&mut self, input_str: Option<String>, current: Option<Date>)
        requires
            old(self).wf(),
            current matches Some(d) ==> d.wf(),
        ensures
            exit_edit_outcome(*old(self), *final(self), opt_str_view(input_str), current),
            final(self).wf(),
    {
        self.mode = Mode::Normal;
        let input = match input_str {
            None => {
                return ;
            },
            Some(s) => s,
        };
        let task_list_idx = match self.task_list.selection() {
            None => {
                return ;
            },
            Some(i) => i,
        };
        let tasks_idx = self.task_list.items[task_list_idx];
        if input.as_str().is_empty() {
            if task_list_idx != 0 {
                proof {
                    assert(tasks_idx >= 1);
                    assert(views_of(old(self).tasks@).remove(tasks_idx as int)
                        =~= views_of(old(self).tasks@.remove(tasks_idx as int)));
                }
                self.tasks.remove(tasks_idx);
                self.update_state_after_edit();
                self.task_list.select(Some(0));
            }
            return ;
        }
        match TaskParser::new().parse_line(input.as_str()) {
            Some(task) => {
                if task_list_idx == 0 {
                    let mut task = task;
                    task.date_created = current;
                    let ghost pushed = views_of(old(self).tasks@).push(task@);
                    self.tasks.push(task);
                    proof {
                        assert(views_of(self.tasks@) =~= pushed);
                    }
                    self.task_list.select(Some(0));
                    self.update_state_after_edit();
                } else {
                    let ghost replaced = views_of(old(self).tasks@).update(
                        tasks_idx as int,
                        task@,
                    );
                    self.tasks[tasks_idx] = task;
                    proof {
                        assert(views_of(self.tasks@) =~= replaced);
                    }
                    self.update_state_after_edit();
                }
            },
            None => {
                self.error_msg = "Failed to parse Task".to_owned();
            },
        }
    }

    /// Leaves Edit mode with today's date as the creation stamp for a
    /// newly appended task; otherwise as `exit_edit_mode_on`.
    pub fn exit_edit_mode(&mut self, input_str: Option<String>)
        requires
            old(self).wf(),
        ensures
            exists|current: Option<Date>|
                (current matches Some(d) ==> d.wf()) && #[trigger] exit_edit_outcome(
                    *old(self),
                    *final(self),
                    opt_str_view(input_str),
                    current,
                ),
            final(self).wf(),
    {
        let current = today();
        self.exit_edit_mode_on(input_str, current);
    }

    fn selected_item(l: &SelectionList<String>) -> (r: Option<String>)
        ensures
            match r {
                Some(s) => spec_selected_facet(*l) == Some(s@),
                None => spec_selected_facet(*l) is None,
            },
    {
        match l.selection() {
            Some(i) => {
                if i > 0 && i < l.items.len() {
                    proof {
                        assert(strings_of(l.items@)[i as int] == l.items@[i as int]@);
                    }
                    Some(l.items[i].clone())
                } else {
                    None
                }
            },
            None => None,
        }
    }
}

/// The first position of `v` among `items`, if any.
fn position_of(items: &Vec<String>, v: &String) -> (r: Option<usize>)
    ensures
        r == opt_usize(find_value(strings_of(items@), v@)),
{
    let ghost sv = strings_of(items@);
    proof {
        lemma_find_value(sv, v@);
    }
    let mut k: usize = 0;
    while k < items.len()
        invariant
            k <= items@.len(),
            sv == strings_of(items@),
            sv.len() == items@.len(),
            forall|j: int| 0 <= j < k ==> sv[j] != v@,
        decreases items@.len() - k,
    {
        proof {
            assert(sv[k as int] == items@[k as int]@);
        }
        if items[k].eq(v) {
            proof {
                lemma_find_value(sv, v@);
                assert(sv[k as int] == v@);
                if let Some(i) = find_value(sv, v@) {
                    assert(0 <= i < sv.len() && sv[i] == v@);
                    assert(forall|j: int| 0 <= j < i ==> sv[j] != v@);
                    if i < k {
                        assert(sv[i] != v@);
                        assert(false);
                    }
                    if i > k {
                        assert(sv[k as int] != v@);
                        assert(false);
                    }
                } else {
                    assert(false);
                }
            }
            return Some(k);
        }
        k = k + 1;
    }
    proof {
        lemma_find_value(sv, v@);
        if let Some(i) = find_value(sv, v@) {
            assert(sv[i] == v@);
            assert(false);
        }
    }
    None
}

} // verus!
