use vstd::prelude::*;
use crate::parse::{spec_parse, TaskParser};
use crate::task::{Task, TaskView};
use crate::text::{lemma_head_contains, lex_lt, lemma_lex_lt_total, lemma_lex_lt_trans, str_lex_lt};

verus! {

/// The task images of a sequence of tasks.
pub open spec fn views_of(s: Seq<Task>) -> Seq<TaskView> {
    s.map_values(|t: Task| t@)
}

/// The character sequences of a sequence of strings.
pub open spec fn strings_of(s: Seq<String>) -> Seq<Seq<char>> {
    s.map_values(|x: String| x@)
}

/// The tasks that a sequence of raw lines yields: each line parsed in
/// order, lines without tokens skipped.
pub open spec fn parsed_tasks(lines: Seq<Seq<char>>) -> Seq<TaskView>
    decreases lines.len(),
{
    if lines.len() == 0 {
        Seq::empty()
    } else {
        parsed_tasks(lines.drop_last()) + (match spec_parse(lines.last()) {
            Some(t) => seq![t],
            None => Seq::empty(),
        })
    }
}

/// Parses raw lines into tasks, in order, skipping blank lines; every
/// task that comes out is well-formed.
pub fn read(lines: &Vec<String>) -> (r: Vec<Task>)
    ensures
        views_of(r@) == parsed_tasks(strings_of(lines@)),
        forall|j: int| 0 <= j < r@.len() ==> (#[trigger] r@[j])@.wf(),
{
    let ghost all = strings_of(lines@);
    let mut r: Vec<Task> = Vec::new();
    let mut i: usize = 0;
    proof {
        assert(all.subrange(0, 0) =~= Seq::<Seq<char>>::empty());
        assert(views_of(r@) =~= parsed_tasks(all.subrange(0, 0)));
    }
    while i < lines.len()
        invariant
            i <= lines@.len(),
            all == strings_of(lines@),
            all.len() == lines@.len(),
            views_of(r@) == parsed_tasks(all.subrange(0, i as int)),
            forall|j: int| 0 <= j < r@.len() ==> (#[trigger] r@[j])@.wf(),
        decreases lines@.len() - i,
    {
        let ghost before = views_of(r@);
        let line: &String = &lines[i];
        proof {
            assert(all[i as int] == line@);
            assert(all.subrange(0, i as int + 1).drop_last() =~= all.subrange(0, i as int));
            assert(all.subrange(0, i as int + 1).last() == line@);
        }
        match TaskParser::new().parse_line(line.as_str()) {
            Some(task) => {
                r.push(task);
                proof {
                    assert(views_of(r@) =~= before.push(task@));
                    assert(views_of(r@) =~= parsed_tasks(all.subrange(0, i as int + 1)));
                }
            },
            None => {
                proof {
                    assert(views_of(r@) =~= parsed_tasks(all.subrange(0, i as int + 1)));
                }
            },
        }
        i = i + 1;
    }
    proof {
        assert(all.subrange(0, all.len() as int) =~= all);
    }
    r
}

/// One of the filter's membership tests, as a value.
pub ghost enum TaskPred {
    OmitCompleted,
    HasContext(Seq<char>),
    HasProject(Seq<char>),
    HasPriority(char),
}

/// What each membership test asks of a task.
pub open spec fn eval_pred(p: TaskPred, t: TaskView) -> bool {
    match p {
        TaskPred::OmitCompleted => !t.completed,
        TaskPred::HasContext(c) => t.contexts.contains(c),
        TaskPred::HasProject(pr) => t.projects.contains(pr),
        TaskPred::HasPriority(c) => t.priority == Some(c),
    }
}

/// The surviving tasks and their parallel indices after one membership
/// test, in order.
pub open spec fn filter_pair(ts: Seq<TaskView>, idx: Seq<usize>, p: TaskPred) -> (
    Seq<TaskView>,
    Seq<usize>,
)
    decreases ts.len(),
{
    if ts.len() == 0 || idx.len() == 0 {
        (Seq::empty(), Seq::empty())
    } else {
        let (rt, ri) = filter_pair(ts.drop_last(), idx.drop_last(), p);
        if eval_pred(p, ts.last()) {
            (rt.push(ts.last()), ri.push(idx.last()))
        } else {
            (rt, ri)
        }
    }
}

/// A transient query over a task collection: the surviving tasks plus
/// their original indices, in parallel and in ascending original
/// order.  Built fresh for each query; each `with_*` step intersects
/// the surviving set with one membership test.
pub struct TasksFilter {
    pub tasks: Vec<Task>,
    pub task_indices: Vec<usize>,
}

impl TasksFilter {
    /// A query over all of `tasks`, in their own order.
    pub fn new(tasks: &[Task]) -> (r: TasksFilter)
        ensures
            views_of(r.tasks@) == views_of(tasks@),
            r.task_indices@.len() == tasks@.len(),
            forall|j: int| 0 <= j < tasks@.len() ==> r.task_indices@[j] == j,
    {
        let mut held: Vec<Task> = Vec::new();
        let mut idx: Vec<usize> = Vec::new();
        let mut i: usize = 0;
        while i < tasks.len()
            invariant
                i <= tasks@.len(),
                held@.len() == i,
                idx@.len() == i,
                forall|j: int| 0 <= j < i ==> idx@[j] == j,
                forall|j: int| 0 <= j < i ==> (#[trigger] held@[j])@ == tasks@[j]@,
            decreases tasks@.len() - i,
        {
            held.push(tasks[i].clone());
            idx.push(i);
            i = i + 1;
        }
        proof {
            assert(views_of(held@) =~= views_of(tasks@));
        }
        TasksFilter { tasks: held, task_indices: idx }
    }

    /// How many distinct contexts the surviving tasks carry.
    pub fn num_contexts(&self, include_completed: bool) -> (r: usize)
        ensures
            r == sorted_facet(
                FacetKind::Contexts,
                views_of(self.tasks@),
                include_completed,
            ).len(),
    {
        num_contexts(self.tasks.as_slice(), include_completed)
    }

    /// How many distinct projects the surviving tasks carry.
    pub fn num_projects(&self, include_completed: bool) -> (r: usize)
        ensures
            r == sorted_facet(
                FacetKind::Projects,
                views_of(self.tasks@),
                include_completed,
            ).len(),
    {
        num_projects(self.tasks.as_slice(), include_completed)
    }

    /// How many distinct priorities the surviving tasks carry.
    pub fn num_priorities(&self, include_completed: bool) -> (r: usize)
        ensures
            r == sorted_priorities(views_of(self.tasks@), include_completed).len(),
    {
        num_priorities(self.tasks.as_slice(), include_completed)
    }

    /// The distinct contexts of the surviving tasks, ascending.
    pub fn collect_contexts(&self, include_completed: bool) -> (r: Vec<String>)
        ensures
            strings_of(r@) == sorted_facet(
                FacetKind::Contexts,
                views_of(self.tasks@),
                include_completed,
            ),
            lex_sorted(strings_of(r@)),
    {
        collect_contexts(self.tasks.as_slice(), include_completed)
    }

    /// The distinct projects of the surviving tasks, ascending.
    pub fn collect_projects(&self, include_completed: bool) -> (r: Vec<String>)
        ensures
            strings_of(r@) == sorted_facet(
                FacetKind::Projects,
                views_of(self.tasks@),
                include_completed,
            ),
            lex_sorted(strings_of(r@)),
    {
        collect_projects(self.tasks.as_slice(), include_completed)
    }

    /// The distinct priorities of the surviving tasks, ascending.
    pub fn collect_priorities(&self, include_completed: bool) -> (r: Vec<char>)
        ensures
            r@ == sorted_priorities(views_of(self.tasks@), include_completed),
            char_sorted(r@),
    {
        collect_priorities(self.tasks.as_slice(), include_completed)
    }

    /// Keeps the tasks carrying the given context, if one is asked for.
    pub fn with_context(self, context_opt: Option<&str>) -> (r: TasksFilter)
        requires
            self.tasks@.len() == self.task_indices@.len(),
        ensures
            match context_opt {
                Some(c) => (views_of(r.tasks@), r.task_indices@) == filter_pair(
                    views_of(self.tasks@),
                    self.task_indices@,
                    TaskPred::HasContext(c@),
                ),
                None => r == self,
            },
            r.tasks@.len() == r.task_indices@.len(),
    {
        match context_opt {
            None => self,
            Some(c) => {
                let needle: String = c.to_owned();
                let (tasks, idx) = filter_by(
                    self.tasks,
                    self.task_indices,
                    FacetTest::Context(needle),
                );
                TasksFilter { tasks, task_indices: idx }
            },
        }
    }

    /// Keeps the tasks carrying the given project, if one is asked for.
    pub fn with_project(self, project_opt: Option<&str>) -> (r: TasksFilter)
        requires
            self.tasks@.len() == self.task_indices@.len(),
        ensures
            match project_opt {
                Some(p) => (views_of(r.tasks@), r.task_indices@) == filter_pair(
                    views_of(self.tasks@),
                    self.task_indices@,
                    TaskPred::HasProject(p@),
                ),
                None => r == self,
            },
            r.tasks@.len() == r.task_indices@.len(),
    {
        match project_opt {
            None => self,
            Some(p) => {
                let needle: String = p.to_owned();
                let (tasks, idx) = filter_by(
                    self.tasks,
                    self.task_indices,
                    FacetTest::Project(needle),
                );
                TasksFilter { tasks, task_indices: idx }
            },
        }
    }

    /// Keeps the tasks of the given priority, if one is asked for.
    pub fn with_priority(self, priority_opt: Option<char>) -> (r: TasksFilter)
        requires
            self.tasks@.len() == self.task_indices@.len(),
        ensures
            match priority_opt {
                Some(p) => (views_of(r.tasks@), r.task_indices@) == filter_pair(
                    views_of(self.tasks@),
                    self.task_indices@,
                    TaskPred::HasPriority(p),
                ),
                None => r == self,
            },
            r.tasks@.len() == r.task_indices@.len(),
    {
        match priority_opt {
            None => self,
            Some(p) => {
                let (tasks, idx) = filter_by(
                    self.tasks,
                    self.task_indices,
                    FacetTest::Priority(p),
                );
                TasksFilter { tasks, task_indices: idx }
            },
        }
    }

    /// Drops the completed tasks when asked to; a `false` flag changes
    /// nothing, whatever was filtered before.
    pub fn without_completed(self, omit_completed: bool) -> (r: TasksFilter)
        requires
            self.tasks@.len() == self.task_indices@.len(),
        ensures
            omit_completed ==> (views_of(r.tasks@), r.task_indices@) == filter_pair(
                views_of(self.tasks@),
                self.task_indices@,
                TaskPred::OmitCompleted,
            ),
            !omit_completed ==> r == self,
            r.tasks@.len() == r.task_indices@.len(),
    {
        if omit_completed {
            let (tasks, idx) = filter_by(self.tasks, self.task_indices, FacetTest::Incomplete);
            TasksFilter { tasks, task_indices: idx }
        } else {
            self
        }
    }
}

/// An executable membership test.
pub enum FacetTest {
    Incomplete,
    Context(String),
    Project(String),
    Priority(char),
}

impl FacetTest {
    /// The test as a value of the specification.
    pub open spec fn view(&self) -> TaskPred {
        match self {
            FacetTest::Incomplete => TaskPred::OmitCompleted,
            FacetTest::Context(c) => TaskPred::HasContext(c@),
            FacetTest::Project(p) => TaskPred::HasProject(p@),
            FacetTest::Priority(p) => TaskPred::HasPriority(*p),
        }
    }

    /// Whether `t` passes the test.
    pub fn passes(&self, t: &Task) -> (r: bool)
        ensures
            r == eval_pred(self.view(), t@),
    {
        match self {
            FacetTest::Incomplete => !t.completed,
            FacetTest::Context(c) => contains_string(&t.contexts, c),
            FacetTest::Project(p) => contains_string(&t.projects, p),
            FacetTest::Priority(p) => match t.priority {
                Some(q) => q == *p,
                None => false,
            },
        }
    }
}

/// Whether some element of `items` equals `needle`.
pub fn contains_string(items: &Vec<String>, needle: &String) -> (r: bool)
    ensures
        r == items.deep_view().contains(needle@),
{
    let mut j: usize = 0;
    while j < items.len()
        invariant
            j <= items@.len(),
            forall|m: int| 0 <= m < j ==> items.deep_view()[m] != needle@,
        decreases items@.len() - j,
    {
        if items[j].eq(needle) {
            proof {
                assert(items.deep_view()[j as int] == needle@);
            }
            return true;
        }
        proof {
            assert(items.deep_view()[j as int] == items@[j as int]@);
        }
        j = j + 1;
    }
    proof {
        assert(!items.deep_view().contains(needle@)) by {
            assert(forall|m: int| 0 <= m < items.deep_view().len() ==> items.deep_view()[m]
                != needle@);
        }
    }
    false
}

/// Keeps the task/index pairs whose task passes the test.
fn filter_by(tasks: Vec<Task>, indices: Vec<usize>, test: FacetTest) -> (r: (Vec<Task>, Vec<usize>))
    requires
        tasks@.len() == indices@.len(),
    ensures
        (views_of(r.0@), r.1@) == filter_pair(views_of(tasks@), indices@, test.view()),
        r.0@.len() == r.1@.len(),
{
    let ghost ts = views_of(tasks@);
    let ghost idx = indices@;
    let mut kept: Vec<Task> = Vec::new();
    let mut kept_idx: Vec<usize> = Vec::new();
    let mut i: usize = 0;
    proof {
        assert(ts.subrange(0, 0) =~= Seq::<TaskView>::empty());
        assert((views_of(kept@), kept_idx@) =~= filter_pair(
            ts.subrange(0, 0),
            idx.subrange(0, 0),
            test.view(),
        ));
    }
    while i < tasks.len()
        invariant
            i <= tasks@.len(),
            ts == views_of(tasks@),
            idx == indices@,
            ts.len() == tasks@.len(),
            idx.len() == tasks@.len(),
            kept@.len() == kept_idx@.len(),
            (views_of(kept@), kept_idx@) == filter_pair(
                ts.subrange(0, i as int),
                idx.subrange(0, i as int),
                test.view(),
            ),
        decreases tasks@.len() - i,
    {
        proof {
            assert(ts.subrange(0, i as int + 1).drop_last() =~= ts.subrange(0, i as int));
            assert(idx.subrange(0, i as int + 1).drop_last() =~= idx.subrange(0, i as int));
            assert(ts.subrange(0, i as int + 1).last() == ts[i as int]);
            assert(idx.subrange(0, i as int + 1).last() == idx[i as int]);
            assert(ts[i as int] == tasks@[i as int]@);
        }
        let ghost kt = views_of(kept@);
        if test.passes(&tasks[i]) {
            kept.push(tasks[i].clone());
            kept_idx.push(indices[i]);
            proof {
                assert(views_of(kept@) =~= kt.push(tasks@[i as int]@));
            }
        }
        proof {
            assert((views_of(kept@), kept_idx@) =~= filter_pair(
                ts.subrange(0, i as int + 1),
                idx.subrange(0, i as int + 1),
                test.view(),
            ));
        }
        i = i + 1;
    }
    proof {
        assert(ts.subrange(0, ts.len() as int) =~= ts);
        assert(idx.subrange(0, idx.len() as int) =~= idx);
    }
    (kept, kept_idx)
}

/// Ascending, duplicate-free order of written values.
pub open spec fn lex_sorted(s: Seq<Seq<char>>) -> bool {
    forall|j: int, k: int| 0 <= j < k < s.len() ==> lex_lt(s[j], s[k])
}

/// Ascending, duplicate-free order of characters.
pub open spec fn char_sorted(s: Seq<char>) -> bool {
    forall|j: int, k: int| 0 <= j < k < s.len() ==> (s[j] as u32) < (s[k] as u32)
}

/// Insertion into an ascending duplicate-free sequence: before the
/// first value not below `c`, and not at all if `c` is already there.
pub open spec fn insert_lex(c: Seq<char>, s: Seq<Seq<char>>) -> Seq<Seq<char>>
    decreases s.len(),
{
    if s.len() == 0 {
        seq![c]
    } else if lex_lt(s[0], c) {
        seq![s[0]] + insert_lex(c, s.drop_first())
    } else if s[0] == c {
        s
    } else {
        seq![c] + s
    }
}

proof fn lemma_insert_lex_props(c: Seq<char>, s: Seq<Seq<char>>)
    requires
        lex_sorted(s),
    ensures
        lex_sorted(insert_lex(c, s)),
        forall|d: Seq<char>|
            #![trigger insert_lex(c, s).contains(d)]
            insert_lex(c, s).contains(d) <==> s.contains(d) || d == c,
        insert_lex(c, s).len() >= 1,
    decreases s.len(),
{
    let r = insert_lex(c, s);
    if s.len() == 0 {
        assert(r =~= seq![c]);
        assert forall|d: Seq<char>| r.contains(d) <==> s.contains(d) || d == c by {
            if r.contains(d) {
                assert(r[0] == c);
            }
            if d == c {
                assert(r[0] == c);
                assert(r.contains(c));
            }
        }
    } else if lex_lt(s[0], c) {
        assert(lex_sorted(s.drop_first())) by {
            assert(forall|j: int, k: int|
                0 <= j < k < s.drop_first().len() ==> s.drop_first()[j] == s[j + 1]
                    && s.drop_first()[k] == s[k + 1]);
        }
        lemma_insert_lex_props(c, s.drop_first());
        let rr = insert_lex(c, s.drop_first());
        assert(r =~= seq![s[0]] + rr);
        assert forall|j: int, k: int| 0 <= j < k < r.len() implies lex_lt(r[j], r[k]) by {
            if j == 0 {
                assert(r[k] == rr[k - 1]);
                assert(rr.contains(rr[k - 1]));
                if s.drop_first().contains(rr[k - 1]) {
                    let m = choose|m: int|
                        0 <= m < s.drop_first().len() && s.drop_first()[m] == rr[k - 1];
                    assert(s[m + 1] == rr[k - 1]);
                    assert(lex_lt(s[0], s[m + 1]));
                } else {
                    assert(rr[k - 1] == c);
                }
            } else {
                assert(r[j] == rr[j - 1] && r[k] == rr[k - 1]);
            }
        }
        assert forall|d: Seq<char>| r.contains(d) <==> s.contains(d) || d == c by {
            lemma_head_contains(s, d);
            lemma_head_contains(r, d);
            assert(r[0] == s[0]);
            assert(r.drop_first() =~= rr);
        }
    } else if s[0] == c {
        assert(s.contains(c)) by {
            assert(s[0] == c);
        }
    } else {
        crate::text::lemma_lex_lt_total(s[0], c);
        assert(lex_lt(c, s[0]));
        assert(r =~= seq![c] + s);
        assert forall|j: int, k: int| 0 <= j < k < r.len() implies lex_lt(r[j], r[k]) by {
            if j == 0 {
                assert(r[k] == s[k - 1]);
                if k - 1 > 0 {
                    assert(lex_lt(s[0], s[k - 1]));
                    crate::text::lemma_lex_lt_trans(c, s[0], s[k - 1]);
                }
            } else {
                assert(r[j] == s[j - 1] && r[k] == s[k - 1]);
            }
        }
        assert forall|d: Seq<char>| r.contains(d) <==> s.contains(d) || d == c by {
            lemma_head_contains(r, d);
            assert(r[0] == c);
            assert(r.drop_first() =~= s);
        }
    }
}

proof fn lemma_insert_lex_at(c: Seq<char>, s: Seq<Seq<char>>, k: int)
    requires
        0 <= k <= s.len(),
        forall|j: int| 0 <= j < k ==> lex_lt(#[trigger] s[j], c),
        k == s.len() || !lex_lt(s[k], c),
    ensures
        insert_lex(c, s) == if k < s.len() && s[k] == c {
            s
        } else {
            s.take(k) + seq![c] + s.skip(k)
        },
    decreases s.len(),
{
    if s.len() == 0 {
        assert(insert_lex(c, s) =~= s.take(0) + seq![c] + s.skip(0));
    } else if k == 0 {
        if s[0] == c {
        } else {
            assert(insert_lex(c, s) =~= s.take(0) + seq![c] + s.skip(0));
        }
    } else {
        assert(lex_lt(s[0], c));
        assert(forall|j: int| 0 <= j < k - 1 ==> s.drop_first()[j] == s[j + 1]);
        lemma_insert_lex_at(c, s.drop_first(), k - 1);
        if k < s.len() && s[k] == c {
            assert(s.drop_first()[k - 1] == c);
            assert(insert_lex(c, s) =~= seq![s[0]] + s.drop_first());
            assert(insert_lex(c, s) =~= s);
        } else {
            assert(s.drop_first().take(k - 1) =~= s.subrange(1, k));
            assert(s.drop_first().skip(k - 1) =~= s.skip(k));
            assert(insert_lex(c, s) =~= seq![s[0]] + (s.subrange(1, k) + seq![c] + s.skip(k)));
            assert(insert_lex(c, s) =~= s.take(k) + seq![c] + s.skip(k));
        }
    }
}

/// Inserts a value into an ascending duplicate-free vector of strings,
/// keeping it ascending and duplicate-free.
fn insert_string_sorted(acc: &mut Vec<String>, val: &String)
    requires
        lex_sorted(strings_of(old(acc)@)),
    ensures
        strings_of(final(acc)@) == insert_lex(val@, strings_of(old(acc)@)),
        lex_sorted(strings_of(final(acc)@)),
{
    let ghost s = strings_of(acc@);
    let mut k: usize = 0;
    while k < acc.len() && str_lex_lt(&acc[k], val)
        invariant
            k <= acc@.len(),
            s == strings_of(acc@),
            s.len() == acc@.len(),
            *acc == *old(acc),
            forall|j: int| 0 <= j < k ==> lex_lt(#[trigger] s[j], val@),
        decreases acc@.len() - k,
    {
        proof {
            assert(s[k as int] == acc@[k as int]@);
        }
        k = k + 1;
    }
    proof {
        assert(k < acc@.len() ==> s[k as int] == acc@[k as int]@ && !lex_lt(s[k as int], val@));
        lemma_insert_lex_at(val@, s, k as int);
        lemma_insert_lex_props(val@, s);
    }
    if k < acc.len() && acc[k].eq(val) {
        proof {
            assert(s[k as int] == val@);
        }
        return ;
    }
    let ghost before = acc@;
    acc.insert(k, val.clone());
    proof {
        assert(strings_of(acc@) =~= s.take(k as int) + seq![val@] + s.skip(k as int)) by {
            assert(acc@ =~= before.insert(k as int, *val));
            assert(forall|j: int|
                0 <= j < k ==> acc@[j] == before[j] && strings_of(acc@)[j] == s[j]);
            assert(strings_of(acc@)[k as int] == val@);
            assert(forall|j: int|
                k < j < acc@.len() ==> acc@[j] == before[j - 1] && strings_of(acc@)[j] == s[j
                    - 1]);
        }
    }
}

/// Inserts a character into an ascending duplicate-free vector,
/// keeping it ascending and duplicate-free.
pub open spec fn insert_char(c: char, s: Seq<char>) -> Seq<char>
    decreases s.len(),
{
    if s.len() == 0 {
        seq![c]
    } else if (s[0] as u32) < (c as u32) {
        seq![s[0]] + insert_char(c, s.drop_first())
    } else if s[0] == c {
        s
    } else {
        seq![c] + s
    }
}

proof fn lemma_insert_char_props(c: char, s: Seq<char>)
    requires
        char_sorted(s),
    ensures
        char_sorted(insert_char(c, s)),
        forall|d: char|
            #![trigger insert_char(c, s).contains(d)]
            insert_char(c, s).contains(d) <==> s.contains(d) || d == c,
    decreases s.len(),
{
    let r = insert_char(c, s);
    if s.len() == 0 {
        assert(r =~= seq![c]);
        assert forall|d: char| r.contains(d) <==> s.contains(d) || d == c by {
            if r.contains(d) {
                assert(r[0] == c);
            }
            if d == c {
                assert(r[0] == c);
                assert(r.contains(c));
            }
        }
    } else if (s[0] as u32) < (c as u32) {
        assert(char_sorted(s.drop_first())) by {
            assert(forall|j: int, k: int|
                0 <= j < k < s.drop_first().len() ==> s.drop_first()[j] == s[j + 1]
                    && s.drop_first()[k] == s[k + 1]);
        }
        lemma_insert_char_props(c, s.drop_first());
        let rr = insert_char(c, s.drop_first());
        assert(r =~= seq![s[0]] + rr);
        assert forall|j: int, k: int|
            0 <= j < k < r.len() implies (r[j] as u32) < (r[k] as u32) by {
            if j == 0 {
                assert(r[k] == rr[k - 1]);
                assert(rr.contains(rr[k - 1]));
                if s.drop_first().contains(rr[k - 1]) {
                    let m = choose|m: int|
                        0 <= m < s.drop_first().len() && s.drop_first()[m] == rr[k - 1];
                    assert(s[m + 1] == rr[k - 1]);
                } else {
                    assert(rr[k - 1] == c);
                }
            } else {
                assert(r[j] == rr[j - 1] && r[k] == rr[k - 1]);
            }
        }
        assert forall|d: char| r.contains(d) <==> s.contains(d) || d == c by {
            lemma_head_contains(s, d);
            lemma_head_contains(r, d);
            assert(r[0] == s[0]);
            assert(r.drop_first() =~= rr);
        }
    } else if s[0] == c {
        assert(s.contains(c)) by {
            assert(s[0] == c);
        }
    } else {
        vstd::utf8::char_u32_cast(s[0], s[0] as u32);
        vstd::utf8::char_u32_cast(c, c as u32);
        assert((c as u32) < (s[0] as u32));
        assert(r =~= seq![c] + s);
        assert forall|j: int, k: int|
            0 <= j < k < r.len() implies (r[j] as u32) < (r[k] as u32) by {
            if j == 0 {
                assert(r[k] == s[k - 1]);
                if k - 1 > 0 {
                    assert((s[0] as u32) < (s[k - 1] as u32));
                }
            } else {
                assert(r[j] == s[j - 1] && r[k] == s[k - 1]);
            }
        }
        assert forall|d: char| r.contains(d) <==> s.contains(d) || d == c by {
            lemma_head_contains(r, d);
            assert(r[0] == c);
            assert(r.drop_first() =~= s);
        }
    }
}

fn insert_char_sorted(acc: &mut Vec<char>, val: char)
    requires
        char_sorted(old(acc)@),
    ensures
        final(acc)@ == insert_char(val, old(acc)@),
        char_sorted(final(acc)@),
{
    let ghost s = acc@;
    let mut k: usize = 0;
    while k < acc.len() && (acc[k] as u32) < (val as u32)
        invariant
            k <= acc@.len(),
            s == acc@,
            *acc == *old(acc),
            forall|j: int| 0 <= j < k ==> (#[trigger] s[j] as u32) < (val as u32),
        decreases acc@.len() - k,
    {
        k = k + 1;
    }
    proof {
        lemma_insert_char_at(val, s, k as int);
        lemma_insert_char_props(val, s);
    }
    if k < acc.len() && acc[k] == val {
        return ;
    }
    acc.insert(k, val);
}

/// Which of the two string facets is collected.
pub ghost enum FacetKind {
    Contexts,
    Projects,
}

/// The tags of a task under one facet.
pub open spec fn tags_in(k: FacetKind, t: TaskView) -> Seq<Seq<char>> {
    match k {
        FacetKind::Contexts => t.contexts,
        FacetKind::Projects => t.projects,
    }
}

/// All of `tags` inserted into `acc`, left to right.
pub open spec fn insert_tags(tags: Seq<Seq<char>>, acc: Seq<Seq<char>>) -> Seq<Seq<char>>
    decreases tags.len(),
{
    if tags.len() == 0 {
        acc
    } else {
        insert_tags(tags.drop_first(), insert_lex(tags[0], acc))
    }
}

proof fn lemma_insert_tags_snoc(tags: Seq<Seq<char>>, x: Seq<char>, acc: Seq<Seq<char>>)
    ensures
        insert_tags(tags.push(x), acc) == insert_lex(x, insert_tags(tags, acc)),
    decreases tags.len(),
{
    if tags.len() == 0 {
        assert(tags.push(x)[0] == x);
        assert(tags.push(x).drop_first() =~= Seq::<Seq<char>>::empty());
        assert(insert_tags(tags.push(x), acc) == insert_tags(
            tags.push(x).drop_first(),
            insert_lex(x, acc),
        ));
        assert(insert_tags(tags.push(x).drop_first(), insert_lex(x, acc)) == insert_lex(x, acc));
    } else {
        assert(tags.push(x)[0] == tags[0]);
        assert(tags.push(x).drop_first() =~= tags.drop_first().push(x));
        assert(insert_tags(tags.push(x), acc) == insert_tags(
            tags.drop_first().push(x),
            insert_lex(tags[0], acc),
        ));
        lemma_insert_tags_snoc(tags.drop_first(), x, insert_lex(tags[0], acc));
        assert(insert_tags(tags, acc) == insert_tags(tags.drop_first(), insert_lex(tags[0], acc)));
    }
}

proof fn lemma_insert_tags_props(tags: Seq<Seq<char>>, acc: Seq<Seq<char>>)
    requires
        lex_sorted(acc),
    ensures
        lex_sorted(insert_tags(tags, acc)),
        forall|d: Seq<char>|
            insert_tags(tags, acc).contains(d) <==> acc.contains(d) || tags.contains(d),
    decreases tags.len(),
{
    if tags.len() == 0 {
        assert(forall|d: Seq<char>| !tags.contains(d));
    } else {
        lemma_insert_lex_props(tags[0], acc);
        lemma_insert_tags_props(tags.drop_first(), insert_lex(tags[0], acc));
        assert forall|d: Seq<char>|
            insert_tags(tags, acc).contains(d) <==> acc.contains(d) || tags.contains(d) by {
            lemma_head_contains(tags, d);
            assert(insert_tags(tags, acc) == insert_tags(
                tags.drop_first(),
                insert_lex(tags[0], acc),
            ));
            assert(insert_tags(tags.drop_first(), insert_lex(tags[0], acc)).contains(d)
                <==> insert_lex(tags[0], acc).contains(d) || tags.drop_first().contains(d));
            assert(insert_lex(tags[0], acc).contains(d) <==> acc.contains(d) || d == tags[0]);
        }
    }
}

/// The distinct facet values of a task collection, in ascending
/// written order: tasks in order, each passing task's tags inserted in
/// order.
pub open spec fn sorted_facet(k: FacetKind, ts: Seq<TaskView>, inc: bool) -> Seq<Seq<char>>
    decreases ts.len(),
{
    if ts.len() == 0 {
        Seq::empty()
    } else {
        let acc = sorted_facet(k, ts.drop_last(), inc);
        if inc || !ts.last().completed {
            insert_tags(tags_in(k, ts.last()), acc)
        } else {
            acc
        }
    }
}

/// What the collected facet list is: strictly ascending, and holding
/// exactly the values carried by some task the completed-visibility
/// flag admits.
pub proof fn lemma_sorted_facet_props(k: FacetKind, ts: Seq<TaskView>, inc: bool)
    ensures
        lex_sorted(sorted_facet(k, ts, inc)),
        forall|c: Seq<char>|
            sorted_facet(k, ts, inc).contains(c) <==> exists|i: int|
                0 <= i < ts.len() && (inc || !ts[i].completed) && (#[trigger] tags_in(
                    k,
                    ts[i],
                )).contains(c),
    decreases ts.len(),
{
    if ts.len() == 0 {
    } else {
        lemma_sorted_facet_props(k, ts.drop_last(), inc);
        let acc = sorted_facet(k, ts.drop_last(), inc);
        if inc || !ts.last().completed {
            lemma_insert_tags_props(tags_in(k, ts.last()), acc);
        }
        let r = sorted_facet(k, ts, inc);
        assert forall|c: Seq<char>|
            r.contains(c) <==> exists|i: int|
                0 <= i < ts.len() && (inc || !ts[i].completed) && (#[trigger] tags_in(
                    k,
                    ts[i],
                )).contains(c) by {
            if r.contains(c) {
                if acc.contains(c) {
                    let i = choose|i: int|
                        0 <= i < ts.drop_last().len() && (inc || !ts.drop_last()[i].completed) && (
                        #[trigger] tags_in(k, ts.drop_last()[i])).contains(c);
                    assert(ts[i] == ts.drop_last()[i]);
                    assert(0 <= i < ts.len() && (inc || !ts[i].completed) && tags_in(
                        k,
                        ts[i],
                    ).contains(c));
                } else {
                    assert((inc || !ts.last().completed) && tags_in(k, ts.last()).contains(c));
                    assert(ts[ts.len() - 1] == ts.last());
                }
            }
            if exists|i: int|
                0 <= i < ts.len() && (inc || !ts[i].completed) && (#[trigger] tags_in(
                    k,
                    ts[i],
                )).contains(c) {
                let i = choose|i: int|
                    0 <= i < ts.len() && (inc || !ts[i].completed) && (#[trigger] tags_in(
                        k,
                        ts[i],
                    )).contains(c);
                if i < ts.len() - 1 {
                    assert(ts.drop_last()[i] == ts[i]);
                    assert(acc.contains(c));
                } else {
                    assert(ts.last() == ts[i]);
                }
                assert(r.contains(c));
            }
        }
    }
}

/// The distinct priorities of a task collection, in ascending
/// character order.
pub open spec fn sorted_priorities(ts: Seq<TaskView>, inc: bool) -> Seq<char>
    decreases ts.len(),
{
    if ts.len() == 0 {
        Seq::empty()
    } else {
        let acc = sorted_priorities(ts.drop_last(), inc);
        if (inc || !ts.last().completed) && ts.last().priority is Some {
            insert_char(ts.last().priority->0, acc)
        } else {
            acc
        }
    }
}

/// What the collected priority list is: strictly ascending, and
/// holding exactly the priorities carried by some admitted task.
pub proof fn lemma_sorted_priorities_props(ts: Seq<TaskView>, inc: bool)
    ensures
        char_sorted(sorted_priorities(ts, inc)),
        forall|p: char|
            sorted_priorities(ts, inc).contains(p) <==> exists|i: int|
                0 <= i < ts.len() && (inc || !(#[trigger] ts[i]).completed) && ts[i].priority
                    == Some(p),
    decreases ts.len(),
{
    if ts.len() == 0 {
    } else {
        lemma_sorted_priorities_props(ts.drop_last(), inc);
        let acc = sorted_priorities(ts.drop_last(), inc);
        if (inc || !ts.last().completed) && ts.last().priority is Some {
            lemma_insert_char_props(ts.last().priority->0, acc);
        }
        let r = sorted_priorities(ts, inc);
        assert forall|p: char|
            r.contains(p) <==> exists|i: int|
                0 <= i < ts.len() && (inc || !(#[trigger] ts[i]).completed) && ts[i].priority
                    == Some(p) by {
            if r.contains(p) {
                if acc.contains(p) {
                    let i = choose|i: int|
                        0 <= i < ts.drop_last().len() && (inc || !(#[trigger] ts.drop_last()[i]).completed)
                            && ts.drop_last()[i].priority == Some(p);
                    assert(ts[i] == ts.drop_last()[i]);
                    assert((inc || !ts[i].completed) && ts[i].priority == Some(p));
                } else {
                    assert(ts[ts.len() - 1] == ts.last());
                }
            }
            if exists|i: int|
                0 <= i < ts.len() && (inc || !(#[trigger] ts[i]).completed) && ts[i].priority
                    == Some(p) {
                let i = choose|i: int|
                    0 <= i < ts.len() && (inc || !(#[trigger] ts[i]).completed) && ts[i].priority
                        == Some(p);
                if i < ts.len() - 1 {
                    assert(ts.drop_last()[i] == ts[i]);
                    assert(acc.contains(p));
                    if (inc || !ts.last().completed) && ts.last().priority is Some {
                        let cc = ts.last().priority->0;
                        assert(r == insert_char(cc, acc));
                        assert(insert_char(cc, acc).contains(p) <==> acc.contains(p) || p == cc);
                    } else {
                        assert(r == acc);
                    }
                } else {
                    assert(ts.last() == ts[i]);
                    assert(ts.last().priority == Some(p));
                    let cc = ts.last().priority->0;
                    assert(cc == p);
                    assert(r == insert_char(cc, acc));
                    assert(insert_char(cc, acc).contains(p) <==> acc.contains(p) || p == cc);
                }
                assert(r.contains(p));
            }
        }
    }
}

fn collect_string_facet(tasks: &[Task], include_completed: bool, use_projects: bool) -> (r: Vec<
    String,
>)
    ensures
        strings_of(r@) == sorted_facet(
            if use_projects {
                FacetKind::Projects
            } else {
                FacetKind::Contexts
            },
            views_of(tasks@),
            include_completed,
        ),
        lex_sorted(strings_of(r@)),
{
    let ghost k = if use_projects {
        FacetKind::Projects
    } else {
        FacetKind::Contexts
    };
    let ghost ts = views_of(tasks@);
    let mut acc: Vec<String> = Vec::new();
    let mut i: usize = 0;
    proof {
        assert(ts.subrange(0, 0) =~= Seq::<TaskView>::empty());
        assert(strings_of(acc@) =~= sorted_facet(k, ts.subrange(0, 0), include_completed));
    }
    while i < tasks.len()
        invariant
            i <= tasks@.len(),
            ts == views_of(tasks@),
            ts.len() == tasks@.len(),
            k == (if use_projects {
                FacetKind::Projects
            } else {
                FacetKind::Contexts
            }),
            strings_of(acc@) == sorted_facet(k, ts.subrange(0, i as int), include_completed),
            lex_sorted(strings_of(acc@)),
        decreases tasks@.len() - i,
    {
        proof {
            assert(ts.subrange(0, i as int + 1).drop_last() =~= ts.subrange(0, i as int));
            assert(ts.subrange(0, i as int + 1).last() == ts[i as int]);
            assert(ts[i as int] == tasks@[i as int]@);
        }
        let task = &tasks[i];
        if include_completed || !task.completed {
            let tags = if use_projects {
                &task.projects
            } else {
                &task.contexts
            };
            let ghost tagviews = tags_in(k, ts[i as int]);
            proof {
                assert(tags.deep_view() =~= tagviews);
            }
            let ghost start = strings_of(acc@);
            let mut j: usize = 0;
            proof {
                assert(tagviews.subrange(0, 0) =~= Seq::<Seq<char>>::empty());
                assert(insert_tags(tagviews.subrange(0, 0), start) == start);
            }
            while j < tags.len()
                invariant
                    j <= tags@.len(),
                    tagviews == tags.deep_view(),
                    tagviews.len() == tags@.len(),
                    strings_of(acc@) == insert_tags(tagviews.subrange(0, j as int), start),
                    lex_sorted(strings_of(acc@)),
                decreases tags@.len() - j,
            {
                proof {
                    assert(tagviews.subrange(0, j as int + 1) =~= tagviews.subrange(
                        0,
                        j as int,
                    ).push(tagviews[j as int]));
                    lemma_insert_tags_snoc(tagviews.subrange(0, j as int), tagviews[j as int], start);
                    assert(tags.deep_view()[j as int] == tags@[j as int]@);
                }
                insert_string_sorted(&mut acc, &tags[j]);
                j = j + 1;
            }
            proof {
                assert(tagviews.subrange(0, tagviews.len() as int) =~= tagviews);
            }
        }
        i = i + 1;
    }
    proof {
        assert(ts.subrange(0, ts.len() as int) =~= ts);
    }
    acc
}

/// The distinct contexts of `tasks`, ascending; completed tasks are
/// skipped unless asked for.
pub fn collect_contexts(tasks: &[Task], include_completed: bool) -> (r: Vec<String>)
    ensures
        strings_of(r@) == sorted_facet(FacetKind::Contexts, views_of(tasks@), include_completed),
        lex_sorted(strings_of(r@)),
{
    collect_string_facet(tasks, include_completed, false)
}

/// The distinct projects of `tasks`, ascending; completed tasks are
/// skipped unless asked for.
pub fn collect_projects(tasks: &[Task], include_completed: bool) -> (r: Vec<String>)
    ensures
        strings_of(r@) == sorted_facet(FacetKind::Projects, views_of(tasks@), include_completed),
        lex_sorted(strings_of(r@)),
{
    collect_string_facet(tasks, include_completed, true)
}

/// The distinct priorities of `tasks`, ascending; completed tasks are
/// skipped unless asked for.
pub fn collect_priorities(tasks: &[Task], include_completed: bool) -> (r: Vec<char>)
    ensures
        r@ == sorted_priorities(views_of(tasks@), include_completed),
        char_sorted(r@),
{
    let ghost ts = views_of(tasks@);
    let mut acc: Vec<char> = Vec::new();
    let mut i: usize = 0;
    proof {
        assert(ts.subrange(0, 0) =~= Seq::<TaskView>::empty());
        assert(acc@ =~= sorted_priorities(ts.subrange(0, 0), include_completed));
    }
    while i < tasks.len()
        invariant
            i <= tasks@.len(),
            ts == views_of(tasks@),
            ts.len() == tasks@.len(),
            acc@ == sorted_priorities(ts.subrange(0, i as int), include_completed),
            char_sorted(acc@),
        decreases tasks@.len() - i,
    {
        proof {
            assert(ts.subrange(0, i as int + 1).drop_last() =~= ts.subrange(0, i as int));
            assert(ts.subrange(0, i as int + 1).last() == ts[i as int]);
            assert(ts[i as int] == tasks@[i as int]@);
        }
        let task = &tasks[i];
        if include_completed || !task.completed {
            if let Some(p) = task.priority {
                insert_char_sorted(&mut acc, p);
            }
        }
        i = i + 1;
    }
    proof {
        assert(ts.subrange(0, ts.len() as int) =~= ts);
    }
    acc
}

/// How many distinct contexts the admitted tasks carry.
pub fn num_contexts(tasks: &[Task], include_completed: bool) -> (r: usize)
    ensures
        r == sorted_facet(FacetKind::Contexts, views_of(tasks@), include_completed).len(),
{
    collect_contexts(tasks, include_completed).len()
}

/// How many distinct projects the admitted tasks carry.
pub fn num_projects(tasks: &[Task], include_completed: bool) -> (r: usize)
    ensures
        r == sorted_facet(FacetKind::Projects, views_of(tasks@), include_completed).len(),
{
    collect_projects(tasks, include_completed).len()
}

/// How many distinct priorities the admitted tasks carry.
pub fn num_priorities(tasks: &[Task], include_completed: bool) -> (r: usize)
    ensures
        r == sorted_priorities(views_of(tasks@), include_completed).len(),
{
    collect_priorities(tasks, include_completed).len()
}

/// The tasks surviving one membership test, in order.
pub open spec fn kept_views(ts: Seq<TaskView>, p: TaskPred) -> Seq<TaskView>
    decreases ts.len(),
{
    if ts.len() == 0 {
        Seq::empty()
    } else {
        let r = kept_views(ts.drop_last(), p);
        if eval_pred(p, ts.last()) {
            r.push(ts.last())
        } else {
            r
        }
    }
}

fn keep_matching(tasks: &[Task], test: &FacetTest) -> (r: Vec<Task>)
    ensures
        views_of(r@) == kept_views(views_of(tasks@), test.view()),
{
    let ghost ts = views_of(tasks@);
    let mut kept: Vec<Task> = Vec::new();
    let mut i: usize = 0;
    proof {
        assert(ts.subrange(0, 0) =~= Seq::<TaskView>::empty());
        assert(views_of(kept@) =~= kept_views(ts.subrange(0, 0), test.view()));
    }
    while i < tasks.len()
        invariant
            i <= tasks@.len(),
            ts == views_of(tasks@),
            ts.len() == tasks@.len(),
            views_of(kept@) == kept_views(ts.subrange(0, i as int), test.view()),
        decreases tasks@.len() - i,
    {
        proof {
            assert(ts.subrange(0, i as int + 1).drop_last() =~= ts.subrange(0, i as int));
            assert(ts.subrange(0, i as int + 1).last() == ts[i as int]);
            assert(ts[i as int] == tasks@[i as int]@);
        }
        let ghost before = views_of(kept@);
        if test.passes(&tasks[i]) {
            kept.push(tasks[i].clone());
            proof {
                assert(views_of(kept@) =~= before.push(ts[i as int]));
            }
        }
        i = i + 1;
    }
    proof {
        assert(ts.subrange(0, ts.len() as int) =~= ts);
    }
    kept
}

/// The tasks themselves, or only the incomplete ones.
pub fn include_completed(tasks: &[Task], keep_completed: bool) -> (r: Vec<Task>)
    ensures
        views_of(r@) == (if keep_completed {
            views_of(tasks@)
        } else {
            kept_views(views_of(tasks@), TaskPred::OmitCompleted)
        }),
{
    if keep_completed {
        let mut all: Vec<Task> = Vec::new();
        let mut i: usize = 0;
        while i < tasks.len()
            invariant
                i <= tasks@.len(),
                all@.len() == i,
                forall|j: int| 0 <= j < i ==> (#[trigger] all@[j])@ == tasks@[j]@,
            decreases tasks@.len() - i,
        {
            all.push(tasks[i].clone());
            i = i + 1;
        }
        proof {
            assert(views_of(all@) =~= views_of(tasks@));
        }
        all
    } else {
        keep_matching(tasks, &FacetTest::Incomplete)
    }
}

/// The tasks carrying the given context, in order.
pub fn with_context(tasks: &[Task], context: &str) -> (r: Vec<Task>)
    ensures
        views_of(r@) == kept_views(views_of(tasks@), TaskPred::HasContext(context@)),
{
    keep_matching(tasks, &FacetTest::Context(context.to_owned()))
}

/// The tasks carrying the given project, in order.
pub fn with_project(tasks: &[Task], project: &str) -> (r: Vec<Task>)
    ensures
        views_of(r@) == kept_views(views_of(tasks@), TaskPred::HasProject(project@)),
{
    keep_matching(tasks, &FacetTest::Project(project.to_owned()))
}

/// The tasks of the given priority, in order.
pub fn with_priority(tasks: &[Task], priority: char) -> (r: Vec<Task>)
    ensures
        views_of(r@) == kept_views(views_of(tasks@), TaskPred::HasPriority(priority)),
{
    keep_matching(tasks, &FacetTest::Priority(priority))
}

proof fn lemma_filter_pair_elems(ts: Seq<TaskView>, idx: Seq<usize>, p: TaskPred)
    requires
        ts.len() == idx.len(),
    ensures
        ({
            let (rt, ri) = filter_pair(ts, idx, p);
            rt.len() == ri.len() && forall|j: int|
                0 <= j < rt.len() ==> eval_pred(p, #[trigger] rt[j])
        }),
    decreases ts.len(),
{
    if ts.len() == 0 {
    } else {
        lemma_filter_pair_elems(ts.drop_last(), idx.drop_last(), p);
    }
}

proof fn lemma_filter_pair_all_pass(ts: Seq<TaskView>, idx: Seq<usize>, p: TaskPred)
    requires
        ts.len() == idx.len(),
        forall|j: int| 0 <= j < ts.len() ==> eval_pred(p, #[trigger] ts[j]),
    ensures
        filter_pair(ts, idx, p) == (ts, idx),
    decreases ts.len(),
{
    if ts.len() == 0 {
        assert(filter_pair(ts, idx, p).0 =~= ts);
        assert(filter_pair(ts, idx, p).1 =~= idx);
    } else {
        assert(forall|j: int|
            0 <= j < ts.drop_last().len() ==> #[trigger] ts.drop_last()[j] == ts[j]);
        lemma_filter_pair_all_pass(ts.drop_last(), idx.drop_last(), p);
        assert(eval_pred(p, ts.last()));
        assert(filter_pair(ts, idx, p).0 =~= ts.drop_last().push(ts.last()));
        assert(ts.drop_last().push(ts.last()) =~= ts);
        assert(filter_pair(ts, idx, p).1 =~= idx.drop_last().push(idx.last()));
        assert(idx.drop_last().push(idx.last()) =~= idx);
    }
}

/// Of a chain of completed-exclusions only the strongest matters:
/// excluding completed tasks a second time changes nothing, and a
/// `false` flag is the identity by `without_completed`'s contract.  A
/// fresh filter's outcome therefore depends on the flag it is given,
/// not on any history of flags.
pub proof fn lemma_omit_completed_idempotent(ts: Seq<TaskView>, idx: Seq<usize>)
    requires
        ts.len() == idx.len(),
    ensures
        ({
            let (t1, i1) = filter_pair(ts, idx, TaskPred::OmitCompleted);
            filter_pair(t1, i1, TaskPred::OmitCompleted) == (t1, i1)
        }),
{
    let (t1, i1) = filter_pair(ts, idx, TaskPred::OmitCompleted);
    lemma_filter_pair_elems(ts, idx, TaskPred::OmitCompleted);
    lemma_filter_pair_all_pass(t1, i1, TaskPred::OmitCompleted);
}

proof fn lemma_insert_char_at(c: char, s: Seq<char>, k: int)
    requires
        0 <= k <= s.len(),
        forall|j: int| 0 <= j < k ==> (#[trigger] s[j] as u32) < (c as u32),
        k == s.len() || !((s[k] as u32) < (c as u32)),
    ensures
        insert_char(c, s) == if k < s.len() && s[k] == c {
            s
        } else {
            s.take(k) + seq![c] + s.skip(k)
        },
    decreases s.len(),
{
    if s.len() == 0 {
        assert(insert_char(c, s) =~= s.take(0) + seq![c] + s.skip(0));
    } else if k == 0 {
        if s[0] == c {
        } else {
            assert(insert_char(c, s) =~= s.take(0) + seq![c] + s.skip(0));
        }
    } else {
        assert((s[0] as u32) < (c as u32));
        assert(forall|j: int| 0 <= j < k - 1 ==> s.drop_first()[j] == s[j + 1]);
        lemma_insert_char_at(c, s.drop_first(), k - 1);
        if k < s.len() && s[k] == c {
            assert(s.drop_first()[k - 1] == c);
            assert(insert_char(c, s) =~= seq![s[0]] + s.drop_first());
            assert(insert_char(c, s) =~= s);
        } else {
            assert(s.drop_first().take(k - 1) =~= s.subrange(1, k));
            assert(s.drop_first().skip(k - 1) =~= s.skip(k));
            assert(insert_char(c, s) =~= seq![s[0]] + (s.subrange(1, k) + seq![c] + s.skip(k)));
            assert(insert_char(c, s) =~= s.take(k) + seq![c] + s.skip(k));
        }
    }
}

} // verus!
