use vstd::prelude::*;
use crate::date::{Date, date_chars, date_lt, push_date_chars};
use crate::text::{
    lex_lt, lemma_lex_lt_total, lemma_lex_lt_trans, push_char, str_chars,
    string_from_chars, tokenize, tokens,
};

verus! {

/// The mathematical image of a task: its five ordered fields plus the
/// tag sequences derived from the description.
#[verifier::ext_equal]
pub ghost struct TaskView {
    pub completed: bool,
    pub priority: Option<char>,
    pub date_completed: Option<Date>,
    pub date_created: Option<Date>,
    pub description: Seq<char>,
    pub contexts: Seq<Seq<char>>,
    pub projects: Seq<Seq<char>>,
}

/// One line of a todo.txt list: an optional completion marker,
/// priority and dates, a free-form description, and the `@context` /
/// `+project` tags found in the description.
#[derive(Debug, PartialEq, Eq)]
pub struct Task {
    pub completed: bool,
    pub priority: Option<char>,
    pub date_completed: Option<Date>,
    pub date_created: Option<Date>,
    pub description: String,
    pub contexts: Vec<String>,
    pub projects: Vec<String>,
}

impl View for Task {
    type V = TaskView;

    open spec fn view(&self) -> TaskView {
        TaskView {
            completed: self.completed,
            priority: self.priority,
            date_completed: self.date_completed,
            date_created: self.date_created,
            description: self.description@,
            contexts: self.contexts.deep_view(),
            projects: self.projects.deep_view(),
        }
    }
}

impl DeepView for Task {
    type V = TaskView;

    open spec fn deep_view(&self) -> TaskView {
        self.view()
    }
}

/// The tags of a description carrying the given sigil: every
/// whitespace-delimited word beginning with it, sigil stripped,
/// duplicates kept, in order of appearance.
pub open spec fn tag_pred(sigil: char) -> spec_fn(Seq<char>) -> bool {
    |t: Seq<char>| t.len() > 0 && t[0] == sigil
}

pub open spec fn strip_sigil() -> spec_fn(Seq<char>) -> Seq<char> {
    |t: Seq<char>| t.drop_first()
}

pub open spec fn tags_of(desc: Seq<char>, sigil: char) -> Seq<Seq<char>> {
    tokens(desc).filter(tag_pred(sigil)).map_values(strip_sigil())
}

pub open spec fn opt_date_wf(d: Option<Date>) -> bool {
    match d {
        Some(d) => d.wf(),
        None => true,
    }
}

/// An uppercase ASCII letter, the only admissible priority.
pub open spec fn is_upper(c: char) -> bool {
    65 <= c as u32 <= 90
}

impl TaskView {
    /// A task as normal construction produces it: priority an
    /// uppercase letter, dates real calendar dates, and the tag
    /// sequences exactly those derived from the description.
    pub open spec fn wf(self) -> bool {
        &&& match self.priority {
            Some(p) => is_upper(p),
            None => true,
        }
        &&& opt_date_wf(self.date_completed)
        &&& opt_date_wf(self.date_created)
        &&& self.contexts == tags_of(self.description, '@')
        &&& self.projects == tags_of(self.description, '+')
    }

    /// Dates alone are real calendar dates; enough to render.
    pub open spec fn dates_wf(self) -> bool {
        opt_date_wf(self.date_completed) && opt_date_wf(self.date_created)
    }
}

/// The canonical written form of a task: `x`, `(P)`, the completion
/// date, the creation date — each present field followed by one space —
/// then the description verbatim.
pub open spec fn spec_render(t: TaskView) -> Seq<char> {
    (if t.completed {
        seq!['x', ' ']
    } else {
        Seq::empty()
    }) + (match t.priority {
        Some(p) => seq!['(', p, ')', ' '],
        None => Seq::empty(),
    }) + (match t.date_completed {
        Some(d) => date_chars(d) + seq![' '],
        None => Seq::empty(),
    }) + (match t.date_created {
        Some(d) => date_chars(d) + seq![' '],
        None => Seq::empty(),
    }) + t.description
}

impl Task {
    /// The task with no fields set.
    pub fn empty() -> (r: Task)
        ensures
            r@ == (TaskView {
                completed: false,
                priority: None::<char>,
                date_completed: None::<Date>,
                date_created: None::<Date>,
                description: Seq::<char>::empty(),
                contexts: Seq::<Seq<char>>::empty(),
                projects: Seq::<Seq<char>>::empty(),
            }),
            r@.wf(),
    {
        let r = Task {
            completed: false,
            priority: None,
            date_completed: None,
            date_created: None,
            description: String::new(),
            contexts: Vec::new(),
            projects: Vec::new(),
        };
        proof {
            assert(r.contexts.deep_view() =~= Seq::<Seq<char>>::empty());
            assert(r.projects.deep_view() =~= Seq::<Seq<char>>::empty());
            lemma_tags_of_empty();
        }
        r
    }

    pub fn description(&self) -> (r: &str)
        ensures
            r@ == self.description@,
    {
        self.description.as_str()
    }

    pub fn contexts(&self) -> (r: &Vec<String>)
        ensures
            r == &self.contexts,
    {
        &self.contexts
    }

    pub fn projects(&self) -> (r: &Vec<String>)
        ensures
            r == &self.projects,
    {
        &self.projects
    }

    /// Replaces the description and appends the tags found in it to
    /// the task's tag sequences.
    pub fn set_description(&mut self, description: &str)
        ensures
            final(self)@ == (TaskView {
                description: description@,
                contexts: old(self)@.contexts + tags_of(description@, '@'),
                projects: old(self)@.projects + tags_of(description@, '+'),
                ..old(self)@
            }),
    {
        self.description = description.to_owned();
        let cs = str_chars(description);
        let toks = tokenize(&cs);
        let ghost all = toks.deep_view();
        let mut i: usize = 0;
        proof {
            assert(all.subrange(0, 0).filter(tag_pred('@')) =~= Seq::<Seq<char>>::empty());
            assert(all.subrange(0, 0).filter(tag_pred('+')) =~= Seq::<Seq<char>>::empty());
            assert(self.contexts.deep_view() =~= old(self)@.contexts + prefix_tags(all, 0, '@'));
            assert(self.projects.deep_view() =~= old(self)@.projects + prefix_tags(all, 0, '+'));
        }
        while i < toks.len()
            invariant
                i <= toks@.len(),
                all == toks.deep_view(),
                all.len() == toks@.len(),
                self.completed == old(self).completed,
                self.priority == old(self).priority,
                self.date_completed == old(self).date_completed,
                self.date_created == old(self).date_created,
                self.description@ == description@,
                self.contexts.deep_view() == old(self)@.contexts + prefix_tags(all, i as int, '@'),
                self.projects.deep_view() == old(self)@.projects + prefix_tags(all, i as int, '+'),
            decreases toks@.len() - i,
        {
            let tok = &toks[i];
            proof {
                assert(tok.deep_view() =~= tok@);
                assert(all[i as int] == tok@);
                lemma_prefix_tags_step(all, i as int, '@');
                lemma_prefix_tags_step(all, i as int, '+');
            }
            if tok.len() > 0 && tok[0] == '@' {
                let tag = string_from_chars(tok, 1);
                proof {
                    assert(tag@ =~= tok@.drop_first());
                }
                let ghost before = self.contexts.deep_view();
                self.contexts.push(tag);
                proof {
                    assert(self.contexts.deep_view() =~~= before.push(tok@.drop_first()));
                }
            } else if tok.len() > 0 && tok[0] == '+' {
                let tag = string_from_chars(tok, 1);
                proof {
                    assert(tag@ =~= tok@.drop_first());
                }
                let ghost before = self.projects.deep_view();
                self.projects.push(tag);
                proof {
                    assert(self.projects.deep_view() =~~= before.push(tok@.drop_first()));
                }
            }
            i = i + 1;
        }
        proof {
            assert(all.subrange(0, all.len() as int) =~= all);
            assert(final(self)@.contexts =~~= old(self)@.contexts + tags_of(description@, '@'));
            assert(final(self)@.projects =~~= old(self)@.projects + tags_of(description@, '+'));
        }
    }

    /// The canonical written form, suitable for display, persistence,
    /// and reparsing.
    pub fn render(&self) -> (r: String)
        requires
            self@.dates_wf(),
        ensures
            r@ == spec_render(self@),
    {
        let mut r = String::new();
        if self.completed {
            push_char(&mut r, 'x');
            push_char(&mut r, ' ');
        }
        if let Some(p) = self.priority {
            push_char(&mut r, '(');
            push_char(&mut r, p);
            push_char(&mut r, ')');
            push_char(&mut r, ' ');
        }
        if let Some(d) = &self.date_completed {
            push_date_chars(&mut r, d);
            push_char(&mut r, ' ');
        }
        if let Some(d) = &self.date_created {
            push_date_chars(&mut r, d);
            push_char(&mut r, ' ');
        }
        r.append(self.description.as_str());
        proof {
            assert(r@ =~= spec_render(self@));
        }
        r
    }
}

/// Tags with the given sigil among the first `i` tokens.
pub open spec fn prefix_tags(all: Seq<Seq<char>>, i: int, sigil: char) -> Seq<Seq<char>> {
    all.subrange(0, i).filter(tag_pred(sigil)).map_values(strip_sigil())
}

proof fn lemma_prefix_tags_step(all: Seq<Seq<char>>, i: int, sigil: char)
    requires
        0 <= i < all.len(),
    ensures
        prefix_tags(all, i + 1, sigil) == if all[i].len() > 0 && all[i][0] == sigil {
            prefix_tags(all, i, sigil).push(all[i].drop_first())
        } else {
            prefix_tags(all, i, sigil)
        },
{
    let pred = tag_pred(sigil);
    let f = strip_sigil();
    let pre = all.subrange(0, i);
    assert(all.subrange(0, i + 1) =~= pre.push(all[i]));
    pre.lemma_filter_push(all[i], pred);
    assert(prefix_tags(all, i + 1, sigil) == pre.push(all[i]).filter(pred).map_values(f));
    assert(prefix_tags(all, i, sigil) == pre.filter(pred).map_values(f));
    if pred(all[i]) {
        assert(pre.push(all[i]).filter(pred) == pre.filter(pred).push(all[i]));
        assert(pre.filter(pred).push(all[i]).map_values(f) =~= pre.filter(pred).map_values(f).push(
            f(all[i]),
        ));
        assert(f(all[i]) == all[i].drop_first());
        assert(all[i].len() > 0 && all[i][0] == sigil);
    } else {
        assert(pre.push(all[i]).filter(pred) == pre.filter(pred));
        assert(!(all[i].len() > 0 && all[i][0] == sigil));
    }
}

pub proof fn lemma_tags_of_empty()
    ensures
        tags_of(Seq::<char>::empty(), '@') == Seq::<Seq<char>>::empty(),
        tags_of(Seq::<char>::empty(), '+') == Seq::<Seq<char>>::empty(),
{
    assert(tokens(Seq::<char>::empty()) == Seq::<Seq<char>>::empty());
    assert(tags_of(Seq::<char>::empty(), '@') =~= Seq::<Seq<char>>::empty());
    assert(tags_of(Seq::<char>::empty(), '+') =~= Seq::<Seq<char>>::empty());
}

impl Clone for Task {
    /// A clone carries the same task image.
    fn clone(&self) -> (r: Self)
        ensures
            r@ == self@,
    {
        let r = Task {
            completed: self.completed,
            priority: self.priority,
            date_completed: self.date_completed,
            date_created: self.date_created,
            description: self.description.clone(),
            contexts: self.contexts.clone(),
            projects: self.projects.clone(),
        };
        proof {
            assert(r.contexts.deep_view() =~= self.contexts.deep_view());
            assert(r.projects.deep_view() =~= self.projects.deep_view());
        }
        r
    }
}

/// Equality on the ordered field tuple (completed, priority,
/// completion date, creation date, description).
pub open spec fn key_eq(a: TaskView, b: TaskView) -> bool {
    a.completed == b.completed && a.priority == b.priority && a.date_completed
        == b.date_completed && a.date_created == b.date_created && a.description == b.description
}

/// Order on priorities: letters ascending, and any letter before "no
/// priority".
pub open spec fn prio_lt(a: Option<char>, b: Option<char>) -> bool {
    match (a, b) {
        (Some(x), Some(y)) => (x as u32) < (y as u32),
        (Some(_), None) => true,
        _ => false,
    }
}

/// Order on optional dates: an absent date first, then by date.
pub open spec fn opt_date_lt(a: Option<Date>, b: Option<Date>) -> bool {
    match (a, b) {
        (None, Some(_)) => true,
        (Some(x), Some(y)) => date_lt(x, y),
        _ => false,
    }
}

/// The strict total order of tasks: by the field tuple in declared
/// order — incomplete before completed, then priority, completion
/// date, creation date, and finally the description lexicographically.
pub open spec fn task_lt(a: TaskView, b: TaskView) -> bool {
    if a.completed != b.completed {
        !a.completed
    } else if a.priority != b.priority {
        prio_lt(a.priority, b.priority)
    } else if a.date_completed != b.date_completed {
        opt_date_lt(a.date_completed, b.date_completed)
    } else if a.date_created != b.date_created {
        opt_date_lt(a.date_created, b.date_created)
    } else {
        lex_lt(a.description, b.description)
    }
}

/// Exactly one of `task_lt(a, b)`, `task_lt(b, a)`, `key_eq(a, b)`
/// holds: the order is total on the field tuple.
pub proof fn lemma_task_order_total(a: TaskView, b: TaskView)
    ensures
        task_lt(a, b) || task_lt(b, a) || key_eq(a, b),
        !(task_lt(a, b) && task_lt(b, a)),
        !(task_lt(a, b) && key_eq(a, b)),
        !(task_lt(b, a) && key_eq(a, b)),
{
    lemma_lex_lt_total(a.description, b.description);
    if a.priority != b.priority {
        lemma_opt_char_order(a.priority, b.priority);
    }
}

proof fn lemma_opt_char_order(a: Option<char>, b: Option<char>)
    requires
        a != b,
    ensures
        prio_lt(a, b) || prio_lt(b, a),
        !(prio_lt(a, b) && prio_lt(b, a)),
{
    match (a, b) {
        (Some(x), Some(y)) => {
            if (x as u32) == (y as u32) {
                vstd::utf8::char_u32_cast(x, x as u32);
                vstd::utf8::char_u32_cast(y, y as u32);
            }
        },
        _ => {},
    }
}

/// The task order is transitive.
pub proof fn lemma_task_lt_trans(a: TaskView, b: TaskView, c: TaskView)
    requires
        task_lt(a, b),
        task_lt(b, c),
    ensures
        task_lt(a, c),
{
    if a.completed == b.completed && b.completed == c.completed && a.priority == b.priority
        && b.priority == c.priority && a.date_completed == b.date_completed && b.date_completed
        == c.date_completed && a.date_created == b.date_created && b.date_created
        == c.date_created {
        lemma_lex_lt_trans(a.description, b.description, c.description);
    } else {
        lemma_lex_lt_total(a.description, b.description);
        lemma_lex_lt_total(b.description, c.description);
    }
}

/// Whether `a` strictly precedes `b` in the task total order.
pub fn task_before(a: &Task, b: &Task) -> (r: bool)
    ensures
        r == task_lt(a@, b@),
{
    if a.completed != b.completed {
        return !a.completed;
    }
    let prio_differ = match (a.priority, b.priority) {
        (Some(x), Some(y)) => x != y,
        (None, None) => false,
        _ => true,
    };
    if prio_differ {
        return match (a.priority, b.priority) {
            (Some(x), Some(y)) => (x as u32) < (y as u32),
            (Some(_), None) => true,
            _ => false,
        };
    }
    proof {
        if a.priority is Some && b.priority is Some && a.priority->0 == b.priority->0 {
            assert(a.priority == b.priority);
        }
    }
    let dc_differ = match (&a.date_completed, &b.date_completed) {
        (Some(x), Some(y)) => !date_eq(x, y),
        (None, None) => false,
        _ => true,
    };
    if dc_differ {
        return match (&a.date_completed, &b.date_completed) {
            (None, Some(_)) => true,
            (Some(x), Some(y)) => crate::date::date_before(x, y),
            _ => false,
        };
    }
    let cr_differ = match (&a.date_created, &b.date_created) {
        (Some(x), Some(y)) => !date_eq(x, y),
        (None, None) => false,
        _ => true,
    };
    if cr_differ {
        return match (&a.date_created, &b.date_created) {
            (None, Some(_)) => true,
            (Some(x), Some(y)) => crate::date::date_before(x, y),
            _ => false,
        };
    }
    crate::text::str_lex_lt(&a.description, &b.description)
}

fn date_eq(a: &Date, b: &Date) -> (r: bool)
    ensures
        r == (a == b),
{
    a.year == b.year && a.month == b.month && a.day == b.day
}

/// Insertion of a task into a sorted run: after every strictly smaller
/// task, before everything else — equal tasks keep their order.
pub open spec fn insert_sorted(t: TaskView, s: Seq<TaskView>) -> Seq<TaskView>
    decreases s.len(),
{
    if s.len() == 0 {
        seq![t]
    } else if task_lt(s[0], t) {
        seq![s[0]] + insert_sorted(t, s.drop_first())
    } else {
        seq![t] + s
    }
}

/// The stable sort of a task sequence by the task total order: each
/// element inserted, left to right, into the sorted run of the rest.
pub open spec fn stable_sorted(s: Seq<TaskView>) -> Seq<TaskView>
    decreases s.len(),
{
    if s.len() == 0 {
        Seq::empty()
    } else {
        insert_sorted(s[0], stable_sorted(s.drop_first()))
    }
}

proof fn lemma_insert_sorted_at(t: TaskView, s: Seq<TaskView>, k: int)
    requires
        0 <= k <= s.len(),
        forall|j: int| 0 <= j < k ==> task_lt(#[trigger] s[j], t),
        k == s.len() || !task_lt(s[k], t),
    ensures
        insert_sorted(t, s) == s.subrange(0, k) + seq![t] + s.skip(k),
    decreases s.len(),
{
    if s.len() == 0 {
        assert(insert_sorted(t, s) =~= s.subrange(0, k) + seq![t] + s.skip(k));
    } else if k == 0 {
        assert(!task_lt(s[0], t));
        assert(s.subrange(0, 0) =~= Seq::<TaskView>::empty());
        assert(s.skip(0) =~= s);
        assert(insert_sorted(t, s) =~= s.subrange(0, 0) + seq![t] + s.skip(0));
    } else {
        assert(task_lt(s[0], t));
        assert(forall|j: int| 0 <= j < k - 1 ==> s.drop_first()[j] == s[j + 1]);
        lemma_insert_sorted_at(t, s.drop_first(), k - 1);
        assert(s.drop_first().subrange(0, k - 1) =~= s.subrange(1, k));
        assert(s.drop_first().skip(k - 1) =~= s.skip(k));
        assert(insert_sorted(t, s) =~= seq![s[0]] + (s.subrange(1, k) + seq![t] + s.skip(k)));
        assert(seq![s[0]] + (s.subrange(1, k) + seq![t] + s.skip(k)) =~= s.subrange(0, k)
            + seq![t] + s.skip(k));
    }
}

/// Inserts `t` into the sorted vector `sorted`, after every strictly
/// smaller task.
pub fn insert_task(sorted: &mut Vec<Task>, t: Task)
    ensures
        final(sorted).deep_view() == insert_sorted(t@, old(sorted).deep_view()),
{
    let ghost s = sorted.deep_view();
    let mut k: usize = 0;
    while k < sorted.len() && task_before(&sorted[k], &t)
        invariant
            k <= sorted@.len(),
            s == sorted.deep_view(),
            s.len() == sorted@.len(),
            *sorted == *old(sorted),
            forall|j: int| 0 <= j < k ==> task_lt(#[trigger] s[j], t@),
        decreases sorted@.len() - k,
    {
        proof {
            assert(s[k as int] == sorted@[k as int]@);
        }
        k = k + 1;
    }
    proof {
        assert(k < sorted@.len() ==> !task_lt(s[k as int], t@));
        lemma_insert_sorted_at(t@, s, k as int);
    }
    sorted.insert(k, t);
    proof {
        assert(final(sorted).deep_view() =~~= s.subrange(0, k as int) + seq![t@] + s.skip(
            k as int,
        ));
    }
}


/// Insertion adds exactly one element.
pub proof fn lemma_insert_sorted_len(t: TaskView, s: Seq<TaskView>)
    ensures
        insert_sorted(t, s).len() == s.len() + 1,
    decreases s.len(),
{
    if s.len() == 0 {
    } else if task_lt(s[0], t) {
        lemma_insert_sorted_len(t, s.drop_first());
    }
}

/// Insertion adds exactly the inserted element.
pub proof fn lemma_insert_sorted_contains(t: TaskView, s: Seq<TaskView>)
    ensures
        forall|x: TaskView|
            #![trigger insert_sorted(t, s).contains(x)]
            insert_sorted(t, s).contains(x) <==> s.contains(x) || x == t,
    decreases s.len(),
{
    let r = insert_sorted(t, s);
    if s.len() == 0 {
        assert forall|x: TaskView| r.contains(x) <==> s.contains(x) || x == t by {
            if r.contains(x) {
                assert(r[0] == t);
            }
            if x == t {
                assert(r[0] == t && r.contains(t));
            }
        }
    } else if task_lt(s[0], t) {
        lemma_insert_sorted_contains(t, s.drop_first());
        let rr = insert_sorted(t, s.drop_first());
        assert(r =~= seq![s[0]] + rr);
        assert forall|x: TaskView| r.contains(x) <==> s.contains(x) || x == t by {
            crate::text::lemma_head_contains(s, x);
            crate::text::lemma_head_contains(r, x);
            assert(r[0] == s[0]);
            assert(r.drop_first() =~= rr);
        }
    } else {
        assert(r =~= seq![t] + s);
        assert forall|x: TaskView| r.contains(x) <==> s.contains(x) || x == t by {
            crate::text::lemma_head_contains(r, x);
            assert(r[0] == t);
            assert(r.drop_first() =~= s);
        }
    }
}

/// Never strictly descending under the task total order.
pub open spec fn sorted_by_task_order(s: Seq<TaskView>) -> bool {
    forall|j: int, k: int| 0 <= j < k < s.len() ==> !task_lt(s[k], s[j])
}

proof fn lemma_insert_sorted_sorted(t: TaskView, s: Seq<TaskView>)
    requires
        sorted_by_task_order(s),
    ensures
        sorted_by_task_order(insert_sorted(t, s)),
    decreases s.len(),
{
    let r = insert_sorted(t, s);
    if s.len() == 0 {
    } else if task_lt(s[0], t) {
        assert(sorted_by_task_order(s.drop_first())) by {
            assert(forall|j: int, k: int|
                0 <= j < k < s.drop_first().len() ==> s.drop_first()[j] == s[j + 1]
                    && s.drop_first()[k] == s[k + 1]);
        }
        lemma_insert_sorted_sorted(t, s.drop_first());
        lemma_insert_sorted_contains(t, s.drop_first());
        let rr = insert_sorted(t, s.drop_first());
        assert(r =~= seq![s[0]] + rr);
        assert forall|j: int, k: int| 0 <= j < k < r.len() implies !task_lt(r[k], r[j]) by {
            if j == 0 {
                assert(r[k] == rr[k - 1]);
                assert(rr.contains(rr[k - 1]));
                if s.drop_first().contains(rr[k - 1]) {
                    let m = choose|m: int|
                        0 <= m < s.drop_first().len() && s.drop_first()[m] == rr[k - 1];
                    assert(s[m + 1] == rr[k - 1]);
                    assert(!task_lt(s[m + 1], s[0]));
                } else {
                    assert(rr[k - 1] == t);
                    lemma_task_order_total(s[0], t);
                }
            } else {
                assert(r[j] == rr[j - 1] && r[k] == rr[k - 1]);
            }
        }
    } else {
        assert(r =~= seq![t] + s);
        assert forall|j: int, k: int| 0 <= j < k < r.len() implies !task_lt(r[k], r[j]) by {
            if j == 0 {
                assert(r[k] == s[k - 1]);
                if task_lt(s[k - 1], t) {
                    if k - 1 == 0 {
                    } else {
                        assert(!task_lt(s[k - 1], s[0]));
                        lemma_task_order_total(s[k - 1], s[0]);
                        lemma_task_order_total(s[0], t);
                        if task_lt(s[0], s[k - 1]) {
                            lemma_task_lt_trans(s[0], s[k - 1], t);
                            assert(false);
                        } else {
                            assert(crate::task::key_eq(s[k - 1], s[0]));
                            assert(!task_lt(s[k - 1], t) == !task_lt(s[0], t));
                            assert(false);
                        }
                    }
                }
            } else {
                assert(r[j] == s[j - 1] && r[k] == s[k - 1]);
            }
        }
    }
}

/// The stable sort sorts: its result is ascending under the task total
/// order and holds exactly the elements of its input.
pub proof fn lemma_stable_sorted_sorts(s: Seq<TaskView>)
    ensures
        sorted_by_task_order(stable_sorted(s)),
        stable_sorted(s).len() == s.len(),
        forall|x: TaskView|
            #![trigger stable_sorted(s).contains(x)]
            stable_sorted(s).contains(x) <==> s.contains(x),
    decreases s.len(),
{
    if s.len() == 0 {
    } else {
        lemma_stable_sorted_sorts(s.drop_first());
        let rest = stable_sorted(s.drop_first());
        lemma_insert_sorted_sorted(s[0], rest);
        lemma_insert_sorted_len(s[0], rest);
        lemma_insert_sorted_contains(s[0], rest);
        assert forall|x: TaskView|
            stable_sorted(s).contains(x) <==> s.contains(x) by {
            crate::text::lemma_head_contains(s, x);
        }
    }
}

} // verus!
