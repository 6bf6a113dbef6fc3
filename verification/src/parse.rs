use vstd::prelude::*;
use crate::date::{Date, date_chars, date_of_token, is_date_token, lemma_date_chars_roundtrip, parse_date_token};
use crate::task::{tags_of, is_upper, spec_render, Task, TaskView};
use crate::text::{
    is_ws, join_spaces, join_from, lemma_join_cons, lemma_tokens_chunk, str_chars, tokenize,
    tokens, wordlike,
};

verus! {

/// The one way a line can fail to form a task: it holds no token.
#[derive(Debug, PartialEq, Eq, Structural)]
pub struct ParseTaskError;

/// What a single token means to the line grammar.
#[derive(Clone, Copy, Debug, PartialEq, Eq, Structural)]
pub enum Token {
    Complete,
    Priority(char),
    Date(Date),
    Word,
}

/// The parser's position in the structured prefix of a line.  The
/// states only move forward; `InDescription` is absorbing.
#[derive(Clone, Copy, Debug, PartialEq, Eq, Structural)]
pub enum ParseState {
    Start,
    PastCompletion,
    PastPriority,
    PastDate1,
    PastDate2,
    InDescription,
}

/// A priority token: an uppercase ASCII letter between parentheses.
pub open spec fn is_priority_token(t: Seq<char>) -> bool {
    t.len() == 3 && t[0] == '(' && is_upper(t[1]) && t[2] == ')'
}

/// Token classification, in the grammar's priority order: the exact
/// word `x`, a priority, a calendar date, or a plain word.
pub open spec fn classify(t: Seq<char>) -> Token {
    if t == seq!['x'] {
        Token::Complete
    } else if is_priority_token(t) {
        Token::Priority(t[1])
    } else if is_date_token(t) {
        Token::Date(date_of_token(t))
    } else {
        Token::Word
    }
}

/// The meaning of token `t`.
pub fn lex(t: &Vec<char>) -> (r: Token)
    ensures
        r == classify(t@),
{
    if t.len() == 1 && t[0] == 'x' {
        proof {
            assert(t@ =~= seq!['x']);
        }
        return Token::Complete;
    }
    proof {
        assert(t@ != seq!['x']) by {
            if t@ =~= seq!['x'] {
                assert(t@.len() == 1 && t@[0] == 'x');
            }
        }
    }
    if t.len() == 3 && t[0] == '(' && t[2] == ')' {
        let u = t[1] as u32;
        if 65 <= u && u <= 90 {
            return Token::Priority(t[1]);
        }
    }
    proof {
        assert(!is_priority_token(t@));
    }
    match parse_date_token(t) {
        Some(d) => Token::Date(d),
        None => Token::Word,
    }
}

/// The task with no fields set: what parsing starts from.
pub open spec fn empty_task_view() -> TaskView {
    TaskView {
        completed: false,
        priority: None,
        date_completed: None,
        date_created: None,
        description: Seq::empty(),
        contexts: Seq::empty(),
        projects: Seq::empty(),
    }
}

/// One transition of the parser: the new state and the fields the
/// token contributes.  Every pair not in the table falls through to
/// `InDescription` with the fields untouched.
pub open spec fn spec_step(st: ParseState, t: TaskView, tok: Seq<char>) -> (ParseState, TaskView) {
    match (st, classify(tok)) {
        (ParseState::Start, Token::Complete) => (
            ParseState::PastCompletion,
            TaskView { completed: true, ..t },
        ),
        (ParseState::Start, Token::Priority(p)) => (
            ParseState::PastPriority,
            TaskView { priority: Some(p), ..t },
        ),
        (ParseState::Start, Token::Date(d)) => (
            ParseState::PastDate1,
            TaskView { date_created: Some(d), ..t },
        ),
        (ParseState::PastCompletion, Token::Priority(p)) => (
            ParseState::PastPriority,
            TaskView { priority: Some(p), ..t },
        ),
        (ParseState::PastCompletion, Token::Date(d)) => (
            ParseState::PastDate1,
            TaskView { date_created: Some(d), ..t },
        ),
        (ParseState::PastPriority, Token::Date(d)) => (
            ParseState::PastDate1,
            TaskView { date_created: Some(d), ..t },
        ),
        (ParseState::PastDate1, Token::Date(d)) => (
            ParseState::PastDate2,
            TaskView { date_completed: t.date_created, date_created: Some(d), ..t },
        ),
        _ => (ParseState::InDescription, t),
    }
}

/// On entering the description at token `i`: the description is the
/// remaining tokens joined by single spaces, and the tags are derived
/// from it.
pub open spec fn finalize(t: TaskView, ts: Seq<Seq<char>>, i: int) -> TaskView {
    let desc = join_spaces(ts.skip(i));
    TaskView {
        description: desc,
        contexts: tags_of(desc, '@'),
        projects: tags_of(desc, '+'),
        ..t
    }
}

/// The parser run over tokens `ts[i..]` from state `st` with fields
/// `acc`: consume prefix tokens until one enters the description (or
/// the tokens run out).
pub open spec fn spec_run(st: ParseState, acc: TaskView, ts: Seq<Seq<char>>, i: int) -> TaskView
    decreases ts.len() - i,
{
    if i < 0 || i >= ts.len() {
        acc
    } else {
        let (st2, acc2) = spec_step(st, acc, ts[i]);
        if st2 == ParseState::InDescription {
            finalize(acc2, ts, i)
        } else {
            spec_run(st2, acc2, ts, i + 1)
        }
    }
}

/// What parsing a line yields: nothing for a line without tokens, and
/// otherwise the task that the parser run over its tokens produces.
pub open spec fn spec_parse(line: Seq<char>) -> Option<TaskView> {
    if tokens(line).len() == 0 {
        None
    } else {
        Some(spec_run(ParseState::Start, empty_task_view(), tokens(line), 0))
    }
}

/// The tokenising finite-state parser of one line.
pub struct TaskParser {
    pub state: ParseState,
    pub task: Task,
}

impl TaskParser {
    pub fn new() -> (r: TaskParser)
        ensures
            r.state == ParseState::Start,
            r.task@ == empty_task_view(),
    {
        let task = Task::empty();
        proof {
            assert(task@ =~= empty_task_view());
        }
        TaskParser { state: ParseState::Start, task }
    }

    /// Parses one line: the structured prefix becomes the task's
    /// fields, everything from the first non-prefix token on becomes
    /// the description.  A line without tokens gives nothing; every
    /// other line gives a well-formed task.
    pub fn parse_line(self, line: &str) -> (r: Option<Task>)
        requires
            self.state == ParseState::Start,
            self.task@ == empty_task_view(),
        ensures
            match r {
                Some(t) => spec_parse(line@) == Some(t@) && t@.wf(),
                None => spec_parse(line@) is None,
            },
    {
        let cs = str_chars(line);
        let toks = tokenize(&cs);
        let ghost ts = toks.deep_view();
        let mut task = self.task;
        let mut st = self.state;
        let mut i: usize = 0;
        proof {
            crate::text::lemma_tokens_wordlike(line@);
        }
        while i < toks.len()
            invariant
                i <= ts.len(),
                ts == toks.deep_view(),
                ts.len() == toks@.len(),
                ts == tokens(line@),
                st != ParseState::InDescription,
                i == 0 ==> st == ParseState::Start,
                spec_run(ParseState::Start, empty_task_view(), ts, 0) == spec_run(
                    st,
                    task@,
                    ts,
                    i as int,
                ),
                task@.description == Seq::<char>::empty(),
                task@.contexts == Seq::<Seq<char>>::empty(),
                task@.projects == Seq::<Seq<char>>::empty(),
                match task@.priority {
                    Some(p) => is_upper(p),
                    None => true,
                },
                crate::task::opt_date_wf(task@.date_completed),
                crate::task::opt_date_wf(task@.date_created),
            decreases ts.len() - i,
        {
            let ghost st0 = st;
            let ghost acc0 = task@;
            let tok = &toks[i];
            proof {
                assert(tok.deep_view() =~= tok@);
                assert(ts[i as int] == tok@);
            }
            let k = lex(tok);
            let mut to_desc = false;
            match st {
                ParseState::Start => {
                    match k {
                        Token::Complete => {
                            task.completed = true;
                            st = ParseState::PastCompletion;
                        },
                        Token::Priority(p) => {
                            task.priority = Some(p);
                            st = ParseState::PastPriority;
                        },
                        Token::Date(d) => {
                            task.date_created = Some(d);
                            st = ParseState::PastDate1;
                        },
                        Token::Word => {
                            to_desc = true;
                        },
                    }
                },
                ParseState::PastCompletion => {
                    match k {
                        Token::Priority(p) => {
                            task.priority = Some(p);
                            st = ParseState::PastPriority;
                        },
                        Token::Date(d) => {
                            task.date_created = Some(d);
                            st = ParseState::PastDate1;
                        },
                        _ => {
                            to_desc = true;
                        },
                    }
                },
                ParseState::PastPriority => {
                    match k {
                        Token::Date(d) => {
                            task.date_created = Some(d);
                            st = ParseState::PastDate1;
                        },
                        _ => {
                            to_desc = true;
                        },
                    }
                },
                ParseState::PastDate1 => {
                    match k {
                        Token::Date(d) => {
                            task.date_completed = task.date_created;
                            task.date_created = Some(d);
                            st = ParseState::PastDate2;
                        },
                        _ => {
                            to_desc = true;
                        },
                    }
                },
                ParseState::PastDate2 => {
                    to_desc = true;
                },
                ParseState::InDescription => {
                    to_desc = true;
                },
            }
            if to_desc {
                proof {
                    assert(spec_step(st0, acc0, ts[i as int]) == (
                        ParseState::InDescription,
                        acc0,
                    ));
                    assert(spec_run(st0, acc0, ts, i as int) == finalize(acc0, ts, i as int));
                }
                let desc = join_from(&toks, i);
                task.set_description(desc.as_str());
                proof {
                    let d = join_spaces(ts.skip(i as int));
                    assert(task@.contexts =~= tags_of(d, '@'));
                    assert(task@.projects =~= tags_of(d, '+'));
                    assert(task@ == finalize(acc0, ts, i as int));
                    assert(ts.len() > 0);
                }
                return Some(task);
            }
            proof {
                assert(spec_step(st0, acc0, ts[i as int]) == (st, task@));
                assert(spec_run(st0, acc0, ts, i as int) == spec_run(st, task@, ts, i as int + 1));
            }
            i = i + 1;
        }
        if toks.len() == 0 {
            proof {
                assert(spec_parse(line@) is None);
            }
            None
        } else {
            proof {
                assert(spec_run(st, task@, ts, i as int) == task@);
                crate::task::lemma_tags_of_empty();
            }
            Some(task)
        }
    }
}

/// The tokens that the structured prefix of a rendering contributes,
/// in emission order.
pub open spec fn prefix_tokens(t: TaskView) -> Seq<Seq<char>> {
    (if t.completed {
        seq![seq!['x']]
    } else {
        Seq::empty()
    }) + (match t.priority {
        Some(p) => seq![seq!['(', p, ')']],
        None => Seq::empty(),
    }) + (match t.date_completed {
        Some(d) => seq![date_chars(d)],
        None => Seq::empty(),
    }) + (match t.date_created {
        Some(d) => seq![date_chars(d)],
        None => Seq::empty(),
    })
}

/// Fields a rendering can carry: an uppercase priority and real
/// calendar dates.
pub open spec fn fields_wf(t: TaskView) -> bool {
    &&& match t.priority {
        Some(p) => is_upper(p),
        None => true,
    }
    &&& t.dates_wf()
}

/// The words of a rendering are the prefix tokens followed by the
/// words of the description.
pub proof fn lemma_tokens_of_render(t: TaskView)
    requires
        fields_wf(t),
    ensures
        tokens(spec_render(t)) == prefix_tokens(t) + tokens(t.description),
{
    let desc = t.description;
    let s_cr = (match t.date_created {
        Some(d) => date_chars(d) + seq![' '],
        None => Seq::empty(),
    }) + desc;
    let p_cr = (match t.date_created {
        Some(d) => seq![date_chars(d)],
        None => Seq::<Seq<char>>::empty(),
    });
    if let Some(d) = t.date_created {
        lemma_date_chars_roundtrip(d);
        assert(s_cr =~= date_chars(d) + seq![' '] + desc);
        lemma_tokens_chunk(date_chars(d), desc);
        assert(tokens(s_cr) =~= p_cr + tokens(desc));
    } else {
        assert(s_cr =~= desc);
        assert(tokens(s_cr) =~= p_cr + tokens(desc));
    }
    let s_dc = (match t.date_completed {
        Some(d) => date_chars(d) + seq![' '],
        None => Seq::empty(),
    }) + s_cr;
    let p_dc = (match t.date_completed {
        Some(d) => seq![date_chars(d)],
        None => Seq::<Seq<char>>::empty(),
    });
    if let Some(d) = t.date_completed {
        lemma_date_chars_roundtrip(d);
        assert(s_dc =~= date_chars(d) + seq![' '] + s_cr);
        lemma_tokens_chunk(date_chars(d), s_cr);
        assert(tokens(s_dc) =~= p_dc + (p_cr + tokens(desc)));
    } else {
        assert(s_dc =~= s_cr);
        assert(tokens(s_dc) =~= p_dc + (p_cr + tokens(desc)));
    }
    let s_p = (match t.priority {
        Some(p) => seq!['(', p, ')', ' '],
        None => Seq::empty(),
    }) + s_dc;
    let p_p = (match t.priority {
        Some(p) => seq![seq!['(', p, ')']],
        None => Seq::<Seq<char>>::empty(),
    });
    if let Some(p) = t.priority {
        let w = seq!['(', p, ')'];
        assert(wordlike(w)) by {
            assert(!is_ws('('));
            assert(!is_ws(')'));
            assert(!is_ws(p));
        }
        assert(s_p =~= w + seq![' '] + s_dc);
        lemma_tokens_chunk(w, s_dc);
        assert(tokens(s_p) =~= p_p + (p_dc + (p_cr + tokens(desc))));
    } else {
        assert(s_p =~= s_dc);
        assert(tokens(s_p) =~= p_p + (p_dc + (p_cr + tokens(desc))));
    }
    let s_x = (if t.completed {
        seq!['x', ' ']
    } else {
        Seq::empty()
    }) + s_p;
    let p_x = (if t.completed {
        seq![seq!['x']]
    } else {
        Seq::<Seq<char>>::empty()
    });
    if t.completed {
        let w = seq!['x'];
        assert(wordlike(w));
        assert(s_x =~= w + seq![' '] + s_p);
        lemma_tokens_chunk(w, s_p);
        assert(tokens(s_x) =~= p_x + (p_p + (p_dc + (p_cr + tokens(desc)))));
    } else {
        assert(s_x =~= s_p);
        assert(tokens(s_x) =~= p_x + (p_p + (p_dc + (p_cr + tokens(desc)))));
    }
    assert(spec_render(t) =~= s_x);
    assert(prefix_tokens(t) + tokens(desc) =~= p_x + (p_p + (p_dc + (p_cr + tokens(desc)))));
}

/// A rendering whose description is nonempty and already normalised is
/// itself the join of its words.
#[verifier::rlimit(60)]
pub proof fn lemma_render_as_join(t: TaskView)
    requires
        fields_wf(t),
        t.description == join_spaces(tokens(t.description)),
        tokens(t.description).len() > 0,
    ensures
        spec_render(t) == join_spaces(prefix_tokens(t) + tokens(t.description)),
{
    let desc = t.description;
    let dt = tokens(desc);
    let p_cr = (match t.date_created {
        Some(d) => seq![date_chars(d)],
        None => Seq::<Seq<char>>::empty(),
    });
    let s_cr = (match t.date_created {
        Some(d) => date_chars(d) + seq![' '],
        None => Seq::empty(),
    }) + desc;
    if let Some(d) = t.date_created {
        assert(p_cr + dt =~= seq![date_chars(d)] + dt);
        lemma_join_cons(date_chars(d), dt);
        assert(join_spaces(p_cr + dt) =~= s_cr);
    } else {
        assert(p_cr + dt =~= dt);
        assert(join_spaces(p_cr + dt) =~= s_cr);
    }
    let p_dc = (match t.date_completed {
        Some(d) => seq![date_chars(d)],
        None => Seq::<Seq<char>>::empty(),
    });
    let s_dc = (match t.date_completed {
        Some(d) => date_chars(d) + seq![' '],
        None => Seq::empty(),
    }) + s_cr;
    assert((p_cr + dt).len() > 0);
    if let Some(d) = t.date_completed {
        assert(p_dc + (p_cr + dt) =~= seq![date_chars(d)] + (p_cr + dt));
        lemma_join_cons(date_chars(d), p_cr + dt);
        assert(join_spaces(p_dc + (p_cr + dt)) =~= s_dc);
    } else {
        assert(p_dc + (p_cr + dt) =~= p_cr + dt);
        assert(join_spaces(p_dc + (p_cr + dt)) =~= s_dc);
    }
    let p_p = (match t.priority {
        Some(p) => seq![seq!['(', p, ')']],
        None => Seq::<Seq<char>>::empty(),
    });
    let s_p = (match t.priority {
        Some(p) => seq!['(', p, ')', ' '],
        None => Seq::empty(),
    }) + s_dc;
    assert((p_dc + (p_cr + dt)).len() > 0);
    if let Some(p) = t.priority {
        assert(p_p + (p_dc + (p_cr + dt)) =~= seq![seq!['(', p, ')']] + (p_dc + (p_cr + dt)));
        lemma_join_cons(seq!['(', p, ')'], p_dc + (p_cr + dt));
        assert(join_spaces(p_p + (p_dc + (p_cr + dt))) =~= s_p);
    } else {
        assert(p_p + (p_dc + (p_cr + dt)) =~= p_dc + (p_cr + dt));
        assert(join_spaces(p_p + (p_dc + (p_cr + dt))) =~= s_p);
    }
    let p_x = (if t.completed {
        seq![seq!['x']]
    } else {
        Seq::<Seq<char>>::empty()
    });
    let s_x = (if t.completed {
        seq!['x', ' ']
    } else {
        Seq::empty()
    }) + s_p;
    assert((p_p + (p_dc + (p_cr + dt))).len() > 0);
    if t.completed {
        assert(p_x + (p_p + (p_dc + (p_cr + dt))) =~= seq![seq!['x']] + (p_p + (p_dc + (p_cr
            + dt))));
        lemma_join_cons(seq!['x'], p_p + (p_dc + (p_cr + dt)));
        assert(join_spaces(p_x + (p_p + (p_dc + (p_cr + dt)))) =~= s_x);
    } else {
        assert(p_x + (p_p + (p_dc + (p_cr + dt))) =~= p_p + (p_dc + (p_cr + dt)));
        assert(join_spaces(p_x + (p_p + (p_dc + (p_cr + dt)))) =~= s_x);
    }
    assert(prefix_tokens(t) + dt =~= p_x + (p_p + (p_dc + (p_cr + dt))));
    assert(spec_render(t) =~= s_x);
}

/// Once the run has consumed a date, the task that comes out keeps a
/// creation date: no later transition clears it.
proof fn lemma_run_keeps_created(st: ParseState, acc: TaskView, ts: Seq<Seq<char>>, i: int)
    requires
        acc.date_created is Some,
        st == ParseState::PastDate1 || st == ParseState::PastDate2,
    ensures
        spec_run(st, acc, ts, i).date_created is Some,
    decreases ts.len() - i,
{
    if i < 0 || i >= ts.len() {
    } else {
        let (st2, acc2) = spec_step(st, acc, ts[i]);
        if st2 == ParseState::InDescription {
        } else {
            lemma_run_keeps_created(st2, acc2, ts, i + 1);
        }
    }
}

/// A task carrying neither date.
pub open spec fn date_free(t: TaskView) -> bool {
    t.date_completed is None && t.date_created is None
}

proof fn lemma_p1_finish(line: Seq<char>, t: TaskView, k: int)
    requires
        0 <= k <= tokens(line).len(),
        prefix_tokens(t) == tokens(line).take(k),
        fields_wf(t),
        t.description == join_spaces(tokens(line).skip(k)),
    ensures
        tokens(spec_render(t)) == tokens(line),
        t.description.len() > 0 ==> spec_render(t) == join_spaces(tokens(line)),
{
    let ts = tokens(line);
    crate::text::lemma_tokens_wordlike(line);
    let rest = ts.skip(k);
    assert(crate::text::all_wordlike(rest)) by {
        assert(forall|j: int| 0 <= j < rest.len() ==> rest[j] == ts[j + k]);
    }
    crate::text::lemma_tokens_of_join(rest);
    assert(tokens(t.description) == rest);
    lemma_tokens_of_render(t);
    assert(ts.take(k) + ts.skip(k) =~= ts);
    assert(tokens(spec_render(t)) == ts);
    if t.description.len() > 0 {
        assert(rest.len() > 0) by {
            if rest.len() == 0 {
                assert(t.description =~= Seq::<char>::empty());
            }
        }
        lemma_render_as_join(t);
        assert(spec_render(t) == join_spaces(ts));
    }
}

/// Rendering a date-free parse reproduces the line up to whitespace
/// normalisation: the rendering has exactly the line's words, and —
/// whenever a description is present — it is exactly those words
/// joined by single spaces.
pub proof fn lemma_render_parse_roundtrip(line: Seq<char>, t: TaskView)
    requires
        spec_parse(line) == Some(t),
        date_free(t),
    ensures
        tokens(spec_render(t)) == tokens(line),
        t.description.len() > 0 ==> spec_render(t) == join_spaces(tokens(line)),
{
    let ts = tokens(line);
    assert(ts.len() > 0);
    let e = empty_task_view();
    assert(t == spec_run(ParseState::Start, e, ts, 0));
    let k0 = classify(ts[0]);
    if k0 is Date {
        let d = k0->Date_0;
        let acc1 = TaskView { date_created: Some(d), ..e };
        assert(spec_step(ParseState::Start, e, ts[0]) == (ParseState::PastDate1, acc1));
        assert(t == spec_run(ParseState::PastDate1, acc1, ts, 1));
        lemma_run_keeps_created(ParseState::PastDate1, acc1, ts, 1);
        assert(false);
    } else if k0 is Word {
        assert(spec_step(ParseState::Start, e, ts[0]) == (ParseState::InDescription, e));
        assert(t == finalize(e, ts, 0));
        assert(prefix_tokens(t) =~= ts.take(0));
        lemma_p1_finish(line, t, 0);
    } else if k0 is Complete {
        assert(ts[0] == seq!['x']);
        let acc1 = TaskView { completed: true, ..e };
        assert(spec_step(ParseState::Start, e, ts[0]) == (ParseState::PastCompletion, acc1));
        assert(t == spec_run(ParseState::PastCompletion, acc1, ts, 1));
        if ts.len() == 1 {
            assert(t == acc1);
            assert(prefix_tokens(t) =~= ts.take(1));
            assert(ts.skip(1) =~= Seq::<Seq<char>>::empty());
            lemma_p1_finish(line, t, 1);
        } else {
            let k1 = classify(ts[1]);
            if k1 is Date {
                let d = k1->Date_0;
                let acc2 = TaskView { date_created: Some(d), ..acc1 };
                assert(spec_step(ParseState::PastCompletion, acc1, ts[1]) == (
                    ParseState::PastDate1,
                    acc2,
                ));
                assert(t == spec_run(ParseState::PastDate1, acc2, ts, 2));
                lemma_run_keeps_created(ParseState::PastDate1, acc2, ts, 2);
                assert(false);
            } else if k1 is Priority {
                let p = k1->Priority_0;
                assert(is_priority_token(ts[1]) && p == ts[1][1]);
                assert(ts[1] =~= seq!['(', p, ')']);
                let acc2 = TaskView { priority: Some(p), ..acc1 };
                assert(spec_step(ParseState::PastCompletion, acc1, ts[1]) == (
                    ParseState::PastPriority,
                    acc2,
                ));
                assert(t == spec_run(ParseState::PastPriority, acc2, ts, 2));
                if ts.len() == 2 {
                    assert(t == acc2);
                    assert(prefix_tokens(t) =~= ts.take(2));
                    assert(ts.skip(2) =~= Seq::<Seq<char>>::empty());
                    lemma_p1_finish(line, t, 2);
                } else {
                    let k2 = classify(ts[2]);
                    if k2 is Date {
                        let d = k2->Date_0;
                        let acc3 = TaskView { date_created: Some(d), ..acc2 };
                        assert(spec_step(ParseState::PastPriority, acc2, ts[2]) == (
                            ParseState::PastDate1,
                            acc3,
                        ));
                        assert(t == spec_run(ParseState::PastDate1, acc3, ts, 3));
                        lemma_run_keeps_created(ParseState::PastDate1, acc3, ts, 3);
                        assert(false);
                    } else {
                        assert(spec_step(ParseState::PastPriority, acc2, ts[2]) == (
                            ParseState::InDescription,
                            acc2,
                        ));
                        assert(t == finalize(acc2, ts, 2));
                        assert(prefix_tokens(t) =~= ts.take(2));
                        lemma_p1_finish(line, t, 2);
                    }
                }
            } else {
                assert(spec_step(ParseState::PastCompletion, acc1, ts[1]) == (
                    ParseState::InDescription,
                    acc1,
                ));
                assert(t == finalize(acc1, ts, 1));
                assert(prefix_tokens(t) =~= ts.take(1));
                lemma_p1_finish(line, t, 1);
            }
        }
    } else {
        let p = k0->Priority_0;
        assert(is_priority_token(ts[0]) && p == ts[0][1]);
        assert(ts[0] =~= seq!['(', p, ')']);
        let acc1 = TaskView { priority: Some(p), ..e };
        assert(spec_step(ParseState::Start, e, ts[0]) == (ParseState::PastPriority, acc1));
        assert(t == spec_run(ParseState::PastPriority, acc1, ts, 1));
        if ts.len() == 1 {
            assert(t == acc1);
            assert(prefix_tokens(t) =~= ts.take(1));
            assert(ts.skip(1) =~= Seq::<Seq<char>>::empty());
            lemma_p1_finish(line, t, 1);
        } else {
            let k1 = classify(ts[1]);
            if k1 is Date {
                let d = k1->Date_0;
                let acc2 = TaskView { date_created: Some(d), ..acc1 };
                assert(spec_step(ParseState::PastPriority, acc1, ts[1]) == (
                    ParseState::PastDate1,
                    acc2,
                ));
                assert(t == spec_run(ParseState::PastDate1, acc2, ts, 2));
                lemma_run_keeps_created(ParseState::PastDate1, acc2, ts, 2);
                assert(false);
            } else {
                assert(spec_step(ParseState::PastPriority, acc1, ts[1]) == (
                    ParseState::InDescription,
                    acc1,
                ));
                assert(t == finalize(acc1, ts, 1));
                assert(prefix_tokens(t) =~= ts.take(1));
                lemma_p1_finish(line, t, 1);
            }
        }
    }
}

/// The state in which the parser leaves the structured prefix that
/// rendering `t` emits.
pub open spec fn state_after_prefix(t: TaskView) -> ParseState {
    if t.date_completed is Some {
        ParseState::PastDate2
    } else if t.date_created is Some {
        ParseState::PastDate1
    } else if t.priority is Some {
        ParseState::PastPriority
    } else if t.completed {
        ParseState::PastCompletion
    } else {
        ParseState::Start
    }
}

/// A task whose canonical rendering parses back to the very same task:
/// well-formed fields, a completion date only beside a creation date,
/// a description already normalised to single spaces, and a
/// description that does not begin with a token the structured prefix
/// would still consume.
pub open spec fn render_reparse_safe(t: TaskView) -> bool {
    &&& t.wf()
    &&& t.date_completed is Some ==> t.date_created is Some
    &&& t.description == join_spaces(tokens(t.description))
    &&& (tokens(t.description).len() > 0 ==> match state_after_prefix(t) {
        ParseState::Start => classify(tokens(t.description)[0]) == Token::Word,
        ParseState::PastCompletion => !(classify(tokens(t.description)[0]) is Priority) && !(
        classify(tokens(t.description)[0]) is Date),
        ParseState::PastPriority => !(classify(tokens(t.description)[0]) is Date),
        ParseState::PastDate1 => !(classify(tokens(t.description)[0]) is Date),
        _ => true,
    })
    &&& (state_after_prefix(t) == ParseState::Start ==> tokens(t.description).len() > 0)
}

/// Round trip: parsing the canonical rendering of a safe task yields
/// an equal task.
#[verifier::rlimit(100)]
pub proof fn lemma_parse_render_roundtrip(t: TaskView)
    requires
        render_reparse_safe(t),
    ensures
        spec_parse(spec_render(t)) == Some(t),
{
    let ts = tokens(spec_render(t));
    let dt = tokens(t.description);
    lemma_tokens_of_render(t);
    let pt = prefix_tokens(t);
    assert(ts == pt + dt);
    let c_x: Seq<Seq<char>> = if t.completed {
        seq![seq!['x']]
    } else {
        Seq::empty()
    };
    let c_p: Seq<Seq<char>> = match t.priority {
        Some(p) => seq![seq!['(', p, ')']],
        None => Seq::empty(),
    };
    let c_dc: Seq<Seq<char>> = match t.date_completed {
        Some(d) => seq![date_chars(d)],
        None => Seq::empty(),
    };
    let c_cr: Seq<Seq<char>> = match t.date_created {
        Some(d) => seq![date_chars(d)],
        None => Seq::empty(),
    };
    assert(pt =~= c_x + c_p + c_dc + c_cr);
    let e = empty_task_view();
    let mut st = ParseState::Start;
    let mut acc = e;
    let mut k: int = 0;
    assert(spec_run(ParseState::Start, e, ts, 0) == spec_run(st, acc, ts, k));
    if t.completed {
        assert(ts[k] == seq!['x']);
        assert(classify(ts[k]) == Token::Complete);
        let acc2 = TaskView { completed: true, ..acc };
        assert(spec_step(st, acc, ts[k]) == (ParseState::PastCompletion, acc2));
        assert(k < ts.len());
        assert(spec_run(st, acc, ts, k) == spec_run(ParseState::PastCompletion, acc2, ts, k + 1));
        st = ParseState::PastCompletion;
        acc = acc2;
        k = k + 1;
    }
    if t.priority is Some {
        let p = t.priority->0;
        assert(ts[k] == seq!['(', p, ')']);
        assert(ts[k].len() == 3);
        assert(is_priority_token(ts[k]));
        assert(classify(ts[k]) == Token::Priority(p));
        let acc2 = TaskView { priority: Some(p), ..acc };
        assert(spec_step(st, acc, ts[k]) == (ParseState::PastPriority, acc2));
        assert(k < ts.len());
        assert(spec_run(st, acc, ts, k) == spec_run(ParseState::PastPriority, acc2, ts, k + 1));
        st = ParseState::PastPriority;
        acc = acc2;
        k = k + 1;
    }
    if t.date_completed is Some {
        let d = t.date_completed->0;
        lemma_date_chars_roundtrip(d);
        assert(ts[k] == date_chars(d));
        assert(ts[k].len() == 10);
        assert(classify(ts[k]) == Token::Date(d));
        let acc2 = TaskView { date_created: Some(d), ..acc };
        assert(spec_step(st, acc, ts[k]) == (ParseState::PastDate1, acc2));
        assert(k < ts.len());
        assert(spec_run(st, acc, ts, k) == spec_run(ParseState::PastDate1, acc2, ts, k + 1));
        st = ParseState::PastDate1;
        acc = acc2;
        k = k + 1;
    }
    if t.date_created is Some {
        let d = t.date_created->0;
        lemma_date_chars_roundtrip(d);
        assert(ts[k] == date_chars(d));
        assert(ts[k].len() == 10);
        assert(classify(ts[k]) == Token::Date(d));
        if st == ParseState::PastDate1 {
            let acc2 = TaskView {
                date_completed: acc.date_created,
                date_created: Some(d),
                ..acc
            };
            assert(spec_step(st, acc, ts[k]) == (ParseState::PastDate2, acc2));
            assert(k < ts.len());
            assert(spec_run(st, acc, ts, k) == spec_run(ParseState::PastDate2, acc2, ts, k + 1));
            st = ParseState::PastDate2;
            acc = acc2;
            k = k + 1;
        } else {
            let acc2 = TaskView { date_created: Some(d), ..acc };
            assert(spec_step(st, acc, ts[k]) == (ParseState::PastDate1, acc2));
            assert(k < ts.len());
            assert(spec_run(st, acc, ts, k) == spec_run(ParseState::PastDate1, acc2, ts, k + 1));
            st = ParseState::PastDate1;
            acc = acc2;
            k = k + 1;
        }
    }
    assert(st == state_after_prefix(t));
    assert(acc.completed == t.completed);
    assert(acc.priority == t.priority);
    assert(acc.date_completed == t.date_completed);
    assert(acc.date_created == t.date_created);
    assert(acc.description == Seq::<char>::empty());
    assert(acc.contexts == Seq::<Seq<char>>::empty());
    assert(acc.projects == Seq::<Seq<char>>::empty());
    assert(k == pt.len());
    assert(ts.skip(k) =~= dt);
    if dt.len() == 0 {
        assert(k == ts.len());
        assert(spec_run(st, acc, ts, k) == acc);
        assert(t.description =~= Seq::<char>::empty());
        crate::task::lemma_tags_of_empty();
        assert(acc =~~= t);
    } else {
        assert(ts[k] == dt[0]);
        assert(spec_step(st, acc, ts[k]) == (ParseState::InDescription, acc));
        assert(spec_run(st, acc, ts, k) == finalize(acc, ts, k));
        assert(join_spaces(ts.skip(k)) == t.description);
        assert(finalize(acc, ts, k) =~~= t);
    }
    assert(ts.len() > 0);
    assert(spec_run(ParseState::Start, e, ts, 0) == t);
    assert(spec_parse(spec_render(t)) == Some(t));
}

impl core::str::FromStr for Task {
    type Err = ParseTaskError;

    /// Parses one line, reporting the empty line as the error.
    fn from_str(s: &str) -> (r: Result<Task, ParseTaskError>) {
        match TaskParser::new().parse_line(s) {
            Some(task) => Ok(task),
            None => Err(ParseTaskError),
        }
    }
}

impl Default for TaskParser {
    /// A fresh parser, at the start state with no fields set.
    fn default() -> (r: Self)
        ensures
            r.state == ParseState::Start,
            r.task@ == empty_task_view(),
    {
        Self::new()
    }
}

} // verus!
