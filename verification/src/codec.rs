//! The persisted form of a store: an indented textual object with the
//! counter and the task list. `save_store` renders it, `parse_store` reads it
//! back, and the round-trip law proves that a saved store always loads back
//! unchanged.

use vstd::prelude::*;
use vstd::string::StrSliceExecFns;
use vstd::string::StringExecFns;

use crate::store::{
    empty_store, empty_store_view, opt_str_view, views_of, Priority, StoreView, TaskView, Todo,
    TodoStore,
};
use crate::text::{
    enc_str, enc_u32, expect, lemma_lit_split, lemma_sp_str_complete,
    lemma_sp_u32_complete, lemma_subrange_chars, parse_str, parse_u32, print_str, print_u32,
    sp_lit, sp_str, sp_u32,
};

verus! {

pub open spec fn lit_s1() -> Seq<char> {
    "{\n  \"next_id\": "@
}

pub open spec fn lit_s2() -> Seq<char> {
    ",\n  \"tasks\": "@
}

pub open spec fn lit_s3() -> Seq<char> {
    "\n}"@
}

pub open spec fn lit_t1() -> Seq<char> {
    "    {\n      \"id\": "@
}

pub open spec fn lit_t2() -> Seq<char> {
    ",\n      \"title\": "@
}

pub open spec fn lit_t3() -> Seq<char> {
    ",\n      \"completed\": "@
}

pub open spec fn lit_t4() -> Seq<char> {
    ",\n      \"priority\": "@
}

pub open spec fn lit_t5() -> Seq<char> {
    ",\n      \"due_date\": "@
}

pub open spec fn lit_t6() -> Seq<char> {
    ",\n      \"created_at\": "@
}

pub open spec fn lit_t7() -> Seq<char> {
    "\n    }"@
}

pub open spec fn lit_empty_list() -> Seq<char> {
    "[]"@
}

pub open spec fn lit_open_list() -> Seq<char> {
    "[\n"@
}

pub open spec fn lit_sep() -> Seq<char> {
    ",\n"@
}

pub open spec fn lit_close_list() -> Seq<char> {
    "\n  ]"@
}

/// The stable text of a priority.
pub open spec fn prio_chars(p: Priority) -> Seq<char> {
    match p {
        Priority::High => "high"@,
        Priority::Medium => "medium"@,
        Priority::Low => "low"@,
    }
}

impl Priority {
    /// The stable lowercase text of this priority.
    pub fn text(&self) -> (r: String)
        ensures
            r@ == prio_chars(*self),
    {
        match self {
            Priority::High => "high".to_owned(),
            Priority::Medium => "medium".to_owned(),
            Priority::Low => "low".to_owned(),
        }
    }
}

pub open spec fn enc_bool(b: bool) -> Seq<char> {
    if b {
        "true"@
    } else {
        "false"@
    }
}

pub open spec fn enc_due(d: Option<Seq<char>>) -> Seq<char> {
    match d {
        None => "null"@,
        Some(v) => enc_str(v),
    }
}

/// The persisted form of one task.
pub open spec fn enc_task(t: TaskView) -> Seq<char> {
    lit_t1() + enc_u32(t.id) + lit_t2() + enc_str(t.title) + lit_t3() + enc_bool(t.completed)
        + lit_t4() + enc_str(prio_chars(t.priority)) + lit_t5() + enc_due(t.due_date) + lit_t6()
        + enc_str(t.created_at) + lit_t7()
}

/// The separators and tasks that follow the first task of a list.
pub open spec fn enc_tasks_rest(ts: Seq<TaskView>) -> Seq<char>
    decreases ts.len(),
{
    if ts.len() == 0 {
        Seq::empty()
    } else {
        enc_tasks_rest(ts.drop_last()) + lit_sep() + enc_task(ts.last())
    }
}

/// The persisted form of the task list.
pub open spec fn enc_tasks(ts: Seq<TaskView>) -> Seq<char> {
    if ts.len() == 0 {
        lit_empty_list()
    } else {
        lit_open_list() + enc_task(ts[0]) + enc_tasks_rest(ts.skip(1)) + lit_close_list()
    }
}

/// The persisted form of a whole store.
pub open spec fn enc_store(s: StoreView) -> Seq<char> {
    lit_s1() + enc_u32(s.next_id) + lit_s2() + enc_tasks(s.tasks) + lit_s3()
}

/// What a boolean literal starting at `i` parses to.
pub open spec fn sp_bool(s: Seq<char>, i: int) -> Option<(bool, int)> {
    match sp_lit(s, i, "true"@) {
        Some(j) => Some((true, j)),
        None => match sp_lit(s, i, "false"@) {
            Some(j) => Some((false, j)),
            None => None,
        },
    }
}

pub open spec fn prio_of_chars(txt: Seq<char>) -> Option<Priority> {
    if txt == "high"@ {
        Some(Priority::High)
    } else if txt == "medium"@ {
        Some(Priority::Medium)
    } else if txt == "low"@ {
        Some(Priority::Low)
    } else {
        None
    }
}

/// What a quoted priority starting at `i` parses to.
pub open spec fn sp_prio(s: Seq<char>, i: int) -> Option<(Priority, int)> {
    match sp_str(s, i) {
        Some((txt, j)) => match prio_of_chars(txt) {
            Some(p) => Some((p, j)),
            None => None,
        },
        None => None,
    }
}

/// What a due date (null or a quoted string) starting at `i` parses to.
pub open spec fn sp_due(s: Seq<char>, i: int) -> Option<(Option<Seq<char>>, int)> {
    match sp_lit(s, i, "null"@) {
        Some(j) => Some((None, j)),
        None => match sp_str(s, i) {
            Some((v, j)) => Some((Some(v), j)),
            None => None,
        },
    }
}

/// What one task object starting at `i` parses to.
pub open spec fn sp_task(s: Seq<char>, i: int) -> Option<(TaskView, int)> {
    match sp_lit(s, i, lit_t1()) {
        None => None,
        Some(i1) => match sp_u32(s, i1) {
            None => None,
            Some((id, i2)) => match sp_lit(s, i2, lit_t2()) {
                None => None,
                Some(i3) => match sp_str(s, i3) {
                    None => None,
                    Some((title, i4)) => match sp_lit(s, i4, lit_t3()) {
                        None => None,
                        Some(i5) => match sp_bool(s, i5) {
                            None => None,
                            Some((completed, i6)) => match sp_lit(s, i6, lit_t4()) {
                                None => None,
                                Some(i7) => match sp_prio(s, i7) {
                                    None => None,
                                    Some((priority, i8)) => match sp_lit(s, i8, lit_t5()) {
                                        None => None,
                                        Some(i9) => match sp_due(s, i9) {
                                            None => None,
                                            Some((due, i10)) => match sp_lit(s, i10, lit_t6()) {
                                                None => None,
                                                Some(i11) => match sp_str(s, i11) {
                                                    None => None,
                                                    Some((created, i12)) => match sp_lit(
                                                        s,
                                                        i12,
                                                        lit_t7(),
                                                    ) {
                                                        None => None,
                                                        Some(i13) => Some(
                                                            (
                                                                TaskView {
                                                                    id,
                                                                    title,
                                                                    completed,
                                                                    priority,
                                                                    due_date: due,
                                                                    created_at: created,
                                                                },
                                                                i13,
                                                            ),
                                                        ),
                                                    },
                                                },
                                            },
                                        },
                                    },
                                },
                            },
                        },
                    },
                },
            },
        },
    }
}

/// What a non-empty task list (tasks separated by commas, then the closing
/// bracket) starting at `i` parses to.
pub open spec fn sp_task_list(s: Seq<char>, i: int) -> Option<(Seq<TaskView>, int)>
    decreases s.len() - i,
{
    match sp_task(s, i) {
        None => None,
        Some((t, j)) => if j <= i || j > s.len() {
            None
        } else {
            match sp_lit(s, j, lit_sep()) {
                Some(k) => if k <= j {
                    None
                } else {
                    match sp_task_list(s, k) {
                        Some((ts, l)) => Some((seq![t] + ts, l)),
                        None => None,
                    }
                },
                None => match sp_lit(s, j, lit_close_list()) {
                    Some(k) => Some((seq![t], k)),
                    None => None,
                },
            }
        },
    }
}

/// What a task list (possibly empty) starting at `i` parses to.
pub open spec fn sp_tasks(s: Seq<char>, i: int) -> Option<(Seq<TaskView>, int)> {
    match sp_lit(s, i, lit_empty_list()) {
        Some(j) => Some((Seq::empty(), j)),
        None => match sp_lit(s, i, lit_open_list()) {
            Some(j) => sp_task_list(s, j),
            None => None,
        },
    }
}

/// What a whole persisted text parses to: the store object and nothing after
/// it.
pub open spec fn sp_store(s: Seq<char>) -> Option<StoreView> {
    match sp_lit(s, 0, lit_s1()) {
        None => None,
        Some(i1) => match sp_u32(s, i1) {
            None => None,
            Some((next_id, i2)) => match sp_lit(s, i2, lit_s2()) {
                None => None,
                Some(i3) => match sp_tasks(s, i3) {
                    None => None,
                    Some((tasks, i4)) => match sp_lit(s, i4, lit_s3()) {
                        None => None,
                        Some(i5) => if i5 == s.len() {
                            Some(StoreView { next_id, tasks })
                        } else {
                            None
                        },
                    },
                },
            },
        },
    }
}

fn parse_bool(s: &str, i: usize) -> (r: Option<(bool, usize)>)
    ensures
        match r {
            Some((v, j)) => sp_bool(s@, i as int) == Some((v, j as int)) && i <= j <= s@.len(),
            None => sp_bool(s@, i as int) is None,
        },
{
    match expect(s, i, "true") {
        Some(j) => Some((true, j)),
        None => match expect(s, i, "false") {
            Some(j) => Some((false, j)),
            None => None,
        },
    }
}

fn parse_prio(s: &str, i: usize) -> (r: Option<(Priority, usize)>)
    ensures
        match r {
            Some((v, j)) => sp_prio(s@, i as int) == Some((v, j as int)) && i < j <= s@.len(),
            None => sp_prio(s@, i as int) is None,
        },
{
    let (txt, j) = match parse_str(s, i) {
        Some(x) => x,
        None => {
            return None;
        },
    };
    let h: String = "high".to_owned();
    let m: String = "medium".to_owned();
    let l: String = "low".to_owned();
    if txt == h {
        Some((Priority::High, j))
    } else if txt == m {
        Some((Priority::Medium, j))
    } else if txt == l {
        Some((Priority::Low, j))
    } else {
        None
    }
}

fn parse_due(s: &str, i: usize) -> (r: Option<(Option<String>, usize)>)
    ensures
        match r {
            Some((v, j)) => sp_due(s@, i as int) == Some((opt_str_view(v), j as int)) && i < j
                <= s@.len(),
            None => sp_due(s@, i as int) is None,
        },
{
    match expect(s, i, "null") {
        Some(j) => {
            proof {
                reveal_strlit("null");
            }
            Some((None, j))
        },
        None => match parse_str(s, i) {
            Some((v, j)) => Some((Some(v), j)),
            None => None,
        },
    }
}

fn parse_task(s: &str, i: usize) -> (r: Option<(Todo, usize)>)
    ensures
        match r {
            Some((t, j)) => sp_task(s@, i as int) == Some((t@, j as int)) && i < j <= s@.len(),
            None => sp_task(s@, i as int) is None,
        },
{
    let i1 = match expect(s, i, "    {\n      \"id\": ") {
        Some(j) => j,
        None => {
            return None;
        },
    };
    let (id, i2) = match parse_u32(s, i1) {
        Some(x) => x,
        None => {
            return None;
        },
    };
    let i3 = match expect(s, i2, ",\n      \"title\": ") {
        Some(j) => j,
        None => {
            return None;
        },
    };
    let (title, i4) = match parse_str(s, i3) {
        Some(x) => x,
        None => {
            return None;
        },
    };
    let i5 = match expect(s, i4, ",\n      \"completed\": ") {
        Some(j) => j,
        None => {
            return None;
        },
    };
    let (completed, i6) = match parse_bool(s, i5) {
        Some(x) => x,
        None => {
            return None;
        },
    };
    let i7 = match expect(s, i6, ",\n      \"priority\": ") {
        Some(j) => j,
        None => {
            return None;
        },
    };
    let (priority, i8) = match parse_prio(s, i7) {
        Some(x) => x,
        None => {
            return None;
        },
    };
    let i9 = match expect(s, i8, ",\n      \"due_date\": ") {
        Some(j) => j,
        None => {
            return None;
        },
    };
    let (due, i10) = match parse_due(s, i9) {
        Some(x) => x,
        None => {
            return None;
        },
    };
    let i11 = match expect(s, i10, ",\n      \"created_at\": ") {
        Some(j) => j,
        None => {
            return None;
        },
    };
    let (created, i12) = match parse_str(s, i11) {
        Some(x) => x,
        None => {
            return None;
        },
    };
    let i13 = match expect(s, i12, "\n    }") {
        Some(j) => j,
        None => {
            return None;
        },
    };
    let t = Todo { id, title, completed, priority, due_date: due, created_at: created };
    proof {
        assert(t@ =~= match sp_task(s@, i as int) {
            Some((tv, _)) => tv,
            None => t@,
        });
    }
    Some((t, i13))
}

pub open spec fn opt_prepend(p: Seq<TaskView>, o: Option<(Seq<TaskView>, int)>) -> Option<
    (Seq<TaskView>, int),
> {
    match o {
        Some((ts, l)) => Some((p + ts, l)),
        None => None,
    }
}

fn parse_task_list(s: &str, i: usize) -> (r: Option<(Vec<Todo>, usize)>)
    ensures
        match r {
            Some((v, j)) => sp_task_list(s@, i as int) == Some((views_of(v@), j as int)) && j
                <= s@.len(),
            None => sp_task_list(s@, i as int) is None,
        },
{
    let n = s.unicode_len();
    if i > n {
        return None;
    }
    let mut out: Vec<Todo> = Vec::new();
    let mut j = i;
    proof {
        assert(views_of(out@) =~= Seq::<TaskView>::empty());
        assert(sp_task_list(s@, i as int) == opt_prepend(
            views_of(out@),
            sp_task_list(s@, j as int),
        ));
    }
    loop
        invariant
            i <= j <= n,
            n == s@.len(),
            sp_task_list(s@, i as int) == opt_prepend(views_of(out@), sp_task_list(s@, j as int)),
        decreases n - j,
    {
        let (t, j2) = match parse_task(s, j) {
            Some(x) => x,
            None => {
                return None;
            },
        };
        out.push(t);
        proof {
            assert(views_of(out@) =~= views_of(out@.drop_last()).push(t@));
        }
        match expect(s, j2, ",\n") {
            Some(j3) => {
                proof {
                    reveal_strlit(",\n");
                    assert(sp_task_list(s@, j as int) == opt_prepend(
                        seq![t@],
                        sp_task_list(s@, j3 as int),
                    ));
                    assert(views_of(out@.drop_last()) + (seq![t@] + match sp_task_list(
                        s@,
                        j3 as int,
                    ) {
                        Some((ts, _)) => ts,
                        None => Seq::empty(),
                    }) =~= views_of(out@) + match sp_task_list(s@, j3 as int) {
                        Some((ts, _)) => ts,
                        None => Seq::empty(),
                    });
                }
                j = j3;
            },
            None => match expect(s, j2, "\n  ]") {
                Some(j3) => {
                    proof {
                        assert(sp_task_list(s@, j as int) == Some((seq![t@], j3 as int)));
                        assert(views_of(out@.drop_last()) + seq![t@] =~= views_of(out@));
                    }
                    return Some((out, j3));
                },
                None => {
                    return None;
                },
            },
        }
    }
}

fn parse_tasks(s: &str, i: usize) -> (r: Option<(Vec<Todo>, usize)>)
    ensures
        match r {
            Some((v, j)) => sp_tasks(s@, i as int) == Some((views_of(v@), j as int)) && j
                <= s@.len(),
            None => sp_tasks(s@, i as int) is None,
        },
{
    match expect(s, i, "[]") {
        Some(j) => {
            let v: Vec<Todo> = Vec::new();
            proof {
                assert(views_of(v@) =~= Seq::<TaskView>::empty());
            }
            Some((v, j))
        },
        None => match expect(s, i, "[\n") {
            Some(j) => parse_task_list(s, j),
            None => None,
        },
    }
}

/// Parses a persisted text, exactly as `sp_store` says: the store it denotes,
/// or nothing when the text is not a persisted store.
pub fn parse_store(s: &str) -> (r: Option<TodoStore>)
    ensures
        match r {
            Some(st) => sp_store(s@) == Some(st@),
            None => sp_store(s@) is None,
        },
{
    let i1 = match expect(s, 0, "{\n  \"next_id\": ") {
        Some(j) => j,
        None => {
            return None;
        },
    };
    let (next_id, i2) = match parse_u32(s, i1) {
        Some(x) => x,
        None => {
            return None;
        },
    };
    let i3 = match expect(s, i2, ",\n  \"tasks\": ") {
        Some(j) => j,
        None => {
            return None;
        },
    };
    let (todos, i4) = match parse_tasks(s, i3) {
        Some(x) => x,
        None => {
            return None;
        },
    };
    let i5 = match expect(s, i4, "\n}") {
        Some(j) => j,
        None => {
            return None;
        },
    };
    if i5 != s.unicode_len() {
        return None;
    }
    let st = TodoStore { next_id, todos };
    proof {
        assert(st@ =~= match sp_store(s@) {
            Some(sv) => sv,
            None => st@,
        });
    }
    Some(st)
}

fn print_task(t: &Todo, out: &mut String)
    ensures
        final(out)@ == old(out)@ + enc_task(t@),
{
    out.append("    {\n      \"id\": ");
    print_u32(t.id, out);
    out.append(",\n      \"title\": ");
    print_str(t.title.as_str(), out);
    out.append(",\n      \"completed\": ");
    if t.completed {
        out.append("true");
    } else {
        out.append("false");
    }
    out.append(",\n      \"priority\": ");
    let p = t.priority.text();
    print_str(p.as_str(), out);
    out.append(",\n      \"due_date\": ");
    match &t.due_date {
        Some(d) => print_str(d.as_str(), out),
        None => out.append("null"),
    }
    out.append(",\n      \"created_at\": ");
    print_str(t.created_at.as_str(), out);
    out.append("\n    }");
    proof {
        assert(out@ =~= old(out)@ + enc_task(t@));
    }
}

fn print_tasks(todos: &Vec<Todo>, out: &mut String)
    ensures
        final(out)@ == old(out)@ + enc_tasks(views_of(todos@)),
{
    let ghost ts = views_of(todos@);
    let n = todos.len();
    if n == 0 {
        out.append("[]");
        proof {
            assert(out@ =~= old(out)@ + enc_tasks(ts));
        }
        return ;
    }
    out.append("[\n");
    print_task(&todos[0], out);
    proof {
        assert(ts.subrange(1, 1).len() == 0);
        assert(out@ =~= old(out)@ + lit_open_list() + enc_task(ts[0]) + enc_tasks_rest(
            ts.subrange(1, 1),
        ));
    }
    let mut k: usize = 1;
    while k < n
        invariant
            1 <= k <= n,
            n == todos.len(),
            ts == views_of(todos@),
            ts.len() == n,
            out@ == old(out)@ + lit_open_list() + enc_task(ts[0]) + enc_tasks_rest(
                ts.subrange(1, k as int),
            ),
        decreases n - k,
    {
        out.append(",\n");
        print_task(&todos[k], out);
        proof {
            assert(ts.subrange(1, k + 1).drop_last() =~= ts.subrange(1, k as int));
            assert(ts.subrange(1, k + 1).last() == ts[k as int]);
            assert(out@ =~= old(out)@ + lit_open_list() + enc_task(ts[0]) + enc_tasks_rest(
                ts.subrange(1, k + 1),
            ));
        }
        k = k + 1;
    }
    out.append("\n  ]");
    proof {
        assert(ts.subrange(1, n as int) =~= ts.skip(1));
        assert(out@ =~= old(out)@ + enc_tasks(ts));
    }
}

/// Renders the persisted form of the store, exactly `enc_store` of its model.
pub fn save_store(store: &TodoStore) -> (r: String)
    ensures
        r@ == enc_store(store@),
{
    let mut out = String::new();
    out.append("{\n  \"next_id\": ");
    print_u32(store.next_id, &mut out);
    out.append(",\n  \"tasks\": ");
    print_tasks(&store.todos, &mut out);
    out.append("\n}");
    proof {
        assert(out@ =~= enc_store(store@));
    }
    out
}

proof fn lemma_sp_bool_complete(s: Seq<char>, i: int, b: bool)
    requires
        0 <= i,
        i + enc_bool(b).len() <= s.len(),
        s.subrange(i, i + enc_bool(b).len()) == enc_bool(b),
    ensures
        sp_bool(s, i) == Some((b, i + enc_bool(b).len())),
{
    reveal_strlit("true");
    reveal_strlit("false");
    if !b {
        lemma_subrange_chars(s, i, "false"@);
        assert(s[i + 0] == "false"@[0]);
        assert(s[i + 0] == 'f');
        if i + "true"@.len() <= s.len() && s.subrange(i, i + "true"@.len()) == "true"@ {
            lemma_subrange_chars(s, i, "true"@);
            assert(s[i + 0] == "true"@[0]);
            assert(s[i + 0] == 't');
            assert(false);
        }
    }
}

proof fn lemma_sp_prio_complete(s: Seq<char>, i: int, p: Priority)
    requires
        0 <= i,
        i + enc_str(prio_chars(p)).len() <= s.len(),
        s.subrange(i, i + enc_str(prio_chars(p)).len()) == enc_str(prio_chars(p)),
    ensures
        sp_prio(s, i) == Some((p, i + enc_str(prio_chars(p)).len())),
{
    lemma_sp_str_complete(s, i, prio_chars(p));
    reveal_strlit("high");
    reveal_strlit("medium");
    reveal_strlit("low");
    match p {
        Priority::High => {},
        Priority::Medium => {
            assert("medium"@.len() != "high"@.len());
        },
        Priority::Low => {
            assert("low"@.len() != "high"@.len());
            assert("low"@.len() != "medium"@.len());
        },
    }
}

proof fn lemma_sp_due_complete(s: Seq<char>, i: int, d: Option<Seq<char>>)
    requires
        0 <= i,
        i + enc_due(d).len() <= s.len(),
        s.subrange(i, i + enc_due(d).len()) == enc_due(d),
    ensures
        sp_due(s, i) == Some((d, i + enc_due(d).len())),
{
    reveal_strlit("null");
    match d {
        None => {},
        Some(v) => {
            lemma_sp_str_complete(s, i, v);
            lemma_subrange_chars(s, i, enc_str(v));
            assert(s[i + 0] == enc_str(v)[0]);
            assert(enc_str(v)[0] == '"');
            if i + "null"@.len() <= s.len() && s.subrange(i, i + "null"@.len()) == "null"@ {
                lemma_subrange_chars(s, i, "null"@);
                assert(s[i + 0] == 'n');
                assert(false);
            }
        },
    }
}

#[verifier::rlimit(60)]
#[verifier::spinoff_prover]
proof fn lemma_sp_task_complete(s: Seq<char>, i: int, t: TaskView)
    requires
        0 <= i,
        i + enc_task(t).len() <= s.len(),
        s.subrange(i, i + enc_task(t).len()) == enc_task(t),
    ensures
        sp_task(s, i) == Some((t, i + enc_task(t).len())),
{
    let a = enc_u32(t.id);
    let b = enc_str(t.title);
    let c = enc_bool(t.completed);
    let d = enc_str(prio_chars(t.priority));
    let e = enc_due(t.due_date);
    let f = enc_str(t.created_at);
    let r13 = lit_t7();
    let r12 = f + r13;
    let r11 = lit_t6() + r12;
    let r10 = e + r11;
    let r9 = lit_t5() + r10;
    let r8 = d + r9;
    let r7 = lit_t4() + r8;
    let r6 = c + r7;
    let r5 = lit_t3() + r6;
    let r4 = b + r5;
    let r3 = lit_t2() + r4;
    let r2 = a + r3;
    assert(enc_task(t) =~= lit_t1() + r2);
    lemma_lit_split(s, i, lit_t1(), r2);
    let i1 = i + lit_t1().len();
    lemma_lit_split(s, i1, a, r3);
    let i2 = i1 + a.len();
    reveal_strlit(",\n      \"title\": ");
    lemma_subrange_chars(s, i2, r3);
    assert(s[i2 + 0] == r3[0]);
    assert(r3[0] == lit_t2()[0]);
    assert(s[i2] == ',');
    lemma_sp_u32_complete(s, i1, t.id);
    lemma_lit_split(s, i2, lit_t2(), r4);
    let i3 = i2 + lit_t2().len();
    lemma_lit_split(s, i3, b, r5);
    let i4 = i3 + b.len();
    lemma_sp_str_complete(s, i3, t.title);
    lemma_lit_split(s, i4, lit_t3(), r6);
    let i5 = i4 + lit_t3().len();
    lemma_lit_split(s, i5, c, r7);
    let i6 = i5 + c.len();
    lemma_sp_bool_complete(s, i5, t.completed);
    lemma_lit_split(s, i6, lit_t4(), r8);
    let i7 = i6 + lit_t4().len();
    lemma_lit_split(s, i7, d, r9);
    let i8 = i7 + d.len();
    lemma_sp_prio_complete(s, i7, t.priority);
    lemma_lit_split(s, i8, lit_t5(), r10);
    let i9 = i8 + lit_t5().len();
    lemma_lit_split(s, i9, e, r11);
    let i10 = i9 + e.len();
    lemma_sp_due_complete(s, i9, t.due_date);
    lemma_lit_split(s, i10, lit_t6(), r12);
    let i11 = i10 + lit_t6().len();
    lemma_lit_split(s, i11, f, r13);
    let i12 = i11 + f.len();
    lemma_sp_str_complete(s, i11, t.created_at);
    let i13 = i12 + lit_t7().len();
    assert(sp_task(s, i) == Some(
        (
            TaskView {
                id: t.id,
                title: t.title,
                completed: t.completed,
                priority: t.priority,
                due_date: t.due_date,
                created_at: t.created_at,
            },
            i13,
        ),
    ));
    assert(TaskView {
        id: t.id,
        title: t.title,
        completed: t.completed,
        priority: t.priority,
        due_date: t.due_date,
        created_at: t.created_at,
    } =~= t);
}

proof fn lemma_enc_tasks_rest_first(ts: Seq<TaskView>)
    requires
        ts.len() > 0,
    ensures
        enc_tasks_rest(ts) == lit_sep() + enc_task(ts[0]) + enc_tasks_rest(ts.skip(1)),
    decreases ts.len(),
{
    if ts.len() == 1 {
        assert(ts.drop_last().len() == 0);
        assert(ts.skip(1).len() == 0);
        assert(enc_tasks_rest(ts.drop_last()) == Seq::<char>::empty());
        assert(enc_tasks_rest(ts.skip(1)) == Seq::<char>::empty());
        assert(ts.last() == ts[0]);
        assert(enc_tasks_rest(ts) =~= lit_sep() + enc_task(ts[0]) + enc_tasks_rest(ts.skip(1)));
    } else {
        let dl = ts.drop_last();
        lemma_enc_tasks_rest_first(dl);
        assert(dl[0] == ts[0]);
        assert(ts.skip(1).drop_last() =~= dl.skip(1));
        assert(ts.skip(1).last() == ts.last());
        assert(ts.skip(1).len() > 0);
        assert(enc_tasks_rest(ts.skip(1)) == enc_tasks_rest(dl.skip(1)) + lit_sep() + enc_task(
            ts.last(),
        ));
        assert(enc_tasks_rest(ts) =~= lit_sep() + enc_task(ts[0]) + enc_tasks_rest(ts.skip(1)));
    }
}

#[verifier::rlimit(60)]
#[verifier::spinoff_prover]
proof fn lemma_sp_task_list_complete(s: Seq<char>, i: int, ts: Seq<TaskView>)
    requires
        0 <= i,
        ts.len() >= 1,
        i + enc_task(ts[0]).len() + enc_tasks_rest(ts.skip(1)).len() + lit_close_list().len()
            <= s.len(),
        s.subrange(
            i,
            i + enc_task(ts[0]).len() + enc_tasks_rest(ts.skip(1)).len() + lit_close_list().len(),
        ) == enc_task(ts[0]) + enc_tasks_rest(ts.skip(1)) + lit_close_list(),
    ensures
        sp_task_list(s, i) == Some(
            (
                ts,
                i + enc_task(ts[0]).len() + enc_tasks_rest(ts.skip(1)).len()
                    + lit_close_list().len(),
            ),
        ),
    decreases ts.len(),
{
    reveal_strlit("    {\n      \"id\": ");
    reveal_strlit(",\n");
    reveal_strlit("\n  ]");
    let a = enc_task(ts[0]);
    let rest = enc_tasks_rest(ts.skip(1));
    let close = lit_close_list();
    assert(a + rest + close =~= a + (rest + close));
    lemma_lit_split(s, i, a, rest + close);
    lemma_sp_task_complete(s, i, ts[0]);
    let j = i + a.len();
    assert(a.len() > 0);
    if ts.len() == 1 {
        assert(ts.skip(1).len() == 0);
        assert(rest.len() == 0);
        assert(rest + close =~= close);
        lemma_subrange_chars(s, j, rest + close);
        assert(s[j + 0] == close[0]);
        assert(s[j] == '\n');
        if 0 <= j && j + lit_sep().len() <= s.len() && s.subrange(j, j + lit_sep().len())
            == lit_sep() {
            lemma_subrange_chars(s, j, lit_sep());
            assert(s[j + 0] == ',');
            assert(false);
        }
        assert(sp_lit(s, j, close) == Some(j + close.len()));
        assert(seq![ts[0]] =~= ts);
    } else {
        let r = ts.skip(1);
        assert(r.len() > 0);
        lemma_enc_tasks_rest_first(r);
        assert(r.skip(1) =~= ts.skip(2));
        let body = enc_task(r[0]) + enc_tasks_rest(r.skip(1)) + close;
        assert(rest + close =~= lit_sep() + body);
        lemma_lit_split(s, j, lit_sep(), body);
        let k = j + lit_sep().len();
        assert(k > j);
        lemma_sp_task_list_complete(s, k, r);
        assert(seq![ts[0]] + r =~= ts);
    }
}

proof fn lemma_sp_tasks_complete(s: Seq<char>, i: int, ts: Seq<TaskView>)
    requires
        0 <= i,
        i + enc_tasks(ts).len() <= s.len(),
        s.subrange(i, i + enc_tasks(ts).len()) == enc_tasks(ts),
    ensures
        sp_tasks(s, i) == Some((ts, i + enc_tasks(ts).len())),
{
    reveal_strlit("[]");
    reveal_strlit("[\n");
    if ts.len() == 0 {
        assert(Seq::<TaskView>::empty() =~= ts);
    } else {
        let body = enc_task(ts[0]) + enc_tasks_rest(ts.skip(1)) + lit_close_list();
        assert(enc_tasks(ts) =~= lit_open_list() + body);
        lemma_lit_split(s, i, lit_open_list(), body);
        lemma_subrange_chars(s, i, lit_open_list());
        assert(s[i + 1] == lit_open_list()[1]);
        assert(s[i + 1] == '\n');
        if 0 <= i && i + lit_empty_list().len() <= s.len() && s.subrange(
            i,
            i + lit_empty_list().len(),
        ) == lit_empty_list() {
            lemma_subrange_chars(s, i, lit_empty_list());
            assert(s[i + 1] == lit_empty_list()[1]);
            assert(s[i + 1] == ']');
            assert(false);
        }
        lemma_sp_task_list_complete(s, i + 2, ts);
    }
}

/// Law: the persisted text of any store parses back to exactly that store,
/// so saving and loading round-trips.
#[verifier::rlimit(60)]
#[verifier::spinoff_prover]
pub proof fn lemma_save_load_round_trip(st: StoreView)
    ensures
        sp_store(enc_store(st)) == Some(st),
{
    let s = enc_store(st);
    let a1 = lit_s1();
    let a2 = enc_u32(st.next_id);
    let a3 = lit_s2();
    let a4 = enc_tasks(st.tasks);
    let a5 = lit_s3();
    assert(s.subrange(0, s.len() as int) =~= s);
    assert(s =~= a1 + (a2 + (a3 + (a4 + a5))));
    lemma_lit_split(s, 0, a1, a2 + (a3 + (a4 + a5)));
    let i1 = a1.len() as int;
    lemma_lit_split(s, i1, a2, a3 + (a4 + a5));
    let i2 = i1 + a2.len();
    reveal_strlit(",\n  \"tasks\": ");
    lemma_subrange_chars(s, i2, a3 + (a4 + a5));
    assert(s[i2 + 0] == (a3 + (a4 + a5))[0]);
    assert((a3 + (a4 + a5))[0] == a3[0]);
    assert(s[i2] == ',');
    lemma_sp_u32_complete(s, i1, st.next_id);
    lemma_lit_split(s, i2, a3, a4 + a5);
    let i3 = i2 + a3.len();
    lemma_lit_split(s, i3, a4, a5);
    let i4 = i3 + a4.len();
    lemma_sp_tasks_complete(s, i3, st.tasks);
    let i5 = i4 + a5.len();
    assert(i5 == s.len());
    assert(StoreView { next_id: st.next_id, tasks: st.tasks } =~= st);
}

/// Loads a store from persisted content: absent content, or content that is
/// not a persisted store, yields a fresh store with `next_id` 1 and no tasks.
pub fn load_store(content: Option<&str>) -> (r: TodoStore)
    ensures
        match content {
            None => r@ == empty_store_view(),
            Some(s) => match sp_store(s@) {
                Some(st) => r@ == st,
                None => r@ == empty_store_view(),
            },
        },
{
    match content {
        None => empty_store(),
        Some(s) => match parse_store(s) {
            Some(st) => st,
            None => empty_store(),
        },
    }
}

} // verus!
