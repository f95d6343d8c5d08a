//! The task store: an ordered collection of todo items and a monotonic id
//! counter, with the four operations add / mark done / remove / filter.

use vstd::prelude::*;

verus! {

/// Priority level attached to a task; display-only.
#[derive(Clone, Copy, PartialEq, Eq, Structural, Debug)]
pub enum Priority {
    High,
    Medium,
    Low,
}

/// Which tasks a listing shows.
#[derive(Clone, Copy, PartialEq, Eq, Structural, Debug)]
pub enum ListFilter {
    All,
    Done,
    Pending,
}

/// A single todo item.
pub struct Todo {
    pub id: u32,
    pub title: String,
    pub completed: bool,
    pub priority: Priority,
    pub due_date: Option<String>,
    pub created_at: String,
}

/// The store: tasks in insertion order plus the next id to assign.
pub struct TodoStore {
    pub next_id: u32,
    pub todos: Vec<Todo>,
}

/// Mathematical model of a task: the same fields over sequences of characters.
#[verifier::ext_equal]
pub struct TaskView {
    pub id: u32,
    pub title: Seq<char>,
    pub completed: bool,
    pub priority: Priority,
    pub due_date: Option<Seq<char>>,
    pub created_at: Seq<char>,
}

/// Mathematical model of the store.
#[verifier::ext_equal]
pub struct StoreView {
    pub next_id: u32,
    pub tasks: Seq<TaskView>,
}

pub open spec fn opt_str_view(d: Option<String>) -> Option<Seq<char>> {
    match d {
        Some(s) => Some(s@),
        None => None,
    }
}

impl View for Todo {
    type V = TaskView;

    open spec fn view(&self) -> TaskView {
        TaskView {
            id: self.id,
            title: self.title@,
            completed: self.completed,
            priority: self.priority,
            due_date: opt_str_view(self.due_date),
            created_at: self.created_at@,
        }
    }
}

pub open spec fn views_of(ts: Seq<Todo>) -> Seq<TaskView> {
    ts.map_values(|t: Todo| t@)
}

impl View for TodoStore {
    type V = StoreView;

    open spec fn view(&self) -> StoreView {
        StoreView { next_id: self.next_id, tasks: views_of(self.todos@) }
    }
}

/// The task created by an add that assigns `id`.
pub open spec fn new_task(
    id: u32,
    title: Seq<char>,
    priority: Priority,
    due: Option<Seq<char>>,
    created: Seq<char>,
) -> TaskView {
    TaskView { id, title, completed: false, priority, due_date: due, created_at: created }
}

/// `t` with its completion flag set.
pub open spec fn done_task(t: TaskView) -> TaskView {
    TaskView { completed: true, ..t }
}

/// Some task in `ts` carries `id`.
pub open spec fn has_id(ts: Seq<TaskView>, id: u32) -> bool {
    exists|i: int| 0 <= i < ts.len() && #[trigger] ts[i].id == id
}

/// Index of the first task carrying `id`, or -1 if none does.
pub open spec fn first_match(ts: Seq<TaskView>, id: u32) -> int
    decreases ts.len(),
{
    if ts.len() == 0 {
        -1
    } else if ts[0].id == id {
        0
    } else if first_match(ts.skip(1), id) < 0 {
        -1
    } else {
        first_match(ts.skip(1), id) + 1
    }
}

/// The task sequence after marking the first task carrying `id` as done;
/// unchanged when no task carries it.
pub open spec fn spec_mark_done(ts: Seq<TaskView>, id: u32) -> Seq<TaskView> {
    let i = first_match(ts, id);
    if i < 0 {
        ts
    } else {
        ts.update(i, done_task(ts[i]))
    }
}

/// The task sequence with every task carrying `id` taken out, order kept.
pub open spec fn remove_id(ts: Seq<TaskView>, id: u32) -> Seq<TaskView>
    decreases ts.len(),
{
    if ts.len() == 0 {
        Seq::empty()
    } else if ts.last().id == id {
        remove_id(ts.drop_last(), id)
    } else {
        remove_id(ts.drop_last(), id).push(ts.last())
    }
}

pub open spec fn matches_filter(t: TaskView, f: ListFilter) -> bool {
    match f {
        ListFilter::All => true,
        ListFilter::Done => t.completed,
        ListFilter::Pending => !t.completed,
    }
}

/// The tasks of `ts` that match `f`, in order.
pub open spec fn filter_tasks(ts: Seq<TaskView>, f: ListFilter) -> Seq<TaskView>
    decreases ts.len(),
{
    if ts.len() == 0 {
        Seq::empty()
    } else if matches_filter(ts.last(), f) {
        filter_tasks(ts.drop_last(), f).push(ts.last())
    } else {
        filter_tasks(ts.drop_last(), f)
    }
}

impl StoreView {
    /// A store is well formed when its counter is positive, exceeds every
    /// task id, and no two tasks share an id.
    pub open spec fn wf(self) -> bool {
        &&& self.next_id >= 1
        &&& forall|i: int| 0 <= i < self.tasks.len() ==> #[trigger] self.tasks[i].id < self.next_id
        &&& forall|i: int, j: int|
            #![trigger self.tasks[i].id, self.tasks[j].id]
            0 <= i < j < self.tasks.len() ==> self.tasks[i].id != self.tasks[j].id
    }

    /// The store after an add that assigns `self.next_id`.
    pub open spec fn with_added(
        self,
        title: Seq<char>,
        priority: Priority,
        due: Option<Seq<char>>,
        created: Seq<char>,
    ) -> StoreView {
        StoreView {
            next_id: (self.next_id + 1) as u32,
            tasks: self.tasks.push(new_task(self.next_id, title, priority, due, created)),
        }
    }
}

/// A fresh store: counter at 1, no tasks.
pub open spec fn empty_store_view() -> StoreView {
    StoreView { next_id: 1, tasks: Seq::empty() }
}

/// Returns a fresh store with `next_id` 1 and no tasks.
pub fn empty_store() -> (s: TodoStore)
    ensures
        s@ == empty_store_view(),
{
    let s = TodoStore { next_id: 1, todos: Vec::new() };
    proof {
        assert(s@.tasks =~= empty_store_view().tasks);
    }
    s
}

/// Relies on chrono's `Local::now` and `DateTime::format`: "%Y-%m-%d" renders
/// the current local date as the zero-padded year, month and day separated by
/// '-', which is at least ten characters.
#[verifier::external_body]
fn today_string() -> (r: String)
    ensures
        r@.len() >= 10,
{
    chrono::Local::now().format("%Y-%m-%d").to_string()
}

/// Appends a task with the given fields and creation date, assigning the id
/// `next_id` and advancing the counter.
pub fn add_todo_at(
    store: &mut TodoStore,
    title: String,
    priority: Priority,
    due: Option<String>,
    created_at: String,
) -> (id: u32)
    requires
        old(store).next_id < u32::MAX,
    ensures
        id == old(store)@.next_id,
        final(store)@ == old(store)@.with_added(title@, priority, opt_str_view(due), created_at@),
{
    let id = store.next_id;
    store.next_id = store.next_id + 1;
    let todo = Todo { id, title, completed: false, priority, due_date: due, created_at };
    store.todos.push(todo);
    proof {
        assert(store@.tasks =~= old(store)@.with_added(
            todo.title@,
            priority,
            opt_str_view(todo.due_date),
            todo.created_at@,
        ).tasks);
    }
    id
}

/// Appends a task dated today, assigning the id `next_id` and advancing the
/// counter. The creation date comes from the system clock, so the contract
/// fixes every field but that one.
pub fn add_todo(
    store: &mut TodoStore,
    title: String,
    priority: Priority,
    due: Option<String>,
) -> (id: u32)
    requires
        old(store).next_id < u32::MAX,
    ensures
        id == old(store)@.next_id,
        exists|created: Seq<char>|
            final(store)@ == old(store)@.with_added(title@, priority, opt_str_view(due), created),
{
    let created_at = today_string();
    let ghost c = created_at@;
    let id = add_todo_at(store, title, priority, due, created_at);
    proof {
        assert(store@ == old(store)@.with_added(title@, priority, opt_str_view(due), c));
    }
    id
}

proof fn lemma_first_match_at(ts: Seq<TaskView>, id: u32, i: int)
    requires
        0 <= i < ts.len(),
        ts[i].id == id,
        forall|j: int| 0 <= j < i ==> #[trigger] ts[j].id != id,
    ensures
        first_match(ts, id) == i,
    decreases i,
{
    if i == 0 {
    } else {
        assert(ts[0].id != id);
        assert forall|j: int| 0 <= j < i - 1 implies #[trigger] ts.skip(1)[j].id != id by {
            assert(ts.skip(1)[j] == ts[j + 1]);
        }
        assert(ts.skip(1)[i - 1] == ts[i]);
        lemma_first_match_at(ts.skip(1), id, i - 1);
    }
}

proof fn lemma_first_match_none(ts: Seq<TaskView>, id: u32)
    requires
        forall|j: int| 0 <= j < ts.len() ==> #[trigger] ts[j].id != id,
    ensures
        first_match(ts, id) == -1,
    decreases ts.len(),
{
    if ts.len() > 0 {
        assert forall|j: int| 0 <= j < ts.len() - 1 implies #[trigger] ts.skip(1)[j].id != id by {
            assert(ts.skip(1)[j] == ts[j + 1]);
        }
        lemma_first_match_none(ts.skip(1), id);
    }
}

proof fn lemma_first_match_props(ts: Seq<TaskView>, id: u32)
    ensures
        first_match(ts, id) == -1 || 0 <= first_match(ts, id) < ts.len(),
        first_match(ts, id) >= 0 ==> ts[first_match(ts, id)].id == id,
        first_match(ts, id) >= 0 ==> forall|j: int|
            0 <= j < first_match(ts, id) ==> #[trigger] ts[j].id != id,
        first_match(ts, id) == -1 ==> forall|j: int|
            0 <= j < ts.len() ==> #[trigger] ts[j].id != id,
    decreases ts.len(),
{
    if ts.len() == 0 {
    } else if ts[0].id == id {
    } else {
        lemma_first_match_props(ts.skip(1), id);
        if first_match(ts, id) >= 0 {
            assert forall|j: int| 0 <= j < first_match(ts, id) implies #[trigger] ts[j].id != id by {
                if j >= 1 {
                    assert(ts.skip(1)[j - 1] == ts[j]);
                }
            }
        } else {
            assert forall|j: int| 0 <= j < ts.len() implies #[trigger] ts[j].id != id by {
                if j >= 1 {
                    assert(ts.skip(1)[j - 1] == ts[j]);
                }
            }
        }
    }
}

/// Law: a fresh store is well formed — the base case of the store invariant,
/// which the operations below preserve.
pub proof fn lemma_empty_store_wf()
    ensures
        empty_store_view().wf(),
{
}

/// Law: successive adds assign strictly increasing ids — each add hands out
/// the current counter and leaves the counter above it — and a fresh store
/// assigns 1 first.
pub proof fn lemma_add_ids_strictly_increasing(
    s: StoreView,
    t1: Seq<char>,
    p1: Priority,
    d1: Option<Seq<char>>,
    c1: Seq<char>,
    t2: Seq<char>,
    p2: Priority,
    d2: Option<Seq<char>>,
    c2: Seq<char>,
)
    requires
        s.next_id + 1 < u32::MAX,
    ensures
        ({
            let s1 = s.with_added(t1, p1, d1, c1);
            let s2 = s1.with_added(t2, p2, d2, c2);
            &&& s1.tasks.last().id == s.next_id
            &&& s2.tasks.last().id == s.next_id + 1
            &&& s2.tasks.last().id > s1.tasks.last().id
            &&& s1.next_id > s1.tasks.last().id
            &&& s2.next_id > s2.tasks.last().id
            &&& (s == empty_store_view() ==> s1.tasks.last().id == 1)
        }),
{
}

/// One add request: the fields a caller hands to an add.
pub struct AddReq {
    pub title: Seq<char>,
    pub priority: Priority,
    pub due: Option<Seq<char>>,
    pub created: Seq<char>,
}

/// The store after a whole sequence of adds, first request first.
pub open spec fn apply_adds(s: StoreView, reqs: Seq<AddReq>) -> StoreView
    decreases reqs.len(),
{
    if reqs.len() == 0 {
        s
    } else {
        apply_adds(
            s.with_added(reqs[0].title, reqs[0].priority, reqs[0].due, reqs[0].created),
            reqs.skip(1),
        )
    }
}

/// Law: over any sequence of adds the assigned ids are consecutive from the
/// starting counter — from a fresh store, 1, 2, 3, ... — the earlier tasks
/// stay as they were, and the counter ends above every assigned id.
pub proof fn lemma_adds_assign_consecutive_ids(s: StoreView, reqs: Seq<AddReq>)
    requires
        s.next_id + reqs.len() <= u32::MAX,
    ensures
        ({
            let s1 = apply_adds(s, reqs);
            &&& s1.next_id == s.next_id + reqs.len()
            &&& s1.tasks.len() == s.tasks.len() + reqs.len()
            &&& forall|k: int|
                0 <= k < reqs.len() ==> #[trigger] s1.tasks[s.tasks.len() + k].id == s.next_id + k
            &&& s1.tasks.subrange(0, s.tasks.len() as int) == s.tasks
        }),
    decreases reqs.len(),
{
    let s1 = apply_adds(s, reqs);
    if reqs.len() == 0 {
        assert(s1.tasks.subrange(0, s.tasks.len() as int) =~= s.tasks);
    } else {
        let s2 = s.with_added(reqs[0].title, reqs[0].priority, reqs[0].due, reqs[0].created);
        lemma_adds_assign_consecutive_ids(s2, reqs.skip(1));
        assert(s2.tasks.len() == s.tasks.len() + 1);
        assert(s1.tasks.subrange(0, s2.tasks.len() as int) == s2.tasks);
        assert forall|k: int|
            0 <= k < reqs.len() implies #[trigger] s1.tasks[s.tasks.len() + k].id == s.next_id
            + k by {
            if k == 0 {
                assert(s1.tasks.subrange(0, s2.tasks.len() as int)[s.tasks.len() as int]
                    == s1.tasks[s.tasks.len() as int]);
                assert(s2.tasks[s.tasks.len() as int].id == s.next_id);
            } else {
                assert(s1.tasks[s2.tasks.len() + (k - 1)].id == s2.next_id + (k - 1));
            }
        }
        assert forall|j: int|
            0 <= j < s.tasks.len() implies s1.tasks.subrange(0, s.tasks.len() as int)[j]
            == s.tasks[j] by {
            assert(s1.tasks.subrange(0, s2.tasks.len() as int)[j] == s1.tasks[j]);
            assert(s2.tasks[j] == s.tasks[j]);
            assert(s1.tasks.subrange(0, s.tasks.len() as int)[j] == s1.tasks[j]);
        }
        assert(s1.tasks.subrange(0, s.tasks.len() as int) =~= s.tasks);
    }
}

/// Law: an add preserves well-formedness; in particular `next_id` stays above
/// every id in the store, the new one included.
pub proof fn lemma_add_preserves_wf(
    s: StoreView,
    title: Seq<char>,
    p: Priority,
    d: Option<Seq<char>>,
    c: Seq<char>,
)
    requires
        s.wf(),
        s.next_id < u32::MAX,
    ensures
        s.with_added(title, p, d, c).wf(),
{
    let s1 = s.with_added(title, p, d, c);
    assert forall|i: int| 0 <= i < s1.tasks.len() implies #[trigger] s1.tasks[i].id < s1.next_id by {
        if i < s.tasks.len() {
            assert(s.tasks[i].id < s.next_id);
        }
    }
    assert forall|i: int, j: int|
        #![trigger s1.tasks[i].id, s1.tasks[j].id]
        0 <= i < j < s1.tasks.len() implies s1.tasks[i].id != s1.tasks[j].id by {
        if j < s.tasks.len() {
            assert(s.tasks[i].id != s.tasks[j].id);
        } else {
            assert(s.tasks[i].id < s.next_id);
        }
    }
}

/// Law: right after an add, the pending filter includes the new task, whose
/// completion flag is down.
pub proof fn lemma_added_task_is_pending(
    s: StoreView,
    title: Seq<char>,
    p: Priority,
    d: Option<Seq<char>>,
    c: Seq<char>,
)
    ensures
        ({
            let pending = filter_tasks(s.with_added(title, p, d, c).tasks, ListFilter::Pending);
            &&& pending.len() > 0
            &&& pending.last() == new_task(s.next_id, title, p, d, c)
            &&& !pending.last().completed
        }),
{
    let s1 = s.with_added(title, p, d, c);
    assert(s1.tasks.drop_last() =~= s.tasks);
    assert(s1.tasks.last() == new_task(s.next_id, title, p, d, c));
}

/// Law: completing an existing id is idempotent — the repeated call finds the
/// task again, its flag stays up, and the tasks do not change further.
pub proof fn lemma_mark_done_idempotent(ts: Seq<TaskView>, id: u32)
    requires
        has_id(ts, id),
    ensures
        ({
            let ts1 = spec_mark_done(ts, id);
            &&& has_id(ts1, id)
            &&& 0 <= first_match(ts, id) < ts.len()
            &&& ts1[first_match(ts, id)].completed
            &&& spec_mark_done(ts1, id) == ts1
        }),
{
    lemma_first_match_props(ts, id);
    let i = first_match(ts, id);
    let ts1 = spec_mark_done(ts, id);
    assert(ts1[i].id == id);
    assert(has_id(ts1, id));
    assert forall|j: int| 0 <= j < i implies #[trigger] ts1[j].id != id by {
        assert(ts1[j] == ts[j]);
    }
    lemma_first_match_at(ts1, id, i);
    assert(ts1.update(i, done_task(ts1[i])) =~= ts1);
}

/// Law: completing or removing an id that no task carries leaves the tasks
/// exactly as they were.
pub proof fn lemma_missing_id_leaves_tasks_unchanged(ts: Seq<TaskView>, id: u32)
    requires
        !has_id(ts, id),
    ensures
        spec_mark_done(ts, id) == ts,
        remove_id(ts, id) == ts,
{
    assert forall|j: int| 0 <= j < ts.len() implies #[trigger] ts[j].id != id by {
        if ts[j].id == id {
            assert(has_id(ts, id));
        }
    }
    lemma_first_match_none(ts, id);
    lemma_remove_id_absent(ts, id);
}

proof fn lemma_remove_id_absent(ts: Seq<TaskView>, id: u32)
    requires
        forall|j: int| 0 <= j < ts.len() ==> #[trigger] ts[j].id != id,
    ensures
        remove_id(ts, id) == ts,
    decreases ts.len(),
{
    if ts.len() > 0 {
        lemma_remove_id_absent(ts.drop_last(), id);
        assert(ts.last().id != id);
        assert(remove_id(ts, id) =~= ts);
    }
}

/// Law: in a store with no two ids alike, removing an existing id takes out
/// exactly one task and keeps the relative order of the rest.
pub proof fn lemma_remove_removes_exactly_one(ts: Seq<TaskView>, id: u32)
    requires
        forall|i: int, j: int|
            #![trigger ts[i].id, ts[j].id]
            0 <= i < j < ts.len() ==> ts[i].id != ts[j].id,
        has_id(ts, id),
    ensures
        ({
            let i = first_match(ts, id);
            &&& 0 <= i < ts.len()
            &&& ts[i].id == id
            &&& remove_id(ts, id) == ts.subrange(0, i) + ts.subrange(i + 1, ts.len() as int)
            &&& remove_id(ts, id).len() == ts.len() - 1
        }),
    decreases ts.len(),
{
    lemma_first_match_props(ts, id);
    let i = first_match(ts, id);
    let n = ts.len() as int;
    let dl = ts.drop_last();
    if ts.last().id == id {
        assert(i == n - 1) by {
            if i < n - 1 {
                assert(ts[i].id != ts[n - 1].id);
            }
        }
        assert forall|j: int| 0 <= j < dl.len() implies #[trigger] dl[j].id != id by {
            assert(dl[j] == ts[j]);
            if ts[j].id == id {
                assert(ts[j].id != ts[n - 1].id);
            }
        }
        lemma_remove_id_absent(dl, id);
        assert(remove_id(ts, id) =~= ts.subrange(0, i) + ts.subrange(i + 1, n));
    } else {
        assert(i < n - 1) by {
            assert(ts[i].id == id);
        }
        assert forall|a: int, b: int|
            #![trigger dl[a].id, dl[b].id]
            0 <= a < b < dl.len() implies dl[a].id != dl[b].id by {
            assert(dl[a] == ts[a] && dl[b] == ts[b]);
        }
        assert(dl[i].id == id);
        assert(has_id(dl, id));
        lemma_remove_removes_exactly_one(dl, id);
        assert(first_match(dl, id) == i) by {
            assert forall|j: int| 0 <= j < i implies #[trigger] dl[j].id != id by {
                assert(dl[j] == ts[j]);
            }
            lemma_first_match_at(dl, id, i);
        }
        assert(remove_id(ts, id) == remove_id(dl, id).push(ts.last()));
        assert(remove_id(ts, id) =~= ts.subrange(0, i) + ts.subrange(i + 1, n));
    }
}

/// Law: marking a task done never touches an id, so it preserves
/// well-formedness.
pub proof fn lemma_mark_done_preserves_wf(s: StoreView, id: u32)
    requires
        s.wf(),
    ensures
        (StoreView { next_id: s.next_id, tasks: spec_mark_done(s.tasks, id) }).wf(),
{
    lemma_first_match_props(s.tasks, id);
    let ts1 = spec_mark_done(s.tasks, id);
    assert(ts1.len() == s.tasks.len());
    assert forall|k: int| 0 <= k < ts1.len() implies #[trigger] ts1[k].id == s.tasks[k].id by {}
    assert forall|i: int, j: int|
        #![trigger ts1[i].id, ts1[j].id]
        0 <= i < j < ts1.len() implies ts1[i].id != ts1[j].id by {
        assert(s.tasks[i].id != s.tasks[j].id);
    }
}

/// Law: removing an id preserves well-formedness.
pub proof fn lemma_remove_preserves_wf(s: StoreView, id: u32)
    requires
        s.wf(),
    ensures
        (StoreView { next_id: s.next_id, tasks: remove_id(s.tasks, id) }).wf(),
{
    if has_id(s.tasks, id) {
        lemma_remove_removes_exactly_one(s.tasks, id);
        let i = first_match(s.tasks, id);
        let ts1 = remove_id(s.tasks, id);
        assert forall|k: int| 0 <= k < ts1.len() implies #[trigger] ts1[k].id < s.next_id by {
            if k < i {
                assert(ts1[k] == s.tasks[k]);
            } else {
                assert(ts1[k] == s.tasks[k + 1]);
            }
        }
        assert forall|a: int, b: int|
            #![trigger ts1[a].id, ts1[b].id]
            0 <= a < b < ts1.len() implies ts1[a].id != ts1[b].id by {
            let a0: int = if a < i { a } else { a + 1 };
            let b0: int = if b < i { b } else { b + 1 };
            assert(ts1[a] == s.tasks[a0] && ts1[b] == s.tasks[b0]);
            assert(s.tasks[a0].id != s.tasks[b0].id);
        }
    } else {
        lemma_missing_id_leaves_tasks_unchanged(s.tasks, id);
    }
}

/// Marks the first task carrying `id` as done; reports whether one was found
/// and touches nothing else.
pub fn mark_done(store: &mut TodoStore, id: u32) -> (found: bool)
    ensures
        found == has_id(old(store)@.tasks, id),
        final(store)@.next_id == old(store)@.next_id,
        final(store)@.tasks == spec_mark_done(old(store)@.tasks, id),
{
    let n = store.todos.len();
    let mut i: usize = 0;
    while i < n
        invariant
            n == store.todos.len(),
            *store == *old(store),
            i <= n,
            forall|j: int| 0 <= j < i ==> #[trigger] store@.tasks[j].id != id,
        decreases n - i,
    {
        if store.todos[i].id == id {
            proof {
                lemma_first_match_at(store@.tasks, id, i as int);
            }
            store.todos[i].completed = true;
            proof {
                assert(store@.tasks =~= spec_mark_done(old(store)@.tasks, id));
            }
            return true;
        }
        i = i + 1;
    }
    proof {
        lemma_first_match_none(store@.tasks, id);
    }
    false
}

fn clone_todo(t: &Todo) -> (r: Todo)
    ensures
        r@ == t@,
{
    Todo {
        id: t.id,
        title: t.title.clone(),
        completed: t.completed,
        priority: t.priority,
        due_date: match &t.due_date {
            Some(d) => Some(d.clone()),
            None => None,
        },
        created_at: t.created_at.clone(),
    }
}

/// Removes every task carrying `id` (at most one in a well-formed store),
/// keeping the relative order of the rest; reports whether any was removed.
pub fn remove_todo(store: &mut TodoStore, id: u32) -> (removed: bool)
    ensures
        removed == has_id(old(store)@.tasks, id),
        final(store)@.next_id == old(store)@.next_id,
        final(store)@.tasks == remove_id(old(store)@.tasks, id),
{
    let ghost ts = store@.tasks;
    let n = store.todos.len();
    let mut kept: Vec<Todo> = Vec::new();
    let mut found = false;
    let mut i: usize = 0;
    while i < n
        invariant
            n == store.todos.len(),
            *store == *old(store),
            ts == store@.tasks,
            i <= n,
            views_of(kept@) == remove_id(ts.take(i as int), id),
            found == has_id(ts.take(i as int), id),
        decreases n - i,
    {
        let t = &store.todos[i];
        proof {
            assert(ts.take(i + 1).drop_last() =~= ts.take(i as int));
            assert(ts.take(i + 1).last() == ts[i as int]);
        }
        if t.id == id {
            found = true;
            proof {
                assert(ts.take(i + 1)[i as int].id == id);
            }
        } else {
            let c = clone_todo(t);
            kept.push(c);
            proof {
                assert(views_of(kept@) =~= remove_id(ts.take(i + 1), id));
            }
        }
        proof {
            if has_id(ts.take(i + 1), id) && !has_id(ts.take(i as int), id) {
                let w = choose|k: int|
                    0 <= k < ts.take(i + 1).len() && #[trigger] ts.take(i + 1)[k].id == id;
                assert(w == i);
            }
        }
        i = i + 1;
    }
    proof {
        assert(ts.take(n as int) =~= ts);
    }
    store.todos = kept;
    found
}

/// Returns references to the tasks matching `filter`, in store order.
pub fn filter_todos<'a>(store: &'a TodoStore, filter: &ListFilter) -> (r: Vec<&'a Todo>)
    ensures
        r@.map_values(|t: &Todo| t@) == filter_tasks(store@.tasks, *filter),
{
    let ghost ts = store@.tasks;
    let n = store.todos.len();
    let mut r: Vec<&Todo> = Vec::new();
    let mut i: usize = 0;
    while i < n
        invariant
            n == store.todos.len(),
            ts == store@.tasks,
            i <= n,
            r@.map_values(|t: &Todo| t@) == filter_tasks(ts.take(i as int), *filter),
        decreases n - i,
    {
        let t = &store.todos[i];
        let keep = match filter {
            ListFilter::All => true,
            ListFilter::Done => t.completed,
            ListFilter::Pending => !t.completed,
        };
        proof {
            assert(ts.take(i + 1).drop_last() =~= ts.take(i as int));
            assert(ts.take(i + 1).last() == ts[i as int]);
        }
        if keep {
            r.push(t);
        }
        proof {
            assert(r@.map_values(|t: &Todo| t@) =~= filter_tasks(ts.take(i + 1), *filter));
        }
        i = i + 1;
    }
    proof {
        assert(ts.take(n as int) =~= ts);
    }
    r
}

} // verus!
