//! Data model: pomodoro intervals, tasks, categories, and the error type.
//!
//! All timestamps are seconds since the UNIX epoch, supplied by the host.

use vstd::prelude::*;

verus! {

/// Identifier of the permanent "no category" sentinel.
pub const SENTINEL_CATEGORY_ID: u32 = 0;

/// Stored name of the sentinel category.
pub const SENTINEL_CATEGORY_NAME: &'static str = "nocat";

/// Session length a fresh aggregate starts with, in minutes.
pub const DEFAULT_POMODORO_MINUTES: u32 = 25;

/// Errors surfaced by the mutating operations.
#[derive(Clone, Copy, Debug, PartialEq, Eq, Structural)]
pub enum TrackerError {
    /// A referenced task or category id is absent.
    NotFound,
    /// A reorder request is already satisfied; informational, non-fatal.
    AlreadyOrdered,
}

/// One finished focus interval of a task.
#[derive(Clone, Copy, Debug, PartialEq, Eq, Structural)]
pub struct Pomodoro {
    pub start_time: u64,
    pub end_time: u64,
}

/// Mathematical image of a task.
#[verifier::ext_equal]
pub ghost struct TaskView {
    pub id: u32,
    pub description: Seq<char>,
    pub done: bool,
    pub past_pomodoros: Seq<Pomodoro>,
    pub active_pomodoro_jointime: Option<u64>,
    pub parent: Option<u32>,
    pub category: u32,
    pub date_added: u64,
    pub order: u32,
}

/// A task record. The tree structure lives in `parent`; `order` places the
/// task among the siblings that share its parent.
#[derive(Debug, PartialEq)]
pub struct Task {
    pub id: u32,
    pub description: String,
    pub done: bool,
    pub past_pomodoros: Vec<Pomodoro>,
    pub active_pomodoro_jointime: Option<u64>,
    pub parent: Option<u32>,
    pub category: u32,
    pub date_added: u64,
    pub order: u32,
}

impl View for Task {
    type V = TaskView;

    open spec fn view(&self) -> TaskView {
        TaskView {
            id: self.id,
            description: self.description@,
            done: self.done,
            past_pomodoros: self.past_pomodoros@,
            active_pomodoro_jointime: self.active_pomodoro_jointime,
            parent: self.parent,
            category: self.category,
            date_added: self.date_added,
            order: self.order,
        }
    }
}

/// Mathematical image of a category.
#[verifier::ext_equal]
pub ghost struct CategoryView {
    pub id: u32,
    pub name: Seq<char>,
    pub hotkey: Option<char>,
    pub visible: bool,
}

/// A category record; id 0 is the permanent sentinel.
#[derive(Debug, PartialEq, Eq)]
pub struct Category {
    pub id: u32,
    pub name: String,
    pub hotkey: Option<char>,
    pub visible: bool,
}

impl View for Category {
    type V = CategoryView;

    open spec fn view(&self) -> CategoryView {
        CategoryView {
            id: self.id,
            name: self.name@,
            hotkey: self.hotkey,
            visible: self.visible,
        }
    }
}

impl Clone for Task {
    /// Cloning keeps the mathematical image.
    fn clone(&self) -> (r: Self)
        ensures
            r@ == self@,
    {
        Task {
            id: self.id,
            description: self.description.clone(),
            done: self.done,
            past_pomodoros: clone_pomodoros(&self.past_pomodoros),
            active_pomodoro_jointime: self.active_pomodoro_jointime,
            parent: self.parent,
            category: self.category,
            date_added: self.date_added,
            order: self.order,
        }
    }
}

impl Clone for Category {
    /// Cloning keeps the mathematical image.
    fn clone(&self) -> (r: Self)
        ensures
            r@ == self@,
    {
        Category {
            id: self.id,
            name: self.name.clone(),
            hotkey: self.hotkey,
            visible: self.visible,
        }
    }
}

/// Copies a vector of intervals element by element.
fn clone_pomodoros(ps: &Vec<Pomodoro>) -> (r: Vec<Pomodoro>)
    ensures
        r@ == ps@,
{
    let mut out: Vec<Pomodoro> = Vec::new();
    let mut i: usize = 0;
    while i < ps.len()
        invariant
            i <= ps.len(),
            out@ == ps@.take(i as int),
        decreases ps.len() - i,
    {
        out.push(ps[i]);
        proof {
            assert(out@ =~= ps@.take(i as int + 1));
        }
        i = i + 1;
    }
    proof {
        assert(out@ =~= ps@);
    }
    out
}

/// Length of one stored interval; an interval whose end precedes its start
/// contributes nothing.
pub open spec fn pomodoro_duration(p: Pomodoro) -> nat {
    if p.start_time <= p.end_time {
        (p.end_time - p.start_time) as nat
    } else {
        0
    }
}

/// Total length of a sequence of stored intervals.
pub open spec fn past_sum(ps: Seq<Pomodoro>) -> nat
    decreases ps.len(),
{
    if ps.len() == 0 {
        0
    } else {
        past_sum(ps.drop_last()) + pomodoro_duration(ps.last())
    }
}

/// Focus time a currently running join contributes at time `now`.
pub open spec fn active_duration(jointime: Option<u64>, now: u64) -> nat {
    match jointime {
        Some(j) => if j <= now {
            (now - j) as nat
        } else {
            0
        },
        None => 0,
    }
}

/// Focus time of a task at time `now`: all stored intervals plus the running
/// join, if any. Always computed live, never cached.
pub open spec fn task_time_spent(t: TaskView, now: u64) -> nat {
    past_sum(t.past_pomodoros) + active_duration(t.active_pomodoro_jointime, now)
}

/// The state a task moves to when it leaves the session at time `now`:
/// the interval `[jointime, now]` is appended and the join is cleared.
/// A task that is not joined is left unchanged.
pub open spec fn task_after_leave(t: TaskView, now: u64) -> TaskView {
    match t.active_pomodoro_jointime {
        Some(j) => TaskView {
            past_pomodoros: t.past_pomodoros.push(Pomodoro { start_time: j, end_time: now }),
            active_pomodoro_jointime: None,
            ..t
        },
        None => t,
    }
}

proof fn lemma_past_sum_bound(ps: Seq<Pomodoro>)
    ensures
        past_sum(ps) <= ps.len() * 0xFFFF_FFFF_FFFF_FFFFu64,
    decreases ps.len(),
{
    if ps.len() > 0 {
        lemma_past_sum_bound(ps.drop_last());
    }
}

impl Pomodoro {
    /// Length of this interval in seconds.
    pub fn time_spent(&self) -> (r: u64)
        ensures
            r == pomodoro_duration(*self),
    {
        if self.start_time <= self.end_time {
            self.end_time - self.start_time
        } else {
            0
        }
    }
}

impl Task {
    /// A fresh task: not done, no focus history, no parent, order equal to
    /// its id, created at time `now`.
    pub fn new(id: u32, description: String, category: u32, now: u64) -> (t: Task)
        ensures
            t@ == (TaskView {
                id,
                description: description@,
                done: false,
                past_pomodoros: Seq::<Pomodoro>::empty(),
                active_pomodoro_jointime: None,
                parent: None,
                category,
                date_added: now,
                order: id,
            }),
    {
        Task {
            id,
            description,
            done: false,
            past_pomodoros: Vec::new(),
            active_pomodoro_jointime: None,
            parent: None,
            category,
            date_added: now,
            order: id,
        }
    }

    /// Focus time the task has accrued at time `now`.
    pub fn time_spent(&self, now: u64) -> (r: u128)
        ensures
            r == task_time_spent(self@, now),
    {
        let mut acc: u128 = 0;
        let mut i: usize = 0;
        while i < self.past_pomodoros.len()
            invariant
                i <= self.past_pomodoros.len(),
                acc == past_sum(self.past_pomodoros@.take(i as int)),
                acc <= i * 0xFFFF_FFFF_FFFF_FFFFu64,
            decreases self.past_pomodoros.len() - i,
        {
            let d = self.past_pomodoros[i].time_spent();
            proof {
                assert(self.past_pomodoros@.take(i as int + 1).drop_last()
                    =~= self.past_pomodoros@.take(i as int));
                assert(self.past_pomodoros@.take(i as int + 1).last()
                    == self.past_pomodoros@[i as int]);
            }
            acc = acc + d as u128;
            i = i + 1;
        }
        proof {
            assert(self.past_pomodoros@.take(self.past_pomodoros@.len() as int)
                =~= self.past_pomodoros@);
            lemma_past_sum_bound(self.past_pomodoros@);
        }
        let current: u128 = match self.active_pomodoro_jointime {
            Some(j) => if j <= now {
                (now - j) as u128
            } else {
                0
            },
            None => 0,
        };
        acc + current
    }

    /// Whether the task is currently joined to the session.
    pub fn pomodoro_active(&self) -> (r: bool)
        ensures
            r == self@.active_pomodoro_jointime.is_some(),
    {
        self.active_pomodoro_jointime.is_some()
    }

    /// Joins the session at time `now`.
    pub fn join_pomodoro(&mut self, now: u64)
        ensures
            final(self)@ == (TaskView {
                active_pomodoro_jointime: Some(now),
                ..old(self)@
            }),
    {
        self.active_pomodoro_jointime = Some(now);
    }

    /// Leaves the session at time `now`, storing the finished interval.
    /// Does nothing if the task is not joined.
    pub fn leave_pomodoro(&mut self, now: u64)
        ensures
            final(self)@ == task_after_leave(old(self)@, now),
    {
        match self.active_pomodoro_jointime {
            Some(jointime) => {
                self.past_pomodoros.push(Pomodoro { start_time: jointime, end_time: now });
                self.active_pomodoro_jointime = None;
            },
            None => {},
        }
    }
}

impl Category {
    /// A fresh, visible category.
    pub fn new(id: u32, name: String, hotkey: Option<char>) -> (c: Category)
        ensures
            c@ == (CategoryView { id, name: name@, hotkey, visible: true }),
    {
        Category { id, name, hotkey, visible: true }
    }
}

/// Relies on char::to_string: the string of exactly that one character.
#[verifier::external_body]
pub(crate) fn char_to_string(c: char) -> (r: String)
    ensures
        r@ == seq![c],
{
    c.to_string()
}

/// Mathematical images of a sequence of tasks.
pub open spec fn task_views(s: Seq<Task>) -> Seq<TaskView> {
    s.map_values(|t: Task| t@)
}

/// Mathematical images of a sequence of categories.
pub open spec fn cat_views(s: Seq<Category>) -> Seq<CategoryView> {
    s.map_values(|c: Category| c@)
}

/// Index of the first element satisfying `p`, or -1 if none does.
pub open spec fn first_match<T>(s: Seq<T>, p: spec_fn(T) -> bool) -> int
    decreases s.len(),
{
    if s.len() == 0 {
        -1
    } else if p(s[0]) {
        0
    } else {
        let r = first_match(s.drop_first(), p);
        if r == -1 {
            -1
        } else {
            r + 1
        }
    }
}

/// What `first_match` returns: -1 exactly when no element satisfies `p`,
/// and otherwise the first satisfying position.
pub proof fn lemma_first_match<T>(s: Seq<T>, p: spec_fn(T) -> bool)
    ensures
        first_match(s, p) == -1 <==> (forall|j: int| 0 <= j < s.len() ==> !p(#[trigger] s[j])),
        first_match(s, p) != -1 ==> 0 <= first_match(s, p) < s.len() && p(s[first_match(s, p)])
            && (forall|j: int| 0 <= j < first_match(s, p) ==> !p(#[trigger] s[j])),
    decreases s.len(),
{
    if s.len() > 0 && !p(s[0]) {
        lemma_first_match(s.drop_first(), p);
        assert(forall|j: int| 1 <= j < s.len() ==> #[trigger] s[j] == s.drop_first()[j - 1]);
    }
}

/// Index of the first task with the given id, or -1 if none exists.
pub open spec fn task_index_of(tasks: Seq<TaskView>, id: u32) -> int {
    first_match(tasks, |t: TaskView| t.id == id)
}

/// Index of the first category with the given id, or -1 if none exists.
pub open spec fn category_index_of(cats: Seq<CategoryView>, id: u32) -> int {
    first_match(cats, |c: CategoryView| c.id == id)
}

/// What `task_index_of` returns: -1 exactly when the id is absent, and
/// otherwise the first matching position.
pub proof fn lemma_task_index_of(tasks: Seq<TaskView>, id: u32)
    ensures
        task_index_of(tasks, id) == -1 <==> (forall|j: int|
            0 <= j < tasks.len() ==> tasks[j].id != id),
        task_index_of(tasks, id) != -1 ==> 0 <= task_index_of(tasks, id) < tasks.len()
            && tasks[task_index_of(tasks, id)].id == id
            && (forall|j: int| 0 <= j < task_index_of(tasks, id) ==> tasks[j].id != id),
{
    lemma_first_match(tasks, |t: TaskView| t.id == id);
}

/// What `category_index_of` returns, in the same shape.
pub proof fn lemma_category_index_of(cats: Seq<CategoryView>, id: u32)
    ensures
        category_index_of(cats, id) == -1 <==> (forall|j: int|
            0 <= j < cats.len() ==> cats[j].id != id),
        category_index_of(cats, id) != -1 ==> 0 <= category_index_of(cats, id) < cats.len()
            && cats[category_index_of(cats, id)].id == id
            && (forall|j: int| 0 <= j < category_index_of(cats, id) ==> cats[j].id != id),
{
    lemma_first_match(cats, |c: CategoryView| c.id == id);
}

/// First category with the given id, if any.
pub fn get_category_by_id<'a>(categories: &'a [Category], id: u32) -> (r: Option<&'a Category>)
    ensures
        match r {
            Some(c) => category_index_of(cat_views(categories@), id) >= 0
                && c@ == cat_views(categories@)[category_index_of(cat_views(categories@), id)],
            None => category_index_of(cat_views(categories@), id) == -1,
        },
{
    let mut i: usize = 0;
    while i < categories.len()
        invariant
            i <= categories.len(),
            forall|j: int| 0 <= j < i ==> cat_views(categories@)[j].id != id,
        decreases categories.len() - i,
    {
        if categories[i].id == id {
            proof {
                lemma_category_index_of(cat_views(categories@), id);
                assert(cat_views(categories@)[i as int].id == id);
            }
            return Some(&categories[i]);
        }
        proof {
            assert(cat_views(categories@)[i as int] == categories@[i as int]@);
        }
        i = i + 1;
    }
    proof {
        lemma_category_index_of(cat_views(categories@), id);
    }
    None
}

} // verus!
