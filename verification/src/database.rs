//! The aggregate: tasks, categories, the session clock and the default
//! category, with the task-store and category-registry operations and the
//! laws of the reorder algorithm.

use vstd::prelude::*;
use vstd::string::StringExecFns;
use crate::model::{
    Category, CategoryView, Pomodoro, Task, TaskView, TrackerError, cat_views, category_index_of,
    first_match, lemma_category_index_of, lemma_first_match, lemma_task_index_of, task_index_of,
    task_views, DEFAULT_POMODORO_MINUTES, SENTINEL_CATEGORY_ID, SENTINEL_CATEGORY_NAME,
};

verus! {

/// Mathematical image of the whole aggregate.
#[verifier::ext_equal]
pub ghost struct DatabaseView {
    pub tasks: Seq<TaskView>,
    pub categories: Seq<CategoryView>,
    pub pomodoro_duration_minutes: u32,
    pub active_pomodoro_starttime: Option<u64>,
    pub default_category_id: u32,
}

/// The whole aggregate. The session clock is an explicit field, so session
/// behaviour is testable by constructing aggregates directly.
#[derive(Debug, PartialEq)]
pub struct Database {
    pub tasks: Vec<Task>,
    pub categories: Vec<Category>,
    pub pomodoro_duration_minutes: u32,
    pub active_pomodoro_starttime: Option<u64>,
    pub default_category_id: u32,
}

impl View for Database {
    type V = DatabaseView;

    open spec fn view(&self) -> DatabaseView {
        DatabaseView {
            tasks: task_views(self.tasks@),
            categories: cat_views(self.categories@),
            pomodoro_duration_minutes: self.pomodoro_duration_minutes,
            active_pomodoro_starttime: self.active_pomodoro_starttime,
            default_category_id: self.default_category_id,
        }
    }
}

/// Task ids are pairwise distinct.
pub open spec fn ids_distinct(tasks: Seq<TaskView>) -> bool {
    forall|i: int, j: int|
        0 <= i < j < tasks.len() ==> #[trigger] tasks[i].id != #[trigger] tasks[j].id
}

/// Order values are pairwise distinct over the whole store.
pub open spec fn orders_distinct(tasks: Seq<TaskView>) -> bool {
    forall|i: int, j: int|
        0 <= i < j < tasks.len() ==> #[trigger] tasks[i].order != #[trigger] tasks[j].order
}

/// Order values are pairwise distinct within every sibling group.
pub open spec fn sibling_orders_distinct(tasks: Seq<TaskView>) -> bool {
    forall|i: int, j: int|
        0 <= i < j < tasks.len() && #[trigger] tasks[i].parent == #[trigger] tasks[j].parent
            ==> tasks[i].order != tasks[j].order
}

/// Whether some task is currently joined to the session.
pub open spec fn some_task_active(tasks: Seq<TaskView>) -> bool {
    exists|i: int| 0 <= i < tasks.len() && (#[trigger] tasks[i]).active_pomodoro_jointime.is_some()
}

/// The session clock runs exactly while at least one task is joined.
pub open spec fn session_consistent(db: DatabaseView) -> bool {
    db.active_pomodoro_starttime.is_some() <==> some_task_active(db.tasks)
}

/// Largest task id in the store, 0 when the store is empty.
pub open spec fn max_task_id(tasks: Seq<TaskView>) -> int
    decreases tasks.len(),
{
    if tasks.len() == 0 {
        0
    } else {
        let m = max_task_id(tasks.drop_last());
        if tasks.last().id > m {
            tasks.last().id as int
        } else {
            m
        }
    }
}

/// Every id is at most `max_task_id`.
pub proof fn lemma_max_task_id_ge(tasks: Seq<TaskView>)
    ensures
        forall|j: int| 0 <= j < tasks.len() ==> #[trigger] tasks[j].id <= max_task_id(tasks),
        max_task_id(tasks) >= 0,
    decreases tasks.len(),
{
    if tasks.len() > 0 {
        lemma_max_task_id_ge(tasks.drop_last());
        assert(forall|j: int|
            0 <= j < tasks.len() - 1 ==> #[trigger] tasks[j] == tasks.drop_last()[j]);
    }
}

/// Index of the first category carrying the given hotkey, or -1 if none.
pub open spec fn hotkey_index_of(cats: Seq<CategoryView>, hotkey: char) -> int {
    first_match(cats, |c: CategoryView| c.hotkey == Some(hotkey))
}

/// What `hotkey_index_of` returns: -1 exactly when no category carries the
/// hotkey, and otherwise the first carrying position.
pub proof fn lemma_hotkey_index_of(cats: Seq<CategoryView>, hotkey: char)
    ensures
        hotkey_index_of(cats, hotkey) == -1 <==> (forall|j: int|
            0 <= j < cats.len() ==> (#[trigger] cats[j]).hotkey != Some(hotkey)),
        hotkey_index_of(cats, hotkey) != -1 ==> 0 <= hotkey_index_of(cats, hotkey) < cats.len()
            && cats[hotkey_index_of(cats, hotkey)].hotkey == Some(hotkey)
            && (forall|j: int| 0 <= j < hotkey_index_of(cats, hotkey)
                ==> (#[trigger] cats[j]).hotkey != Some(hotkey)),
{
    lemma_first_match(cats, |c: CategoryView| c.hotkey == Some(hotkey));
}

/// A sample task as the seed aggregate creates it.
pub open spec fn example_task_view(id: u32, description: Seq<char>, category: u32, now: u64) -> TaskView {
    TaskView {
        id,
        description,
        done: false,
        past_pomodoros: Seq::<Pomodoro>::empty(),
        active_pomodoro_jointime: None,
        parent: None,
        category,
        date_added: now,
        order: id,
    }
}

/// The seed aggregate, mathematically.
pub open spec fn example_db_view(now: u64) -> DatabaseView {
    DatabaseView {
        tasks: seq![
            example_task_view(0, "Task 1"@, 0, now),
            example_task_view(1, "Task 2"@, 1, now),
            example_task_view(2, "Task 3"@, 2, now),
            example_task_view(3, "Task 4"@, 0, now),
        ],
        categories: seq![
            CategoryView {
                id: SENTINEL_CATEGORY_ID,
                name: SENTINEL_CATEGORY_NAME@,
                hotkey: Some('u'),
                visible: false,
            },
            CategoryView { id: 1, name: "archive"@, hotkey: Some('a'), visible: true },
            CategoryView { id: 2, name: "todo"@, hotkey: Some('t'), visible: true },
        ],
        pomodoro_duration_minutes: DEFAULT_POMODORO_MINUTES,
        active_pomodoro_starttime: None,
        default_category_id: 2,
    }
}

/// Toggling the done flag of the first task with the given id; the id must
/// exist, otherwise the operation reports `NotFound`.
pub open spec fn check_task_tr(db: DatabaseView, task_id: u32) -> Result<
    DatabaseView,
    TrackerError,
> {
    let i = task_index_of(db.tasks, task_id);
    if i == -1 {
        Err(TrackerError::NotFound)
    } else {
        Ok(
            DatabaseView {
                tasks: db.tasks.update(i, TaskView { done: !db.tasks[i].done, ..db.tasks[i] }),
                ..db
            },
        )
    }
}

/// Overwriting the category of a task; the target category is deliberately
/// not checked for existence.
pub open spec fn set_category_tr(db: DatabaseView, task_id: u32, category_id: u32) -> Result<
    DatabaseView,
    TrackerError,
> {
    let i = task_index_of(db.tasks, task_id);
    if i == -1 {
        Err(TrackerError::NotFound)
    } else {
        Ok(
            DatabaseView {
                tasks: db.tasks.update(i, TaskView { category: category_id, ..db.tasks[i] }),
                ..db
            },
        )
    }
}

/// Flipping the visibility of a category.
pub open spec fn toggle_category_visible_tr(db: DatabaseView, category_id: u32) -> Result<
    DatabaseView,
    TrackerError,
> {
    let i = category_index_of(db.categories, category_id);
    if i == -1 {
        Err(TrackerError::NotFound)
    } else {
        Ok(
            DatabaseView {
                categories: db.categories.update(
                    i,
                    CategoryView { visible: !db.categories[i].visible, ..db.categories[i] },
                ),
                ..db
            },
        )
    }
}

/// The task appended by an add: next id, order equal to the id, the current
/// default category, no parent, created at `now`.
pub open spec fn added_task(db: DatabaseView, description: Seq<char>, now: u64) -> TaskView {
    TaskView {
        id: (max_task_id(db.tasks) + 1) as u32,
        description,
        done: false,
        past_pomodoros: Seq::<Pomodoro>::empty(),
        active_pomodoro_jointime: None,
        parent: None,
        category: db.default_category_id,
        date_added: now,
        order: (max_task_id(db.tasks) + 1) as u32,
    }
}

/// Adding a task at time `now`.
pub open spec fn add_task_tr(db: DatabaseView, description: Seq<char>, now: u64) -> DatabaseView {
    DatabaseView { tasks: db.tasks.push(added_task(db, description, now)), ..db }
}

/// Order values after the upward shift of `reorderBefore`: every order in
/// `[anchor_order, moved_order)` is increased by one.
pub open spec fn shift_up(tasks: Seq<TaskView>, anchor_order: u32, moved_order: u32) -> Seq<
    TaskView,
> {
    tasks.map_values(
        |t: TaskView|
            if anchor_order <= t.order < moved_order {
                TaskView { order: (t.order + 1) as u32, ..t }
            } else {
                t
            },
    )
}

/// Order values after the downward shift of `reorderAfter`: every order in
/// `(moved_order, anchor_order]` is decreased by one.
pub open spec fn shift_down(tasks: Seq<TaskView>, moved_order: u32, anchor_order: u32) -> Seq<
    TaskView,
> {
    tasks.map_values(
        |t: TaskView|
            if moved_order < t.order <= anchor_order {
                TaskView { order: (t.order - 1) as u32, ..t }
            } else {
                t
            },
    )
}

/// Moving a task directly before an anchor in the global order space.
pub open spec fn reorder_before_tr(db: DatabaseView, task_id: u32, other_task_id: u32) -> Result<
    DatabaseView,
    TrackerError,
> {
    let ia = task_index_of(db.tasks, task_id);
    let ib = task_index_of(db.tasks, other_task_id);
    if ia == -1 || ib == -1 {
        Err(TrackerError::NotFound)
    } else {
        let moved_order = db.tasks[ia].order;
        let anchor_order = db.tasks[ib].order;
        if moved_order < anchor_order {
            Err(TrackerError::AlreadyOrdered)
        } else {
            let shifted = shift_up(db.tasks, anchor_order, moved_order);
            Ok(
                DatabaseView {
                    tasks: shifted.update(
                        ia,
                        TaskView { order: anchor_order, ..shifted[ia] },
                    ),
                    ..db
                },
            )
        }
    }
}

/// Moving a task directly after an anchor in the global order space.
pub open spec fn reorder_after_tr(db: DatabaseView, task_id: u32, other_task_id: u32) -> Result<
    DatabaseView,
    TrackerError,
> {
    let ia = task_index_of(db.tasks, task_id);
    let ib = task_index_of(db.tasks, other_task_id);
    if ia == -1 || ib == -1 {
        Err(TrackerError::NotFound)
    } else {
        let moved_order = db.tasks[ia].order;
        let anchor_order = db.tasks[ib].order;
        if moved_order > anchor_order {
            Err(TrackerError::AlreadyOrdered)
        } else {
            let shifted = shift_down(db.tasks, moved_order, anchor_order);
            Ok(
                DatabaseView {
                    tasks: shifted.update(
                        ia,
                        TaskView { order: anchor_order, ..shifted[ia] },
                    ),
                    ..db
                },
            )
        }
    }
}

/// Position of the first task with the given id in a task vector.
pub(crate) fn find_task_pos(tasks: &Vec<Task>, id: u32) -> (r: Option<usize>)
    ensures
        match r {
            Some(i) => i < tasks@.len() && task_index_of(task_views(tasks@), id) == i,
            None => task_index_of(task_views(tasks@), id) == -1,
        },
{
    let mut i: usize = 0;
    while i < tasks.len()
        invariant
            i <= tasks.len(),
            forall|j: int| 0 <= j < i ==> task_views(tasks@)[j].id != id,
        decreases tasks.len() - i,
    {
        if tasks[i].id == id {
            proof {
                lemma_task_index_of(task_views(tasks@), id);
                assert(task_views(tasks@)[i as int].id == id);
            }
            return Some(i);
        }
        proof {
            assert(task_views(tasks@)[i as int] == tasks@[i as int]@);
        }
        i = i + 1;
    }
    proof {
        lemma_task_index_of(task_views(tasks@), id);
    }
    None
}

/// Position of the first category with the given id in a category vector.
pub(crate) fn find_category_pos(cats: &Vec<Category>, id: u32) -> (r: Option<usize>)
    ensures
        match r {
            Some(i) => i < cats@.len() && category_index_of(cat_views(cats@), id) == i,
            None => category_index_of(cat_views(cats@), id) == -1,
        },
{
    let mut i: usize = 0;
    while i < cats.len()
        invariant
            i <= cats.len(),
            forall|j: int| 0 <= j < i ==> cat_views(cats@)[j].id != id,
        decreases cats.len() - i,
    {
        if cats[i].id == id {
            proof {
                lemma_category_index_of(cat_views(cats@), id);
                assert(cat_views(cats@)[i as int].id == id);
            }
            return Some(i);
        }
        proof {
            assert(cat_views(cats@)[i as int] == cats@[i as int]@);
        }
        i = i + 1;
    }
    proof {
        lemma_category_index_of(cat_views(cats@), id);
    }
    None
}

impl Database {
    /// An empty aggregate: no tasks, only the sentinel category, the default
    /// session length, no running session.
    pub fn new() -> (db: Database)
        ensures
            db@ == (DatabaseView {
                tasks: Seq::<TaskView>::empty(),
                categories: seq![
                    CategoryView {
                        id: SENTINEL_CATEGORY_ID,
                        name: SENTINEL_CATEGORY_NAME@,
                        hotkey: Some('u'),
                        visible: true,
                    },
                ],
                pomodoro_duration_minutes: DEFAULT_POMODORO_MINUTES,
                active_pomodoro_starttime: None,
                default_category_id: SENTINEL_CATEGORY_ID,
            }),
    {
        let mut categories: Vec<Category> = Vec::new();
        categories.push(
            Category::new(
                SENTINEL_CATEGORY_ID,
                String::from_str(SENTINEL_CATEGORY_NAME),
                Some('u'),
            ),
        );
        let db = Database {
            tasks: Vec::new(),
            categories,
            pomodoro_duration_minutes: DEFAULT_POMODORO_MINUTES,
            active_pomodoro_starttime: None,
            default_category_id: SENTINEL_CATEGORY_ID,
        };
        proof {
            assert(db@.tasks =~= Seq::<TaskView>::empty());
            assert(db@.categories =~= seq![
                CategoryView {
                    id: SENTINEL_CATEGORY_ID,
                    name: SENTINEL_CATEGORY_NAME@,
                    hotkey: Some('u'),
                    visible: true,
                },
            ]);
        }
        db
    }

    /// The seed aggregate the host substitutes when no stored data can be
    /// read: three categories (the sentinel hidden) and four sample tasks,
    /// all created at time `now`.
    pub fn example_db(now: u64) -> (db: Database)
        ensures
            db@ == example_db_view(now),
    {
        let mut categories: Vec<Category> = Vec::new();
        categories.push(
            Category {
                id: SENTINEL_CATEGORY_ID,
                name: String::from_str(SENTINEL_CATEGORY_NAME),
                hotkey: Some('u'),
                visible: false,
            },
        );
        categories.push(Category::new(1, String::from_str("archive"), Some('a')));
        categories.push(Category::new(2, String::from_str("todo"), Some('t')));
        let mut tasks: Vec<Task> = Vec::new();
        tasks.push(Task::new(0, String::from_str("Task 1"), 0, now));
        tasks.push(Task::new(1, String::from_str("Task 2"), 1, now));
        tasks.push(Task::new(2, String::from_str("Task 3"), 2, now));
        tasks.push(Task::new(3, String::from_str("Task 4"), 0, now));
        let db = Database {
            tasks,
            categories,
            pomodoro_duration_minutes: DEFAULT_POMODORO_MINUTES,
            active_pomodoro_starttime: None,
            default_category_id: 2,
        };
        proof {
            assert(db.categories@.len() == 3);
            assert(db@.categories[0] == db.categories@[0]@);
            assert(db@.categories[1] == db.categories@[1]@);
            assert(db@.categories[2] == db.categories@[2]@);
            assert(db@.categories =~= example_db_view(now).categories);
            assert(db.tasks@.len() == 4);
            assert(db@.tasks[0] == db.tasks@[0]@);
            assert(db@.tasks[1] == db.tasks@[1]@);
            assert(db@.tasks[2] == db.tasks@[2]@);
            assert(db@.tasks[3] == db.tasks@[3]@);
            assert(db@.tasks =~= example_db_view(now).tasks);
            assert(db@ =~= example_db_view(now));
        }
        db
    }

    /// Flips the done flag of the task with the given id.
    pub fn check_task(&mut self, task_id: u32) -> (r: Result<(), TrackerError>)
        ensures
            match check_task_tr(old(self)@, task_id) {
                Ok(d) => r == Ok::<(), TrackerError>(()) && final(self)@ == d,
                Err(e) => r == Err::<(), TrackerError>(e) && final(self)@ == old(self)@,
            },
    {
        match find_task_pos(&self.tasks, task_id) {
            Some(i) => {
                let cur = self.tasks[i].done;
                self.tasks[i].done = !cur;
                proof {
                    assert(self@.tasks =~= check_task_tr(old(self)@, task_id).unwrap().tasks);
                    assert(self@ =~= check_task_tr(old(self)@, task_id).unwrap());
                }
                Ok(())
            },
            None => Err(TrackerError::NotFound),
        }
    }

    /// Overwrites the category of the task with the given id; the category
    /// id is deliberately not validated.
    pub fn set_category(&mut self, task_id: u32, category_id: u32) -> (r: Result<
        (),
        TrackerError,
    >)
        ensures
            match set_category_tr(old(self)@, task_id, category_id) {
                Ok(d) => r == Ok::<(), TrackerError>(()) && final(self)@ == d,
                Err(e) => r == Err::<(), TrackerError>(e) && final(self)@ == old(self)@,
            },
    {
        match find_task_pos(&self.tasks, task_id) {
            Some(i) => {
                self.tasks[i].category = category_id;
                proof {
                    assert(self@.tasks =~= set_category_tr(
                        old(self)@,
                        task_id,
                        category_id,
                    ).unwrap().tasks);
                    assert(self@ =~= set_category_tr(old(self)@, task_id, category_id).unwrap());
                }
                Ok(())
            },
            None => Err(TrackerError::NotFound),
        }
    }

    /// Flips the visibility of the category with the given id.
    pub fn toggle_category_visible(&mut self, category_id: u32) -> (r: Result<(), TrackerError>)
        ensures
            match toggle_category_visible_tr(old(self)@, category_id) {
                Ok(d) => r == Ok::<(), TrackerError>(()) && final(self)@ == d,
                Err(e) => r == Err::<(), TrackerError>(e) && final(self)@ == old(self)@,
            },
    {
        match find_category_pos(&self.categories, category_id) {
            Some(i) => {
                let cur = self.categories[i].visible;
                self.categories[i].visible = !cur;
                proof {
                    assert(self@.categories =~= toggle_category_visible_tr(
                        old(self)@,
                        category_id,
                    ).unwrap().categories);
                    assert(self@ =~= toggle_category_visible_tr(
                        old(self)@,
                        category_id,
                    ).unwrap());
                }
                Ok(())
            },
            None => Err(TrackerError::NotFound),
        }
    }

    /// Makes the given id the default for newly added tasks; deliberately
    /// unconditional, with no existence check.
    pub fn make_default_category(&mut self, category_id: u32)
        ensures
            final(self)@ == (DatabaseView { default_category_id: category_id, ..old(self)@ }),
    {
        self.default_category_id = category_id;
    }

    /// First category whose hotkey is the given character, if any.
    pub fn get_category_by_hotkey<'a>(&'a self, hotkey: char) -> (r: Option<&'a Category>)
        ensures
            ({
                let i = hotkey_index_of(self@.categories, hotkey);
                match r {
                    Some(c) => i >= 0 && c@ == self@.categories[i],
                    None => i == -1,
                }
            }),
    {
        let mut i: usize = 0;
        while i < self.categories.len()
            invariant
                i <= self.categories.len(),
                forall|j: int| 0 <= j < i ==> (#[trigger] self@.categories[j]).hotkey
                    != Some(hotkey),
            decreases self.categories.len() - i,
        {
            let matched = match self.categories[i].hotkey {
                Some(h) => h == hotkey,
                None => false,
            };
            proof {
                assert(self@.categories[i as int] == self.categories@[i as int]@);
            }
            if matched {
                proof {
                    lemma_hotkey_index_of(self@.categories, hotkey);
                }
                return Some(&self.categories[i]);
            }
            i = i + 1;
        }
        proof {
            lemma_hotkey_index_of(self@.categories, hotkey);
        }
        None
    }

    /// Adds a task described by `description` at time `now`; its id is one
    /// more than the largest existing id.
    pub fn add_task_from_string(&mut self, description: String, now: u64)
        requires
            max_task_id(old(self)@.tasks) < 0xFFFF_FFFFu32,
        ensures
            final(self)@ == add_task_tr(old(self)@, description@, now),
    {
        let mut highest: u32 = 0;
        let mut i: usize = 0;
        while i < self.tasks.len()
            invariant
                i <= self.tasks.len(),
                highest == max_task_id(self@.tasks.take(i as int)),
            decreases self.tasks.len() - i,
        {
            let id = self.tasks[i].id;
            proof {
                assert(self@.tasks.take(i as int + 1).drop_last() =~= self@.tasks.take(i as int));
                assert(self@.tasks.take(i as int + 1).last() == self@.tasks[i as int]);
            }
            if id > highest {
                highest = id;
            }
            i = i + 1;
        }
        proof {
            assert(self@.tasks.take(self@.tasks.len() as int) =~= self@.tasks);
            lemma_max_task_id_ge(self@.tasks);
        }
        let new_task = Task::new(highest + 1, description, self.default_category_id, now);
        self.tasks.push(new_task);
        proof {
            assert(self@.tasks =~= add_task_tr(old(self)@, description@, now).tasks);
            assert(self@ =~= add_task_tr(old(self)@, description@, now));
        }
    }

    /// Moves the task `task_id` directly before `other_task_id` in the global
    /// order space; reports `AlreadyOrdered` when it already is.
    pub fn order_task_before_other(&mut self, task_id: u32, other_task_id: u32) -> (r: Result<
        (),
        TrackerError,
    >)
        ensures
            match reorder_before_tr(old(self)@, task_id, other_task_id) {
                Ok(d) => r == Ok::<(), TrackerError>(()) && final(self)@ == d,
                Err(e) => r == Err::<(), TrackerError>(e) && final(self)@ == old(self)@,
            },
    {
        let ia = match find_task_pos(&self.tasks, task_id) {
            Some(i) => i,
            None => {
                return Err(TrackerError::NotFound);
            },
        };
        let ib = match find_task_pos(&self.tasks, other_task_id) {
            Some(i) => i,
            None => {
                return Err(TrackerError::NotFound);
            },
        };
        let moved_order = self.tasks[ia].order;
        let anchor_order = self.tasks[ib].order;
        if moved_order < anchor_order {
            return Err(TrackerError::AlreadyOrdered);
        }
        let ghost shifted = shift_up(old(self)@.tasks, anchor_order, moved_order);
        let mut i: usize = 0;
        while i < self.tasks.len()
            invariant
                i <= self.tasks.len(),
                self@.tasks.len() == old(self)@.tasks.len(),
                self.tasks@.len() == old(self).tasks@.len(),
                shifted == shift_up(old(self)@.tasks, anchor_order, moved_order),
                moved_order <= 0xFFFF_FFFFu32,
                forall|j: int| 0 <= j < i ==> #[trigger] self@.tasks[j] == shifted[j],
                forall|j: int| i <= j < self@.tasks.len() ==> #[trigger] self@.tasks[j]
                    == old(self)@.tasks[j],
                self.categories@ == old(self).categories@,
                self.pomodoro_duration_minutes == old(self).pomodoro_duration_minutes,
                self.active_pomodoro_starttime == old(self).active_pomodoro_starttime,
                self.default_category_id == old(self).default_category_id,
            decreases self.tasks.len() - i,
        {
            let ghost prevv = self.tasks@;
            proof {
                assert(task_views(prevv)[i as int] == old(self)@.tasks[i as int]);
                assert(task_views(prevv)[i as int] == prevv[i as int]@);
            }
            let o = self.tasks[i].order;
            if anchor_order <= o && o < moved_order {
                self.tasks[i].order = o + 1;
            }
            proof {
                assert forall|j: int| 0 <= j < prevv.len() && j != i implies #[trigger] self@
                    .tasks[j] == task_views(prevv)[j] by {
                    assert(self.tasks@[j] == prevv[j]);
                }
                assert(self@.tasks[i as int] == shifted[i as int]);
            }
            i = i + 1;
        }
        let ghost afterloop = self.tasks@;
        self.tasks[ia].order = anchor_order;
        proof {
            let d = reorder_before_tr(old(self)@, task_id, other_task_id).unwrap();
            assert forall|j: int| 0 <= j < afterloop.len() && j != ia implies #[trigger] self@
                .tasks[j] == task_views(afterloop)[j] by {
                assert(self.tasks@[j] == afterloop[j]);
            }
            assert forall|j: int| 0 <= j < afterloop.len() implies #[trigger] task_views(
                afterloop,
            )[j] == shifted[j] by {
                assert(task_views(afterloop)[j] == afterloop[j]@);
            }
            assert(self@.tasks[ia as int] == self.tasks@[ia as int]@);
            assert(task_views(afterloop)[ia as int] == afterloop[ia as int]@);
            assert(self@.tasks[ia as int] == d.tasks[ia as int]);
            assert(self@.tasks =~= d.tasks);
            assert(self@ =~= d);
        }
        Ok(())
    }

    /// Moves the task `task_id` directly after `other_task_id` in the global
    /// order space; reports `AlreadyOrdered` when it already is.
    pub fn order_task_after_other(&mut self, task_id: u32, other_task_id: u32) -> (r: Result<
        (),
        TrackerError,
    >)
        ensures
            match reorder_after_tr(old(self)@, task_id, other_task_id) {
                Ok(d) => r == Ok::<(), TrackerError>(()) && final(self)@ == d,
                Err(e) => r == Err::<(), TrackerError>(e) && final(self)@ == old(self)@,
            },
    {
        let ia = match find_task_pos(&self.tasks, task_id) {
            Some(i) => i,
            None => {
                return Err(TrackerError::NotFound);
            },
        };
        let ib = match find_task_pos(&self.tasks, other_task_id) {
            Some(i) => i,
            None => {
                return Err(TrackerError::NotFound);
            },
        };
        let moved_order = self.tasks[ia].order;
        let anchor_order = self.tasks[ib].order;
        if moved_order > anchor_order {
            return Err(TrackerError::AlreadyOrdered);
        }
        let ghost shifted = shift_down(old(self)@.tasks, moved_order, anchor_order);
        let mut i: usize = 0;
        while i < self.tasks.len()
            invariant
                i <= self.tasks.len(),
                self@.tasks.len() == old(self)@.tasks.len(),
                self.tasks@.len() == old(self).tasks@.len(),
                shifted == shift_down(old(self)@.tasks, moved_order, anchor_order),
                forall|j: int| 0 <= j < i ==> #[trigger] self@.tasks[j] == shifted[j],
                forall|j: int| i <= j < self@.tasks.len() ==> #[trigger] self@.tasks[j]
                    == old(self)@.tasks[j],
                self.categories@ == old(self).categories@,
                self.pomodoro_duration_minutes == old(self).pomodoro_duration_minutes,
                self.active_pomodoro_starttime == old(self).active_pomodoro_starttime,
                self.default_category_id == old(self).default_category_id,
            decreases self.tasks.len() - i,
        {
            let ghost prevv = self.tasks@;
            proof {
                assert(task_views(prevv)[i as int] == old(self)@.tasks[i as int]);
                assert(task_views(prevv)[i as int] == prevv[i as int]@);
            }
            let o = self.tasks[i].order;
            if moved_order < o && o <= anchor_order {
                self.tasks[i].order = o - 1;
            }
            proof {
                assert forall|j: int| 0 <= j < prevv.len() && j != i implies #[trigger] self@
                    .tasks[j] == task_views(prevv)[j] by {
                    assert(self.tasks@[j] == prevv[j]);
                }
                assert(self@.tasks[i as int] == shifted[i as int]);
            }
            i = i + 1;
        }
        let ghost afterloop = self.tasks@;
        self.tasks[ia].order = anchor_order;
        proof {
            let d = reorder_after_tr(old(self)@, task_id, other_task_id).unwrap();
            assert forall|j: int| 0 <= j < afterloop.len() && j != ia implies #[trigger] self@
                .tasks[j] == task_views(afterloop)[j] by {
                assert(self.tasks@[j] == afterloop[j]);
            }
            assert forall|j: int| 0 <= j < afterloop.len() implies #[trigger] task_views(
                afterloop,
            )[j] == shifted[j] by {
                assert(task_views(afterloop)[j] == afterloop[j]@);
            }
            assert(self@.tasks[ia as int] == self.tasks@[ia as int]@);
            assert(task_views(afterloop)[ia as int] == afterloop[ia as int]@);
            assert(self@.tasks[ia as int] == d.tasks[ia as int]);
            assert(self@.tasks =~= d.tasks);
            assert(self@ =~= d);
        }
        Ok(())
    }
}

/// Toggling the done flag twice on a valid id restores the aggregate exactly.
pub proof fn lemma_toggle_done_twice(db: DatabaseView, task_id: u32)
    requires
        check_task_tr(db, task_id) is Ok,
    ensures
        check_task_tr(check_task_tr(db, task_id).unwrap(), task_id) is Ok,
        check_task_tr(check_task_tr(db, task_id).unwrap(), task_id).unwrap() == db,
{
    let i = task_index_of(db.tasks, task_id);
    lemma_task_index_of(db.tasks, task_id);
    let db1 = check_task_tr(db, task_id).unwrap();
    lemma_first_match_same_on(db.tasks, db1.tasks, |t: TaskView| t.id == task_id);
    let db2 = check_task_tr(db1, task_id).unwrap();
    assert(db2.tasks =~= db.tasks);
    assert(db2 =~= db);
}

/// Two stores that satisfy a predicate at exactly the same positions have the
/// same first match.
proof fn lemma_first_match_same_on<T>(s1: Seq<T>, s2: Seq<T>, p: spec_fn(T) -> bool)
    requires
        s1.len() == s2.len(),
        forall|j: int| 0 <= j < s1.len() ==> (p(#[trigger] s1[j]) <==> p(#[trigger] s2[j])),
    ensures
        first_match(s1, p) == first_match(s2, p),
    decreases s1.len(),
{
    if s1.len() > 0 && !p(s1[0]) {
        lemma_first_match_same_on(s1.drop_first(), s2.drop_first(), p);
        assert(forall|j: int| 1 <= j < s1.len() ==> #[trigger] s1[j] == s1.drop_first()[j - 1]);
        assert(forall|j: int| 1 <= j < s2.len() ==> #[trigger] s2[j] == s2.drop_first()[j - 1]);
    }
}

/// Two stores with the same ids at the same positions locate every id at the
/// same index.
pub proof fn lemma_task_index_same_ids(s1: Seq<TaskView>, s2: Seq<TaskView>, id: u32)
    requires
        s1.len() == s2.len(),
        forall|j: int| 0 <= j < s1.len() ==> (#[trigger] s1[j]).id == (#[trigger] s2[j]).id,
    ensures
        task_index_of(s1, id) == task_index_of(s2, id),
{
    lemma_first_match_same_on(s1, s2, |t: TaskView| t.id == id);
}

/// An added task's id is strictly greater than every id already in the store.
pub proof fn lemma_add_task_id_fresh(db: DatabaseView, description: Seq<char>, now: u64)
    requires
        max_task_id(db.tasks) < 0xFFFF_FFFFu32,
    ensures
        ({
            let d = add_task_tr(db, description, now);
            &&& d.tasks.len() == db.tasks.len() + 1
            &&& forall|j: int| 0 <= j < db.tasks.len() ==> #[trigger] db.tasks[j].id
                < d.tasks.last().id
            &&& ids_distinct(db.tasks) ==> ids_distinct(d.tasks)
        }),
{
    lemma_max_task_id_ge(db.tasks);
    let d = add_task_tr(db, description, now);
    assert(forall|j: int| 0 <= j < db.tasks.len() ==> #[trigger] d.tasks[j] == db.tasks[j]);
}

/// A successful reorder keeps order values pairwise distinct, globally and
/// hence within every sibling group. Since the other operations leave all
/// order values unchanged and a fresh add uses the fresh id as its order,
/// distinctness survives any sequence of reorder calls.
pub proof fn lemma_reorder_keeps_orders_distinct(db: DatabaseView, task_id: u32, other_task_id: u32)
    requires
        orders_distinct(db.tasks),
        ids_distinct(db.tasks),
    ensures
        reorder_before_tr(db, task_id, other_task_id) matches Ok(d)
            ==> orders_distinct(d.tasks) && sibling_orders_distinct(d.tasks),
        reorder_after_tr(db, task_id, other_task_id) matches Ok(d)
            ==> orders_distinct(d.tasks) && sibling_orders_distinct(d.tasks),
{
    let ia = task_index_of(db.tasks, task_id);
    let ib = task_index_of(db.tasks, other_task_id);
    lemma_task_index_of(db.tasks, task_id);
    lemma_task_index_of(db.tasks, other_task_id);
    if ia != -1 && ib != -1 {
        let mo = db.tasks[ia].order;
        let ao = db.tasks[ib].order;
        if mo >= ao {
            let d = reorder_before_tr(db, task_id, other_task_id).unwrap();
            assert forall|p: int, q: int| 0 <= p < q < d.tasks.len() implies #[trigger] d.tasks[p].order
                != #[trigger] d.tasks[q].order by {
                assert(db.tasks[p].order != db.tasks[q].order);
                if p != ia && q != ia {
                    assert(db.tasks[p].order == mo ==> p == ia);
                    assert(db.tasks[q].order == mo ==> q == ia);
                }
            }
        }
        if mo <= ao {
            let d = reorder_after_tr(db, task_id, other_task_id).unwrap();
            assert forall|p: int, q: int| 0 <= p < q < d.tasks.len() implies #[trigger] d.tasks[p].order
                != #[trigger] d.tasks[q].order by {
                assert(db.tasks[p].order != db.tasks[q].order);
                if p != ia && q != ia {
                    assert(db.tasks[p].order == mo ==> p == ia);
                    assert(db.tasks[q].order == mo ==> q == ia);
                }
            }
        }
    }
}

} // verus!

verus! {

/// Every order value is at most the largest id; adds keep it so, since a
/// fresh task takes the fresh id as its order, and reorders never push an
/// order above the moved task's own.
pub open spec fn orders_bounded(tasks: Seq<TaskView>) -> bool {
    forall|j: int| 0 <= j < tasks.len() ==> (#[trigger] tasks[j]).order <= max_task_id(tasks)
}

/// The largest id depends only on the ids.
proof fn lemma_max_task_id_same_ids(s1: Seq<TaskView>, s2: Seq<TaskView>)
    requires
        s1.len() == s2.len(),
        forall|j: int| 0 <= j < s1.len() ==> (#[trigger] s1[j]).id == (#[trigger] s2[j]).id,
    ensures
        max_task_id(s1) == max_task_id(s2),
    decreases s1.len(),
{
    if s1.len() > 0 {
        assert(forall|j: int| 0 <= j < s1.len() - 1 ==> #[trigger] s1.drop_last()[j] == s1[j]);
        assert(forall|j: int| 0 <= j < s2.len() - 1 ==> #[trigger] s2.drop_last()[j] == s2[j]);
        lemma_max_task_id_same_ids(s1.drop_last(), s2.drop_last());
        assert(s1.last().id == s2.last().id);
    }
}

/// Adding a task keeps order values pairwise distinct and bounded by the
/// largest id: together with the reorder law this keeps invariant order
/// distinctness through any sequence of the defined mutating operations.
pub proof fn lemma_add_task_keeps_order_invariants(
    db: DatabaseView,
    description: Seq<char>,
    now: u64,
)
    requires
        orders_distinct(db.tasks),
        orders_bounded(db.tasks),
        max_task_id(db.tasks) < 0xFFFF_FFFFu32,
    ensures
        orders_distinct(add_task_tr(db, description, now).tasks),
        orders_bounded(add_task_tr(db, description, now).tasks),
{
    let d = add_task_tr(db, description, now);
    lemma_max_task_id_ge(db.tasks);
    assert(d.tasks.drop_last() =~= db.tasks);
    assert(d.tasks.last() == added_task(db, description, now));
    assert(max_task_id(d.tasks) == max_task_id(db.tasks) + 1);
    assert(forall|j: int| 0 <= j < db.tasks.len() ==> #[trigger] d.tasks[j] == db.tasks[j]);
}

/// A successful reorder keeps order values bounded by the largest id.
pub proof fn lemma_reorder_keeps_orders_bounded(db: DatabaseView, task_id: u32, other_task_id: u32)
    requires
        orders_bounded(db.tasks),
    ensures
        reorder_before_tr(db, task_id, other_task_id) matches Ok(d) ==> orders_bounded(d.tasks),
        reorder_after_tr(db, task_id, other_task_id) matches Ok(d) ==> orders_bounded(d.tasks),
{
    let ia = task_index_of(db.tasks, task_id);
    let ib = task_index_of(db.tasks, other_task_id);
    lemma_task_index_of(db.tasks, task_id);
    lemma_task_index_of(db.tasks, other_task_id);
    if ia != -1 && ib != -1 {
        let mo = db.tasks[ia].order;
        let ao = db.tasks[ib].order;
        if mo >= ao {
            let d = reorder_before_tr(db, task_id, other_task_id).unwrap();
            lemma_max_task_id_same_ids(db.tasks, d.tasks);
            assert forall|j: int| 0 <= j < d.tasks.len() implies (#[trigger] d.tasks[j]).order
                <= max_task_id(d.tasks) by {
                assert(db.tasks[j].order <= max_task_id(db.tasks));
                assert(db.tasks[ia].order <= max_task_id(db.tasks));
                assert(db.tasks[ib].order <= max_task_id(db.tasks));
            }
        }
        if mo <= ao {
            let d = reorder_after_tr(db, task_id, other_task_id).unwrap();
            lemma_max_task_id_same_ids(db.tasks, d.tasks);
            assert forall|j: int| 0 <= j < d.tasks.len() implies (#[trigger] d.tasks[j]).order
                <= max_task_id(d.tasks) by {
                assert(db.tasks[j].order <= max_task_id(db.tasks));
                assert(db.tasks[ib].order <= max_task_id(db.tasks));
            }
        }
    }
}

} // verus!
