//! The view projector: the ordered, indented, visibility-filtered task
//! listing and the name-sorted category listing, derived read-only from the
//! stores.

use vstd::prelude::*;
use vstd::string::{StringExecFns, StrSliceExecFns};
use vstd::pervasive::unreached;
use crate::model::{
    Category, CategoryView, Task, TaskView, cat_views, category_index_of, char_to_string,
    lemma_category_index_of, task_time_spent, task_views, SENTINEL_CATEGORY_NAME,
};
use crate::database::{Database, DatabaseView};
use crate::numbers::{padded2, padded2_string};

verus! {

/// Strict lexicographic order on character sequences, by code point.
pub open spec fn lex_lt(a: Seq<char>, b: Seq<char>) -> bool
    decreases a.len(),
{
    if b.len() == 0 {
        false
    } else if a.len() == 0 {
        true
    } else if a[0] != b[0] {
        (a[0] as u32) < (b[0] as u32)
    } else {
        lex_lt(a.drop_first(), b.drop_first())
    }
}

/// Compares two strings lexicographically by code point.
pub fn str_lt(a: &str, b: &str) -> (r: bool)
    ensures
        r == lex_lt(a@, b@),
{
    let alen = a.unicode_len();
    let blen = b.unicode_len();
    let mut i: usize = 0;
    proof {
        assert(a@.skip(0) =~= a@);
        assert(b@.skip(0) =~= b@);
    }
    while i < alen && i < blen
        invariant
            i <= alen,
            i <= blen,
            alen == a@.len(),
            blen == b@.len(),
            lex_lt(a@, b@) == lex_lt(a@.skip(i as int), b@.skip(i as int)),
        decreases alen - i,
    {
        let ca = a.get_char(i);
        let cb = b.get_char(i);
        proof {
            assert(a@.skip(i as int)[0] == a@[i as int]);
            assert(b@.skip(i as int)[0] == b@[i as int]);
            assert(a@.skip(i as int).drop_first() =~= a@.skip(i as int + 1));
            assert(b@.skip(i as int).drop_first() =~= b@.skip(i as int + 1));
        }
        if ca != cb {
            return (ca as u32) < (cb as u32);
        }
        i = i + 1;
    }
    proof {
        if i >= blen {
            assert(b@.skip(i as int).len() == 0);
        } else {
            assert(a@.skip(i as int).len() == 0);
            assert(b@.skip(i as int).len() > 0);
        }
    }
    i < blen
}

/// Whether the category with the given id exists and is visible.
pub open spec fn is_visible(cats: Seq<CategoryView>, category_id: u32) -> bool {
    let i = category_index_of(cats, category_id);
    i >= 0 && cats[i].visible
}

/// Whether a task belongs to the projected level under `parent`.
pub open spec fn selectable(t: TaskView, cats: Seq<CategoryView>, parent: Option<u32>) -> bool {
    is_visible(cats, t.category) && t.parent == parent
}

/// The tasks of one level: children of `parent` whose category is visible,
/// in storage order.
pub open spec fn level_tasks(
    tasks: Seq<TaskView>,
    cats: Seq<CategoryView>,
    parent: Option<u32>,
) -> Seq<TaskView>
    decreases tasks.len(),
{
    if tasks.len() == 0 {
        Seq::empty()
    } else {
        let rest = level_tasks(tasks.drop_last(), cats, parent);
        if selectable(tasks.last(), cats, parent) {
            rest.push(tasks.last())
        } else {
            rest
        }
    }
}

/// One step of `level_tasks` along a prefix.
proof fn lemma_level_tasks_step(
    tasks: Seq<TaskView>,
    cats: Seq<CategoryView>,
    parent: Option<u32>,
    i: int,
)
    requires
        0 <= i < tasks.len(),
    ensures
        level_tasks(tasks.take(i + 1), cats, parent) == if selectable(tasks[i], cats, parent) {
            level_tasks(tasks.take(i), cats, parent).push(tasks[i])
        } else {
            level_tasks(tasks.take(i), cats, parent)
        },
{
    assert(tasks.take(i + 1).drop_last() =~= tasks.take(i));
    assert(tasks.take(i + 1).last() == tasks[i]);
}

/// Every member of a level is selectable there.
pub proof fn lemma_level_tasks_selectable(
    tasks: Seq<TaskView>,
    cats: Seq<CategoryView>,
    parent: Option<u32>,
)
    ensures
        forall|j: int| 0 <= j < level_tasks(tasks, cats, parent).len() ==> selectable(
            #[trigger] level_tasks(tasks, cats, parent)[j],
            cats,
            parent,
        ),
    decreases tasks.len(),
{
    if tasks.len() > 0 {
        lemma_level_tasks_selectable(tasks.drop_last(), cats, parent);
        let rest = level_tasks(tasks.drop_last(), cats, parent);
        let full = level_tasks(tasks, cats, parent);
        assert forall|j: int| 0 <= j < full.len() implies selectable(
            #[trigger] full[j],
            cats,
            parent,
        ) by {
            if selectable(tasks.last(), cats, parent) {
                assert(full == rest.push(tasks.last()));
                if j < rest.len() {
                    assert(full[j] == rest[j]);
                } else {
                    assert(full[j] == tasks.last());
                }
            } else {
                assert(full[j] == rest[j]);
            }
        }
    }
}

/// Stable insertion of a task into a sequence sorted by `order`: the task
/// lands after every element whose order is at most its own.
pub open spec fn insert_by_order(sorted: Seq<TaskView>, x: TaskView) -> Seq<TaskView>
    decreases sorted.len(),
{
    if sorted.len() == 0 {
        seq![x]
    } else if sorted.last().order <= x.order {
        sorted.push(x)
    } else {
        insert_by_order(sorted.drop_last(), x).push(sorted.last())
    }
}

/// Stable sort of a level by `order`; ties keep storage order.
pub open spec fn sort_by_order(s: Seq<TaskView>) -> Seq<TaskView>
    decreases s.len(),
{
    if s.len() == 0 {
        s
    } else {
        insert_by_order(sort_by_order(s.drop_last()), s.last())
    }
}

/// Where the stable insertion lands: directly before the first position
/// (from the right) whose element order exceeds the inserted order.
proof fn lemma_insert_by_order_at(s: Seq<TaskView>, x: TaskView, j: int)
    requires
        0 <= j <= s.len(),
        forall|k: int| j <= k < s.len() ==> (#[trigger] s[k]).order > x.order,
        j > 0 ==> s[j - 1].order <= x.order,
    ensures
        insert_by_order(s, x) == s.subrange(0, j) + seq![x] + s.subrange(j, s.len() as int),
    decreases s.len(),
{
    if j == s.len() {
        if s.len() == 0 {
            assert(insert_by_order(s, x) =~= s.subrange(0, j) + seq![x] + s.subrange(
                j,
                s.len() as int,
            ));
        } else {
            assert(s.last().order <= x.order);
            assert(insert_by_order(s, x) =~= s.subrange(0, j) + seq![x] + s.subrange(
                j,
                s.len() as int,
            ));
        }
    } else {
        assert(s[s.len() - 1].order > x.order);
        lemma_insert_by_order_at(s.drop_last(), x, j);
        assert(s.drop_last().subrange(0, j) =~= s.subrange(0, j));
        assert(s.drop_last().subrange(j, s.len() - 1) =~= s.subrange(j, s.len() - 1));
        assert(insert_by_order(s, x) == insert_by_order(s.drop_last(), x).push(s.last()));
        assert(insert_by_order(s, x) =~= s.subrange(0, j) + seq![x] + s.subrange(
            j,
            s.len() as int,
        ));
    }
}

/// Insertion keeps every property shared by the sequence and the newcomer.
proof fn lemma_insert_by_order_multiset(s: Seq<TaskView>, x: TaskView)
    ensures
        insert_by_order(s, x).to_multiset() == s.to_multiset().insert(x),
        insert_by_order(s, x).len() == s.len() + 1,
    decreases s.len(),
{
    broadcast use vstd::seq_lib::group_to_multiset_ensures;

    if s.len() == 0 {
        assert(seq![x].drop_last() =~= Seq::<TaskView>::empty());
        assert(seq![x].to_multiset() =~= s.to_multiset().insert(x));
    } else if s.last().order <= x.order {
        assert(s.push(x).to_multiset() =~= s.to_multiset().insert(x));
    } else {
        lemma_insert_by_order_multiset(s.drop_last(), x);
        assert(s =~= s.drop_last().push(s.last()));
        assert(s.to_multiset() =~= s.drop_last().to_multiset().insert(s.last()));
        assert(insert_by_order(s, x).to_multiset() =~= insert_by_order(
            s.drop_last(),
            x,
        ).to_multiset().insert(s.last()));
        assert(s.drop_last().to_multiset().insert(x).insert(s.last()) =~= s.drop_last()
            .to_multiset()
            .insert(s.last())
            .insert(x));
    }
}

/// Sorting permutes the level: same length, same multiset of tasks.
pub proof fn lemma_sort_by_order_multiset(s: Seq<TaskView>)
    ensures
        sort_by_order(s).to_multiset() == s.to_multiset(),
        sort_by_order(s).len() == s.len(),
    decreases s.len(),
{
    broadcast use vstd::seq_lib::group_to_multiset_ensures;

    if s.len() > 0 {
        lemma_sort_by_order_multiset(s.drop_last());
        lemma_insert_by_order_multiset(sort_by_order(s.drop_last()), s.last());
        assert(s =~= s.drop_last().push(s.last()));
        assert(s.to_multiset() =~= s.drop_last().to_multiset().insert(s.last()));
    }
}

/// The sorted level is ascending by `order`.
pub proof fn lemma_sort_by_order_sorted(s: Seq<TaskView>)
    ensures
        forall|p: int, q: int| 0 <= p < q < sort_by_order(s).len() ==> (#[trigger] sort_by_order(
            s,
        )[p]).order <= (#[trigger] sort_by_order(s)[q]).order,
    decreases s.len(),
{
    if s.len() > 0 {
        lemma_sort_by_order_sorted(s.drop_last());
        lemma_insert_by_order_sorted(sort_by_order(s.drop_last()), s.last());
    }
}

/// Inserting into an ascending sequence keeps it ascending.
proof fn lemma_insert_by_order_sorted(s: Seq<TaskView>, x: TaskView)
    requires
        forall|p: int, q: int| 0 <= p < q < s.len() ==> (#[trigger] s[p]).order
            <= (#[trigger] s[q]).order,
    ensures
        forall|p: int, q: int| 0 <= p < q < insert_by_order(s, x).len() ==> (
        #[trigger] insert_by_order(s, x)[p]).order <= (#[trigger] insert_by_order(s, x)[q]).order,
    decreases s.len(),
{
    if s.len() == 0 {
    } else if s.last().order <= x.order {
        let r = s.push(x);
        assert forall|p: int, q: int| 0 <= p < q < r.len() implies (#[trigger] r[p]).order
            <= (#[trigger] r[q]).order by {
            if q == r.len() - 1 {
                if p < s.len() - 1 {
                    assert(s[p].order <= s[s.len() - 1].order);
                }
            }
        }
    } else {
        lemma_insert_by_order_sorted(s.drop_last(), x);
        let inner = insert_by_order(s.drop_last(), x);
        let r = inner.push(s.last());
        lemma_insert_by_order_multiset(s.drop_last(), x);
        lemma_insert_by_order_elems(s.drop_last(), x);
        assert forall|p: int, q: int| 0 <= p < q < r.len() implies (#[trigger] r[p]).order
            <= (#[trigger] r[q]).order by {
            if q == r.len() - 1 {
                assert(r[q].order == s.last().order);
                assert(r[p] == inner[p]);
            }
        }
    }
}

/// Every element of an insertion result has the order bound of its sources.
proof fn lemma_insert_by_order_elems(s: Seq<TaskView>, x: TaskView)
    ensures
        forall|p: int| 0 <= p < insert_by_order(s, x).len() ==> (#[trigger] insert_by_order(
            s,
            x,
        )[p]) == x || (exists|k: int| 0 <= k < s.len() && insert_by_order(s, x)[p] == s[k]),
    decreases s.len(),
{
    if s.len() == 0 {
    } else if s.last().order <= x.order {
    } else {
        lemma_insert_by_order_elems(s.drop_last(), x);
        let inner = insert_by_order(s.drop_last(), x);
        let r = inner.push(s.last());
        assert forall|p: int| 0 <= p < r.len() implies (#[trigger] r[p]) == x || (exists|k: int|
            0 <= k < s.len() && r[p] == s[k]) by {
            if p == r.len() - 1 {
                assert(r[p] == s[s.len() - 1]);
            } else {
                assert(r[p] == inner[p]);
                if inner[p] != x {
                    let k = choose|k: int| 0 <= k < s.drop_last().len() && inner[p]
                        == s.drop_last()[k];
                    assert(r[p] == s[k]);
                }
            }
        }
    }
}

/// Everything in a sorted level was in the level, hence selectable.
pub proof fn lemma_sort_by_order_elems(s: Seq<TaskView>)
    ensures
        forall|p: int| 0 <= p < sort_by_order(s).len() ==> exists|k: int|
            0 <= k < s.len() && #[trigger] sort_by_order(s)[p] == s[k],
    decreases s.len(),
{
    if s.len() > 0 {
        lemma_sort_by_order_elems(s.drop_last());
        lemma_insert_by_order_elems(sort_by_order(s.drop_last()), s.last());
        let r = sort_by_order(s);
        assert forall|p: int| 0 <= p < r.len() implies exists|k: int|
            0 <= k < s.len() && #[trigger] r[p] == s[k] by {
            if r[p] == s.last() {
                assert(r[p] == s[s.len() - 1]);
            } else {
                let q = choose|q: int| 0 <= q < sort_by_order(s.drop_last()).len()
                    && r[p] == sort_by_order(s.drop_last())[q];
                let k = choose|k: int| 0 <= k < s.drop_last().len() && sort_by_order(
                    s.drop_last(),
                )[q] == s.drop_last()[k];
                assert(r[p] == s[k]);
            }
        }
    }
}

} // verus!

verus! {

/// Mathematical image of one projected task row.
pub ghost struct PrinteableTaskView {
    pub id: u32,
    pub description: Seq<char>,
    pub done: bool,
    pub time_spent: nat,
    pub pomodoro_active: bool,
    pub indent: u32,
    pub category: CategoryView,
    pub date_added: u64,
}

/// One row of the projected task listing.
#[derive(Debug, PartialEq)]
pub struct PrinteableTask {
    pub id: u32,
    pub description: String,
    pub done: bool,
    pub time_spent: u128,
    pub pomodoro_active: bool,
    pub indent: u32,
    pub category: Category,
    pub date_added: u64,
}

impl View for PrinteableTask {
    type V = PrinteableTaskView;

    open spec fn view(&self) -> PrinteableTaskView {
        PrinteableTaskView {
            id: self.id,
            description: self.description@,
            done: self.done,
            time_spent: self.time_spent as nat,
            pomodoro_active: self.pomodoro_active,
            indent: self.indent,
            category: self.category@,
            date_added: self.date_added,
        }
    }
}

/// Mathematical images of a sequence of rows.
pub open spec fn row_views(s: Seq<PrinteableTask>) -> Seq<PrinteableTaskView> {
    s.map_values(|r: PrinteableTask| r@)
}

/// The row a task projects to at a given depth and time.
pub open spec fn row_of(
    t: TaskView,
    cats: Seq<CategoryView>,
    indent: u32,
    now: u64,
) -> PrinteableTaskView {
    PrinteableTaskView {
        id: t.id,
        description: t.description,
        done: t.done,
        time_spent: task_time_spent(t, now),
        pomodoro_active: t.active_pomodoro_jointime.is_some(),
        indent,
        category: cats[category_index_of(cats, t.category)],
        date_added: t.date_added,
    }
}

/// The projected rows of one level and, below each row, of its subtree.
///
/// `level` is the already filtered and sorted selection of the current
/// level; each row is followed directly by the full projection of its
/// children, one level deeper. `fuel` bounds the recursion depth; every
/// call this library makes supplies more fuel than any parent chain over
/// distinct task ids can consume, so the bound is never felt.
pub open spec fn project_rows(
    tasks: Seq<TaskView>,
    cats: Seq<CategoryView>,
    level: Seq<TaskView>,
    indent: u32,
    now: u64,
    fuel: nat,
) -> Seq<PrinteableTaskView>
    decreases fuel, level.len(),
{
    if level.len() == 0 {
        Seq::empty()
    } else {
        let head = level[0];
        let children = if fuel == 0 {
            Seq::<PrinteableTaskView>::empty()
        } else {
            project_rows(
                tasks,
                cats,
                sort_by_order(level_tasks(tasks, cats, Some(head.id))),
                (indent + 1) as u32,
                now,
                (fuel - 1) as nat,
            )
        };
        seq![row_of(head, cats, indent, now)] + children + project_rows(
            tasks,
            cats,
            level.drop_first(),
            indent,
            now,
            fuel,
        )
    }
}

/// The full projection under `parent`: pre-order over the filtered, sorted
/// levels.
pub open spec fn project_tasks(
    tasks: Seq<TaskView>,
    cats: Seq<CategoryView>,
    parent: Option<u32>,
    indent: u32,
    now: u64,
    fuel: nat,
) -> Seq<PrinteableTaskView> {
    project_rows(tasks, cats, sort_by_order(level_tasks(tasks, cats, parent)), indent, now, fuel)
}

/// Whether two optional ids are the same.
fn opt_u32_eq(a: Option<u32>, b: Option<u32>) -> (r: bool)
    ensures
        r == (a == b),
{
    match (a, b) {
        (None, None) => true,
        (Some(x), Some(y)) => x == y,
        _ => false,
    }
}

/// The tasks of one level, in storage order: children of `parent` whose
/// category is visible.
fn select_level(tasks: &Vec<Task>, categories: &Vec<Category>, parent: Option<u32>) -> (r: Vec<
    Task,
>)
    ensures
        task_views(r@) == level_tasks(task_views(tasks@), cat_views(categories@), parent),
{
    let mut out: Vec<Task> = Vec::new();
    let mut i: usize = 0;
    while i < tasks.len()
        invariant
            i <= tasks.len(),
            task_views(out@) == level_tasks(
                task_views(tasks@).take(i as int),
                cat_views(categories@),
                parent,
            ),
        decreases tasks.len() - i,
    {
        let ghost prevout = out@;
        proof {
            lemma_level_tasks_step(task_views(tasks@), cat_views(categories@), parent, i as int);
            assert(task_views(tasks@)[i as int] == tasks@[i as int]@);
        }
        let vis = match crate::model::get_category_by_id(categories.as_slice(), tasks[i].category) {
            Some(c) => c.visible,
            None => false,
        };
        if vis && opt_u32_eq(tasks[i].parent, parent) {
            out.push(tasks[i].clone());
            proof {
                assert(task_views(out@) =~= task_views(prevout).push(tasks@[i as int]@));
                assert(selectable(task_views(tasks@)[i as int], cat_views(categories@), parent));
            }
        } else {
            proof {
                assert(!selectable(task_views(tasks@)[i as int], cat_views(categories@), parent));
            }
        }
        i = i + 1;
    }
    proof {
        assert(task_views(tasks@).take(tasks@.len() as int) =~= task_views(tasks@));
    }
    out
}

/// Stable insertion sort of a level by `order`.
fn sort_level_by_order(v: Vec<Task>) -> (r: Vec<Task>)
    ensures
        task_views(r@) == sort_by_order(task_views(v@)),
{
    let mut out: Vec<Task> = Vec::new();
    let mut i: usize = 0;
    while i < v.len()
        invariant
            i <= v.len(),
            out@.len() == task_views(v@).take(i as int).len(),
            task_views(out@) == sort_by_order(task_views(v@).take(i as int)),
        decreases v.len() - i,
    {
        proof {
            lemma_sort_by_order_multiset(task_views(v@).take(i as int));
        }
        let x = v[i].clone();
        let mut j: usize = out.len();
        while j > 0 && out[j - 1].order > x.order
            invariant
                j <= out@.len(),
                x@ == v@[i as int]@,
                forall|k: int| j <= k < out@.len() ==> (#[trigger] task_views(out@)[k]).order
                    > x@.order,
            decreases j,
        {
            proof {
                assert(task_views(out@)[j - 1] == out@[j - 1]@);
            }
            j = j - 1;
        }
        proof {
            if j > 0 {
                assert(task_views(out@)[j - 1] == out@[j - 1]@);
            }
        }
        let ghost prevout = out@;
        out.insert(j, x);
        proof {
            lemma_insert_by_order_at(task_views(prevout), x@, j as int);
            assert(task_views(v@).take(i as int + 1).drop_last() =~= task_views(v@).take(
                i as int,
            ));
            assert(task_views(v@).take(i as int + 1).last() == v@[i as int]@);
            assert(task_views(out@) =~= task_views(prevout).subrange(0, j as int) + seq![x@]
                + task_views(prevout).subrange(j as int, prevout.len() as int));
        }
        i = i + 1;
    }
    proof {
        assert(task_views(v@).take(v@.len() as int) =~= task_views(v@));
    }
    out
}

impl PrinteableTask {
    /// The row for one task: its category must exist.
    pub fn new(task: &Task, categories: &Vec<Category>, indent: u32, now: u64) -> (r:
        PrinteableTask)
        requires
            category_index_of(cat_views(categories@), task@.category) >= 0,
        ensures
            r@ == row_of(task@, cat_views(categories@), indent, now),
    {
        let category = match crate::model::get_category_by_id(categories.as_slice(), task.category) {
            Some(c) => c.clone(),
            None => unreached(),
        };
        PrinteableTask {
            id: task.id,
            description: task.description.clone(),
            done: task.done,
            time_spent: task.time_spent(now),
            pomodoro_active: task.pomodoro_active(),
            indent,
            category,
            date_added: task.date_added,
        }
    }
}

/// Pre-order projection of the levels below `parent`, with explicit fuel.
fn project_exec(
    tasks: &Vec<Task>,
    categories: &Vec<Category>,
    parent: Option<u32>,
    indent: u32,
    now: u64,
    fuel: usize,
) -> (r: Vec<PrinteableTask>)
    requires
        indent as int + fuel as int <= 0xFFFF_FFFFu32,
    ensures
        row_views(r@) == project_tasks(
            task_views(tasks@),
            cat_views(categories@),
            parent,
            indent,
            now,
            fuel as nat,
        ),
    decreases fuel,
{
    let ghost tv = task_views(tasks@);
    let ghost cv = cat_views(categories@);
    let level = sort_level_by_order(select_level(tasks, categories, parent));
    let ghost levelv = task_views(level@);
    proof {
        lemma_level_tasks_selectable(tv, cv, parent);
        lemma_sort_by_order_elems(level_tasks(tv, cv, parent));
        assert forall|p: int| 0 <= p < levelv.len() implies selectable(
            #[trigger] levelv[p],
            cv,
            parent,
        ) by {
            let k = choose|k: int|
                0 <= k < level_tasks(tv, cv, parent).len() && levelv[p] == level_tasks(
                    tv,
                    cv,
                    parent,
                )[k];
            assert(selectable(level_tasks(tv, cv, parent)[k], cv, parent));
        }
    }
    let mut out: Vec<PrinteableTask> = Vec::new();
    let mut i: usize = 0;
    proof {
        assert(levelv.skip(0) =~= levelv);
        assert(row_views(out@) =~= Seq::<PrinteableTaskView>::empty());
    }
    while i < level.len()
        invariant
            i <= level.len(),
            levelv == task_views(level@),
            indent as int + fuel as int <= 0xFFFF_FFFFu32,
            project_rows(tv, cv, levelv, indent, now, fuel as nat) == row_views(out@)
                + project_rows(tv, cv, levelv.skip(i as int), indent, now, fuel as nat),
            forall|p: int| 0 <= p < levelv.len() ==> selectable(#[trigger] levelv[p], cv, parent),
            tv == task_views(tasks@),
            cv == cat_views(categories@),
        decreases level.len() - i,
    {
        proof {
            assert(levelv[i as int] == level@[i as int]@);
            assert(levelv.skip(i as int)[0] == levelv[i as int]);
            assert(levelv.skip(i as int).drop_first() =~= levelv.skip(i as int + 1));
            assert(selectable(levelv[i as int], cv, parent));
        }
        let ghost out0 = out@;
        let row = PrinteableTask::new(&level[i], categories, indent, now);
        out.push(row);
        if fuel > 0 {
            let mut ch = project_exec(
                tasks,
                categories,
                Some(level[i].id),
                indent + 1,
                now,
                fuel - 1,
            );
            let ghost chv = ch@;
            out.append(&mut ch);
            proof {
                assert(row_views(out@) =~= row_views(out0) + seq![
                    row_of(levelv[i as int], cv, indent, now),
                ] + row_views(chv));
            }
        } else {
            proof {
                assert(row_views(out@) =~= row_views(out0) + seq![
                    row_of(levelv[i as int], cv, indent, now),
                ] + Seq::<PrinteableTaskView>::empty());
            }
        }
        i = i + 1;
    }
    proof {
        assert(levelv.skip(levelv.len() as int) =~= Seq::<TaskView>::empty());
        assert(row_views(out@) + Seq::<PrinteableTaskView>::empty() =~= row_views(out@));
    }
    out
}

/// The ordered, indented, visibility-filtered task listing below `parent`:
/// a pre-order walk that lists each selected task directly before the full
/// block of its children.
///
/// A task whose category is missing or invisible is skipped together with
/// its subtree. Duplicate task ids make the parent walk ill-defined; with
/// distinct ids, the internal depth bound of one more than the number of
/// tasks is never reached.
pub fn get_printeable_tasklist(
    tasks: &Vec<Task>,
    categories: &Vec<Category>,
    parent: Option<u32>,
    indent: u32,
    now: u64,
) -> (r: Vec<PrinteableTask>)
    requires
        tasks@.len() + indent as int + 1 <= 0xFFFF_FFFFu32,
    ensures
        row_views(r@) == project_tasks(
            task_views(tasks@),
            cat_views(categories@),
            parent,
            indent,
            now,
            (tasks@.len() + 1) as nat,
        ),
{
    project_exec(tasks, categories, parent, indent, now, tasks.len() + 1)
}

/// Every projected row carries a visible category.
pub proof fn lemma_project_rows_visible(
    tasks: Seq<TaskView>,
    cats: Seq<CategoryView>,
    level: Seq<TaskView>,
    indent: u32,
    now: u64,
    fuel: nat,
)
    requires
        forall|p: int| 0 <= p < level.len() ==> is_visible(cats, (#[trigger] level[p]).category),
    ensures
        forall|j: int| 0 <= j < project_rows(tasks, cats, level, indent, now, fuel).len()
            ==> (#[trigger] project_rows(tasks, cats, level, indent, now, fuel)[j])
            .category
            .visible,
    decreases fuel, level.len(),
{
    if level.len() > 0 {
        let head = level[0];
        let r = project_rows(tasks, cats, level, indent, now, fuel);
        let children = if fuel == 0 {
            Seq::<PrinteableTaskView>::empty()
        } else {
            project_rows(
                tasks,
                cats,
                sort_by_order(level_tasks(tasks, cats, Some(head.id))),
                (indent + 1) as u32,
                now,
                (fuel - 1) as nat,
            )
        };
        if fuel > 0 {
            let sub = sort_by_order(level_tasks(tasks, cats, Some(head.id)));
            lemma_level_tasks_selectable(tasks, cats, Some(head.id));
            lemma_sort_by_order_elems(level_tasks(tasks, cats, Some(head.id)));
            assert forall|p: int| 0 <= p < sub.len() implies is_visible(
                cats,
                (#[trigger] sub[p]).category,
            ) by {
                let k = choose|k: int|
                    0 <= k < level_tasks(tasks, cats, Some(head.id)).len() && sub[p]
                        == level_tasks(tasks, cats, Some(head.id))[k];
                assert(selectable(level_tasks(tasks, cats, Some(head.id))[k], cats, Some(head.id)));
            }
            lemma_project_rows_visible(
                tasks,
                cats,
                sub,
                (indent + 1) as u32,
                now,
                (fuel - 1) as nat,
            );
        }
        assert(forall|p: int| 0 <= p < level.drop_first().len() ==> is_visible(
            cats,
            (#[trigger] level.drop_first()[p]).category,
        ));
        lemma_project_rows_visible(tasks, cats, level.drop_first(), indent, now, fuel);
        let tail = project_rows(tasks, cats, level.drop_first(), indent, now, fuel);
        assert forall|j: int| 0 <= j < r.len() implies (#[trigger] r[j]).category.visible by {
            if j == 0 {
                assert(r[0] == row_of(head, cats, indent, now));
                assert(is_visible(cats, head.category));
            } else if j < 1 + children.len() {
                assert(r[j] == children[j - 1]);
            } else {
                assert(r[j] == tail[j - 1 - children.len()]);
            }
        }
    }
}

/// The projection never includes a task whose category is invisible: every
/// row of `projectTasks` carries a visible category.
pub proof fn lemma_projection_only_visible(
    tasks: Seq<TaskView>,
    cats: Seq<CategoryView>,
    parent: Option<u32>,
    indent: u32,
    now: u64,
    fuel: nat,
)
    ensures
        forall|j: int| 0 <= j < project_tasks(tasks, cats, parent, indent, now, fuel).len()
            ==> (#[trigger] project_tasks(tasks, cats, parent, indent, now, fuel)[j])
            .category
            .visible,
{
    let level = sort_by_order(level_tasks(tasks, cats, parent));
    lemma_level_tasks_selectable(tasks, cats, parent);
    lemma_sort_by_order_elems(level_tasks(tasks, cats, parent));
    assert forall|p: int| 0 <= p < level.len() implies is_visible(
        cats,
        (#[trigger] level[p]).category,
    ) by {
        let k = choose|k: int|
            0 <= k < level_tasks(tasks, cats, parent).len() && level[p] == level_tasks(
                tasks,
                cats,
                parent,
            )[k];
        assert(selectable(level_tasks(tasks, cats, parent)[k], cats, parent));
    }
    lemma_project_rows_visible(tasks, cats, level, indent, now, fuel);
}

} // verus!

verus! {

/// The checkbox text of a row: done beats active beats pending.
pub open spec fn checkbox_label(done: bool, active: bool) -> Seq<char> {
    if done {
        "[x]"@
    } else if active {
        "[*]"@
    } else {
        "[ ]"@
    }
}

/// The elapsed-time text: hours, minutes and seconds, each at least two
/// digits, separated by colons.
pub open spec fn time_label(total: nat) -> Seq<char> {
    padded2(total / 3600) + seq![':'] + padded2((total / 60) % 60) + seq![':'] + padded2(
        total % 60,
    )
}

/// The category text of a row: the sentinel renders as the empty string.
pub open spec fn category_label(c: CategoryView) -> Seq<char> {
    if c.name == SENTINEL_CATEGORY_NAME@ {
        Seq::empty()
    } else {
        c.name
    }
}

/// Two spaces per indent level.
pub open spec fn indent_spaces(n: nat) -> Seq<char>
    decreases n,
{
    if n == 0 {
        Seq::empty()
    } else {
        indent_spaces((n - 1) as nat) + seq![' ', ' ']
    }
}

impl PrinteableTask {
    /// The checkbox text of this row.
    pub fn get_checkbox_string(&self) -> (r: String)
        ensures
            r@ == checkbox_label(self@.done, self@.pomodoro_active),
    {
        if self.done {
            String::from_str("[x]")
        } else if self.pomodoro_active {
            String::from_str("[*]")
        } else {
            String::from_str("[ ]")
        }
    }

    /// The elapsed-time text of this row.
    pub fn get_time_spent_string(&self) -> (r: String)
        ensures
            r@ == time_label(self@.time_spent),
    {
        proof {
            reveal_strlit(":");
        }
        let mut s = padded2_string(self.time_spent / 3600);
        s.append(":");
        let m = padded2_string((self.time_spent / 60) % 60);
        s.append(m.as_str());
        s.append(":");
        let sec = padded2_string(self.time_spent % 60);
        s.append(sec.as_str());
        proof {
            assert(s@ =~= time_label(self@.time_spent));
        }
        s
    }

    /// The category text of this row.
    pub fn get_category_string(&self) -> (r: String)
        ensures
            r@ == category_label(self@.category),
    {
        let sentinel = String::from_str(SENTINEL_CATEGORY_NAME);
        if self.category.name == sentinel {
            String::new()
        } else {
            self.category.name.clone()
        }
    }

    /// The description text of this row, indented two spaces per level.
    pub fn get_description_string(&self) -> (r: String)
        ensures
            r@ == indent_spaces(self@.indent as nat) + self@.description,
    {
        proof {
            reveal_strlit("  ");
        }
        let mut s = String::new();
        let mut k: u32 = 0;
        proof {
            assert(s@ =~= indent_spaces(0));
        }
        while k < self.indent
            invariant
                k <= self.indent,
                s@ == indent_spaces(k as nat),
            decreases self.indent - k,
        {
            s.append("  ");
            proof {
                reveal_strlit("  ");
                assert("  "@ =~= seq![' ', ' ']);
            }
            k = k + 1;
        }
        s.append(self.description.as_str());
        s
    }
}

/// Mathematical image of one projected category row.
pub ghost struct PrinteableCategoryView {
    pub id: u32,
    pub category: CategoryView,
    pub default: bool,
}

/// One row of the projected category listing.
#[derive(Debug, PartialEq)]
pub struct PrinteableCategory {
    pub id: u32,
    pub category: Category,
    pub default: bool,
}

impl View for PrinteableCategory {
    type V = PrinteableCategoryView;

    open spec fn view(&self) -> PrinteableCategoryView {
        PrinteableCategoryView { id: self.id, category: self.category@, default: self.default }
    }
}

impl Clone for PrinteableCategory {
    /// Cloning keeps the mathematical image.
    fn clone(&self) -> (r: Self)
        ensures
            r@ == self@,
    {
        PrinteableCategory { id: self.id, category: self.category.clone(), default: self.default }
    }
}

/// Mathematical images of a sequence of category rows.
pub open spec fn pcat_views(s: Seq<PrinteableCategory>) -> Seq<PrinteableCategoryView> {
    s.map_values(|r: PrinteableCategory| r@)
}

impl PrinteableCategory {
    /// A category row; `default` marks the current default category.
    pub fn new(category: Category, default: bool) -> (r: PrinteableCategory)
        ensures
            r@ == (PrinteableCategoryView { id: category@.id, category: category@, default }),
    {
        PrinteableCategory { id: category.id, category, default }
    }

    /// The visibility marker of this row.
    pub fn get_visible_string(&self) -> (r: String)
        ensures
            r@ == (if self@.category.visible {
                "(x)"@
            } else {
                "( )"@
            }),
    {
        match self.category.visible {
            true => String::from_str("(x)"),
            false => String::from_str("( )"),
        }
    }

    /// The hotkey marker of this row: the hotkey in parentheses, or nothing.
    pub fn get_hotkey_string(&self) -> (r: String)
        ensures
            r@ == (match self@.category.hotkey {
                Some(h) => seq!['('] + seq![h] + seq![')'],
                None => Seq::<char>::empty(),
            }),
    {
        match self.category.hotkey {
            Some(hotkey) => {
                proof {
                    reveal_strlit("(");
                    reveal_strlit(")");
                }
                let mut s = String::from_str("(");
                let h = char_to_string(hotkey);
                s.append(h.as_str());
                s.append(")");
                proof {
                    assert(s@ =~= seq!['('] + seq![hotkey] + seq![')']);
                }
                s
            },
            None => String::new(),
        }
    }

    /// The display name of this row: the sentinel renders as a human label,
    /// and the default category is marked.
    pub fn get_description_string(&self) -> (r: String)
        ensures
            r@ == ({
                let base = if self@.category.name == SENTINEL_CATEGORY_NAME@ {
                    "no category"@
                } else {
                    self@.category.name
                };
                if self@.default {
                    base + " (default)"@
                } else {
                    base
                }
            }),
    {
        let sentinel = String::from_str(SENTINEL_CATEGORY_NAME);
        let name = if self.category.name == sentinel {
            String::from_str("no category")
        } else {
            self.category.name.clone()
        };
        match self.default {
            true => {
                let mut s = name;
                s.append(" (default)");
                s
            },
            false => name,
        }
    }
}

/// Stable insertion of a category row into a sequence sorted by name: the
/// row lands after every row whose name does not come after its own.
pub open spec fn insert_by_name(
    sorted: Seq<PrinteableCategoryView>,
    x: PrinteableCategoryView,
) -> Seq<PrinteableCategoryView>
    decreases sorted.len(),
{
    if sorted.len() == 0 {
        seq![x]
    } else if !lex_lt(x.category.name, sorted.last().category.name) {
        sorted.push(x)
    } else {
        insert_by_name(sorted.drop_last(), x).push(sorted.last())
    }
}

/// Stable sort of category rows by name; ties keep storage order.
pub open spec fn sort_by_name(s: Seq<PrinteableCategoryView>) -> Seq<PrinteableCategoryView>
    decreases s.len(),
{
    if s.len() == 0 {
        s
    } else {
        insert_by_name(sort_by_name(s.drop_last()), s.last())
    }
}

/// Where the stable insertion by name lands.
proof fn lemma_insert_by_name_at(
    s: Seq<PrinteableCategoryView>,
    x: PrinteableCategoryView,
    j: int,
)
    requires
        0 <= j <= s.len(),
        forall|k: int| j <= k < s.len() ==> lex_lt(x.category.name, (#[trigger] s[k]).category.name),
        j > 0 ==> !lex_lt(x.category.name, s[j - 1].category.name),
    ensures
        insert_by_name(s, x) == s.subrange(0, j) + seq![x] + s.subrange(j, s.len() as int),
    decreases s.len(),
{
    if j == s.len() {
        if s.len() == 0 {
            assert(insert_by_name(s, x) =~= s.subrange(0, j) + seq![x] + s.subrange(
                j,
                s.len() as int,
            ));
        } else {
            assert(!lex_lt(x.category.name, s.last().category.name));
            assert(insert_by_name(s, x) =~= s.subrange(0, j) + seq![x] + s.subrange(
                j,
                s.len() as int,
            ));
        }
    } else {
        assert(lex_lt(x.category.name, s[s.len() - 1].category.name));
        lemma_insert_by_name_at(s.drop_last(), x, j);
        assert(s.drop_last().subrange(0, j) =~= s.subrange(0, j));
        assert(s.drop_last().subrange(j, s.len() - 1) =~= s.subrange(j, s.len() - 1));
        assert(insert_by_name(s, x) =~= s.subrange(0, j) + seq![x] + s.subrange(
            j,
            s.len() as int,
        ));
    }
}

/// The category rows before sorting: one per category, in storage order,
/// marked as default exactly when its id is the default id.
pub open spec fn pcat_list(
    cats: Seq<CategoryView>,
    default_id: u32,
) -> Seq<PrinteableCategoryView> {
    cats.map_values(
        |c: CategoryView|
            PrinteableCategoryView { id: c.id, category: c, default: c.id == default_id },
    )
}

impl Database {
    /// The projected task listing of the whole aggregate at time `now`.
    pub fn tasks_printeable(&self, now: u64) -> (r: Vec<PrinteableTask>)
        requires
            self@.tasks.len() + 1 <= 0xFFFF_FFFFu32,
        ensures
            row_views(r@) == project_tasks(
                self@.tasks,
                self@.categories,
                None,
                0,
                now,
                (self@.tasks.len() + 1) as nat,
            ),
    {
        get_printeable_tasklist(&self.tasks, &self.categories, None, 0, now)
    }

    /// The category listing: every category, sorted by name, the default one
    /// marked.
    pub fn categories_printeable(&self) -> (r: Vec<PrinteableCategory>)
        ensures
            pcat_views(r@) == sort_by_name(
                pcat_list(self@.categories, self@.default_category_id),
            ),
    {
        let ghost listed = pcat_list(self@.categories, self@.default_category_id);
        let mut rows: Vec<PrinteableCategory> = Vec::new();
        let mut i: usize = 0;
        while i < self.categories.len()
            invariant
                i <= self.categories.len(),
                pcat_views(rows@) == pcat_list(
                    self@.categories,
                    self@.default_category_id,
                ).take(i as int),
            decreases self.categories.len() - i,
        {
            let ghost prev = rows@;
            let is_default = self.default_category_id == self.categories[i].id;
            rows.push(PrinteableCategory::new(self.categories[i].clone(), is_default));
            proof {
                assert(self@.categories[i as int] == self.categories@[i as int]@);
                assert forall|k: int| 0 <= k < prev.len() implies #[trigger] pcat_views(rows@)[k]
                    == pcat_views(prev)[k] by {
                    assert(rows@[k] == prev[k]);
                }
                assert(pcat_list(self@.categories, self@.default_category_id).len()
                    == self@.categories.len());
                assert(pcat_views(prev).len() == prev.len());
                assert(prev.len() == i as int);
                assert(pcat_views(rows@)[prev.len() as int] == rows@[prev.len() as int]@);
                assert(pcat_list(self@.categories, self@.default_category_id)[i as int]
                    == (PrinteableCategoryView {
                    id: self@.categories[i as int].id,
                    category: self@.categories[i as int],
                    default: self@.categories[i as int].id == self@.default_category_id,
                }));
                assert(rows@[prev.len() as int]@ == pcat_list(
                    self@.categories,
                    self@.default_category_id,
                )[i as int]);
                assert(pcat_views(rows@) =~= pcat_list(
                    self@.categories,
                    self@.default_category_id,
                ).take(i as int + 1));
            }
            i = i + 1;
        }
        proof {
            assert(listed.take(listed.len() as int) =~= listed);
        }
        let mut out: Vec<PrinteableCategory> = Vec::new();
        let mut i: usize = 0;
        while i < rows.len()
            invariant
                i <= rows.len(),
                pcat_views(rows@) == listed,
                out@.len() <= i,
                pcat_views(out@) == sort_by_name(listed.take(i as int)),
            decreases rows.len() - i,
        {
            let x = rows[i].clone();
            let mut j: usize = out.len();
            while j > 0 && str_lt(x.category.name.as_str(), out[j - 1].category.name.as_str())
                invariant
                    j <= out@.len(),
                    x@ == listed[i as int],
                    pcat_views(rows@) == listed,
                    i < rows@.len(),
                    forall|k: int| j <= k < out@.len() ==> lex_lt(
                        x@.category.name,
                        (#[trigger] pcat_views(out@)[k]).category.name,
                    ),
                decreases j,
            {
                proof {
                    assert(pcat_views(out@)[j - 1] == out@[j - 1]@);
                }
                j = j - 1;
            }
            proof {
                if j > 0 {
                    assert(pcat_views(out@)[j - 1] == out@[j - 1]@);
                }
            }
            let ghost prevout = out@;
            out.insert(j, x);
            proof {
                lemma_insert_by_name_at(pcat_views(prevout), x@, j as int);
                assert(listed.take(i as int + 1).drop_last() =~= listed.take(i as int));
                assert(listed.take(i as int + 1).last() == listed[i as int]);
                assert(pcat_views(out@) =~= pcat_views(prevout).subrange(0, j as int) + seq![x@]
                    + pcat_views(prevout).subrange(j as int, prevout.len() as int));
            }
            i = i + 1;
        }
        proof {
            assert(listed.take(rows@.len() as int) =~= listed);
        }
        out
    }
}

} // verus!

verus! {

/// Following the parent links from the task with the given id reaches a root
/// in exactly `n` steps: the task has exactly `n` ancestors.
pub open spec fn chain_ok_id(tasks: Seq<TaskView>, id: u32, n: nat) -> bool
    decreases n,
{
    let i = crate::model::task_index_of(tasks, id);
    0 <= i < tasks.len() && match tasks[i].parent {
        None => n == 0,
        Some(p) => n >= 1 && chain_ok_id(tasks, p, (n - 1) as nat),
    }
}

/// The stored parent of the task with the given id.
pub open spec fn parent_of(tasks: Seq<TaskView>, id: u32) -> Option<u32> {
    tasks[crate::model::task_index_of(tasks, id)].parent
}

/// With distinct ids, a task found in the store is what its id resolves to.
proof fn lemma_resolve(tasks: Seq<TaskView>, k: int)
    requires
        crate::database::ids_distinct(tasks),
        0 <= k < tasks.len(),
    ensures
        crate::model::task_index_of(tasks, tasks[k].id) == k,
{
    crate::model::lemma_task_index_of(tasks, tasks[k].id);
    let i = crate::model::task_index_of(tasks, tasks[k].id);
    if i != k {
        assert(tasks[i].id == tasks[k].id);
    }
}

/// Every member of a level appears in the store.
proof fn lemma_level_tasks_member(
    tasks: Seq<TaskView>,
    cats: Seq<CategoryView>,
    parent: Option<u32>,
)
    ensures
        forall|p: int| 0 <= p < level_tasks(tasks, cats, parent).len() ==> exists|k: int|
            0 <= k < tasks.len() && #[trigger] level_tasks(tasks, cats, parent)[p] == tasks[k],
    decreases tasks.len(),
{
    if tasks.len() > 0 {
        lemma_level_tasks_member(tasks.drop_last(), cats, parent);
        let rest = level_tasks(tasks.drop_last(), cats, parent);
        let full = level_tasks(tasks, cats, parent);
        assert forall|p: int| 0 <= p < full.len() implies exists|k: int|
            0 <= k < tasks.len() && #[trigger] full[p] == tasks[k] by {
            if selectable(tasks.last(), cats, parent) && p == rest.len() {
                assert(full[p] == tasks[tasks.len() - 1]);
            } else {
                assert(full[p] == rest[p]);
                let k = choose|k: int|
                    0 <= k < tasks.drop_last().len() && rest[p] == tasks.drop_last()[k];
                assert(full[p] == tasks[k]);
            }
        }
    }
}

/// A sorted level keeps membership of the store.
proof fn lemma_sorted_level_member(
    tasks: Seq<TaskView>,
    cats: Seq<CategoryView>,
    parent: Option<u32>,
)
    ensures
        forall|p: int|
            0 <= p < sort_by_order(level_tasks(tasks, cats, parent)).len() ==> exists|k: int|
                0 <= k < tasks.len() && #[trigger] sort_by_order(
                    level_tasks(tasks, cats, parent),
                )[p] == tasks[k],
        forall|p: int|
            0 <= p < sort_by_order(level_tasks(tasks, cats, parent)).len()
                ==> (#[trigger] sort_by_order(level_tasks(tasks, cats, parent))[p]).parent
                == parent,
{
    let level = level_tasks(tasks, cats, parent);
    let sorted = sort_by_order(level);
    lemma_level_tasks_member(tasks, cats, parent);
    lemma_level_tasks_selectable(tasks, cats, parent);
    lemma_sort_by_order_elems(level);
    assert forall|p: int| 0 <= p < sorted.len() implies (exists|k: int|
        0 <= k < tasks.len() && #[trigger] sorted[p] == tasks[k]) && sorted[p].parent
        == parent by {
        let q = choose|q: int| 0 <= q < level.len() && sorted[p] == level[q];
        assert(selectable(level[q], cats, parent));
        let k = choose|k: int| 0 <= k < tasks.len() && level[q] == tasks[k];
        assert(sorted[p] == tasks[k]);
    }
}

/// Every projected row's indent is at least the level it was emitted at,
/// equals the number of its ancestors, and a row exactly at the level is a
/// child of the level's parent.
#[verifier::rlimit(100)]
proof fn lemma_project_rows_depth(
    tasks: Seq<TaskView>,
    cats: Seq<CategoryView>,
    level: Seq<TaskView>,
    indent: u32,
    now: u64,
    fuel: nat,
    parent: Option<u32>,
)
    requires
        indent as int + fuel <= 0xFFFF_FFFFu32,
        crate::database::ids_distinct(tasks),
        forall|p: int| 0 <= p < level.len() ==> exists|k: int|
            0 <= k < tasks.len() && #[trigger] level[p] == tasks[k],
        forall|p: int| 0 <= p < level.len() ==> (#[trigger] level[p]).parent == parent,
        match parent {
            None => indent == 0,
            Some(q) => indent >= 1 && chain_ok_id(tasks, q, (indent - 1) as nat),
        },
    ensures
        ({
            let out = project_rows(tasks, cats, level, indent, now, fuel);
            &&& forall|j: int| 0 <= j < out.len() ==> (#[trigger] out[j]).indent >= indent
            &&& forall|j: int| 0 <= j < out.len() ==> chain_ok_id(
                tasks,
                (#[trigger] out[j]).id,
                out[j].indent as nat,
            )
            &&& forall|j: int| 0 <= j < out.len() && (#[trigger] out[j]).indent == indent
                ==> parent_of(tasks, out[j].id) == parent
        }),
    decreases fuel, level.len(),
{
    let out = project_rows(tasks, cats, level, indent, now, fuel);
    if level.len() == 0 {
        return ;
    }
    let head = level[0];
    let k = choose|k: int| 0 <= k < tasks.len() && level[0] == tasks[k];
    lemma_resolve(tasks, k);
    assert(chain_ok_id(tasks, head.id, indent as nat));
    assert(parent_of(tasks, head.id) == parent);
    let children = if fuel == 0 {
        Seq::<PrinteableTaskView>::empty()
    } else {
        project_rows(
            tasks,
            cats,
            sort_by_order(level_tasks(tasks, cats, Some(head.id))),
            (indent + 1) as u32,
            now,
            (fuel - 1) as nat,
        )
    };
    if fuel > 0 {
        lemma_sorted_level_member(tasks, cats, Some(head.id));
        lemma_project_rows_depth(
            tasks,
            cats,
            sort_by_order(level_tasks(tasks, cats, Some(head.id))),
            (indent + 1) as u32,
            now,
            (fuel - 1) as nat,
            Some(head.id),
        );
    }
    assert(forall|p: int| 0 <= p < level.drop_first().len() ==> exists|k2: int|
        0 <= k2 < tasks.len() && #[trigger] level.drop_first()[p] == tasks[k2]);
    assert(forall|p: int| 0 <= p < level.drop_first().len()
        ==> (#[trigger] level.drop_first()[p]).parent == parent);
    lemma_project_rows_depth(tasks, cats, level.drop_first(), indent, now, fuel, parent);
    let tail = project_rows(tasks, cats, level.drop_first(), indent, now, fuel);
    assert(out == seq![row_of(head, cats, indent, now)] + children + tail);
    assert(forall|m: int| 0 < m < 1 + children.len() ==> #[trigger] out[m] == children[m - 1]);
    assert(forall|m: int| 1 + children.len() <= m < out.len() ==> #[trigger] out[m] == tail[m - 1
        - children.len()]);
    assert(out[0] == row_of(head, cats, indent, now));
    assert forall|j: int| 0 <= j < out.len() implies (#[trigger] out[j]).indent >= indent
        && chain_ok_id(tasks, out[j].id, out[j].indent as nat) && (out[j].indent == indent
        ==> parent_of(tasks, out[j].id) == parent) by {
        if j == 0 {
        } else if j < 1 + children.len() {
            assert(out[j] == children[j - 1]);
            assert(out[j].indent >= indent + 1);
        } else {
            assert(out[j] == tail[j - 1 - children.len()]);
        }
    }
}

/// Every projected row deeper than the level it was emitted at lies inside
/// the contiguous block of its parent's row: the parent's row stands before
/// it, one level shallower, and every row in between is deeper than the
/// parent's row.
#[verifier::rlimit(100)]
proof fn lemma_project_rows_block(
    tasks: Seq<TaskView>,
    cats: Seq<CategoryView>,
    level: Seq<TaskView>,
    indent: u32,
    now: u64,
    fuel: nat,
    parent: Option<u32>,
)
    requires
        indent as int + fuel <= 0xFFFF_FFFFu32,
        crate::database::ids_distinct(tasks),
        forall|p: int| 0 <= p < level.len() ==> exists|k: int|
            0 <= k < tasks.len() && #[trigger] level[p] == tasks[k],
        forall|p: int| 0 <= p < level.len() ==> (#[trigger] level[p]).parent == parent,
        match parent {
            None => indent == 0,
            Some(q) => indent >= 1 && chain_ok_id(tasks, q, (indent - 1) as nat),
        },
    ensures
        ({
            let out = project_rows(tasks, cats, level, indent, now, fuel);
            forall|j: int| 0 <= j < out.len() && (#[trigger] out[j]).indent > indent ==> exists|
                i: int,
            |
                0 <= i < j && parent_of(tasks, out[j].id) == Some((#[trigger] out[i]).id)
                    && out[i].indent == out[j].indent - 1 && (forall|m: int|
                    i < m < j ==> (#[trigger] out[m]).indent > out[i].indent)
        }),
    decreases fuel, level.len(),
{
    let out = project_rows(tasks, cats, level, indent, now, fuel);
    if level.len() == 0 {
        return ;
    }
    let head = level[0];
    let k = choose|k: int| 0 <= k < tasks.len() && level[0] == tasks[k];
    lemma_resolve(tasks, k);
    assert(chain_ok_id(tasks, head.id, indent as nat));
    let children = if fuel == 0 {
        Seq::<PrinteableTaskView>::empty()
    } else {
        project_rows(
            tasks,
            cats,
            sort_by_order(level_tasks(tasks, cats, Some(head.id))),
            (indent + 1) as u32,
            now,
            (fuel - 1) as nat,
        )
    };
    if fuel > 0 {
        let sub = sort_by_order(level_tasks(tasks, cats, Some(head.id)));
        lemma_sorted_level_member(tasks, cats, Some(head.id));
        lemma_project_rows_depth(
            tasks,
            cats,
            sub,
            (indent + 1) as u32,
            now,
            (fuel - 1) as nat,
            Some(head.id),
        );
        lemma_project_rows_block(
            tasks,
            cats,
            sub,
            (indent + 1) as u32,
            now,
            (fuel - 1) as nat,
            Some(head.id),
        );
    }
    assert(forall|p: int| 0 <= p < level.drop_first().len() ==> exists|k2: int|
        0 <= k2 < tasks.len() && #[trigger] level.drop_first()[p] == tasks[k2]);
    assert(forall|p: int| 0 <= p < level.drop_first().len()
        ==> (#[trigger] level.drop_first()[p]).parent == parent);
    lemma_project_rows_block(tasks, cats, level.drop_first(), indent, now, fuel, parent);
    let tail = project_rows(tasks, cats, level.drop_first(), indent, now, fuel);
    assert(out == seq![row_of(head, cats, indent, now)] + children + tail);
    assert(forall|m: int| 0 < m < 1 + children.len() ==> #[trigger] out[m] == children[m - 1]);
    assert(forall|m: int| 1 + children.len() <= m < out.len() ==> #[trigger] out[m] == tail[m - 1
        - children.len()]);
    assert(out[0] == row_of(head, cats, indent, now));
    assert(forall|jc: int| 0 <= jc < children.len() ==> (#[trigger] children[jc]).indent >= indent
        + 1);
    assert forall|j: int|
        0 <= j < out.len() && (#[trigger] out[j]).indent > indent implies exists|i: int|
        0 <= i < j && parent_of(tasks, out[j].id) == Some((#[trigger] out[i]).id) && out[i].indent
            == out[j].indent - 1 && (forall|m: int|
            i < m < j ==> (#[trigger] out[m]).indent > out[i].indent) by {
        if 0 < j < 1 + children.len() {
            let jc = j - 1;
            assert(out[j] == children[jc]);
            if children[jc].indent == indent + 1 {
                assert(parent_of(tasks, children[jc].id) == Some(head.id));
                assert(0 <= 0 < j && parent_of(tasks, out[j].id) == Some(out[0].id)
                    && out[0].indent == out[j].indent - 1 && (forall|m: int|
                    0 < m < j ==> (#[trigger] out[m]).indent > out[0].indent));
            } else {
                assert(children[jc].indent > indent + 1);
                let ic = choose|ic: int|
                    0 <= ic < jc && parent_of(tasks, children[jc].id) == Some(
                        (#[trigger] children[ic]).id,
                    ) && children[ic].indent == children[jc].indent - 1 && (forall|m: int|
                        ic < m < jc ==> (#[trigger] children[m]).indent > children[ic].indent);
                let i = 1 + ic;
                assert(out[i] == children[ic]);
                assert(forall|m: int| i < m < j ==> #[trigger] out[m] == children[m - 1]);
                assert(0 <= i < j && parent_of(tasks, out[j].id) == Some(out[i].id)
                    && out[i].indent == out[j].indent - 1 && (forall|m: int|
                    i < m < j ==> (#[trigger] out[m]).indent > out[i].indent));
            }
        } else if j >= 1 + children.len() {
            let jt = j - 1 - children.len();
            assert(out[j] == tail[jt]);
            let it = choose|it: int|
                0 <= it < jt && parent_of(tasks, tail[jt].id) == Some((#[trigger] tail[it]).id)
                    && tail[it].indent == tail[jt].indent - 1 && (forall|m: int|
                    it < m < jt ==> (#[trigger] tail[m]).indent > tail[it].indent);
            let i = 1 + children.len() + it;
            assert(out[i] == tail[it]);
            assert(forall|m: int| i < m < j ==> #[trigger] out[m] == tail[m - 1 - children.len()]);
            assert(0 <= i < j && parent_of(tasks, out[j].id) == Some(out[i].id) && out[i].indent
                == out[j].indent - 1 && (forall|m: int|
                i < m < j ==> (#[trigger] out[m]).indent > out[i].indent));
        }
    }
}

/// The projection is a valid pre-order walk: a row's indent equals the
/// number of its ancestors, and every row below the top level stands inside
/// the contiguous block directly after its parent's row — the parent's row
/// comes first, one level shallower, and no row in between steps outside
/// that block.
pub proof fn lemma_projection_preorder(
    tasks: Seq<TaskView>,
    cats: Seq<CategoryView>,
    now: u64,
    fuel: nat,
)
    requires
        fuel <= 0xFFFF_FFFFu32,
        crate::database::ids_distinct(tasks),
    ensures
        ({
            let out = project_tasks(tasks, cats, None, 0, now, fuel);
            &&& forall|j: int| 0 <= j < out.len() ==> chain_ok_id(
                tasks,
                (#[trigger] out[j]).id,
                out[j].indent as nat,
            )
            &&& forall|j: int| 0 <= j < out.len() && (#[trigger] out[j]).indent > 0 ==> exists|
                i: int,
            |
                0 <= i < j && parent_of(tasks, out[j].id) == Some((#[trigger] out[i]).id)
                    && out[i].indent == out[j].indent - 1 && (forall|m: int|
                    i < m < j ==> (#[trigger] out[m]).indent > out[i].indent)
        }),
{
    lemma_sorted_level_member(tasks, cats, None);
    lemma_project_rows_depth(
        tasks,
        cats,
        sort_by_order(level_tasks(tasks, cats, None)),
        0,
        now,
        fuel,
        None,
    );
    lemma_project_rows_block(
        tasks,
        cats,
        sort_by_order(level_tasks(tasks, cats, None)),
        0,
        now,
        fuel,
        None,
    );
}

} // verus!

verus! {

/// How many tasks of a level are ordered strictly before `o`.
pub open spec fn count_lt(s: Seq<TaskView>, o: int) -> nat
    decreases s.len(),
{
    if s.len() == 0 {
        0
    } else {
        count_lt(s.drop_last(), o) + if (s.last().order as int) < o {
            1nat
        } else {
            0nat
        }
    }
}

/// Every task of a level ordered before `o` counts.
proof fn lemma_count_lt_all(s: Seq<TaskView>, o: int)
    requires
        forall|k: int| 0 <= k < s.len() ==> (#[trigger] s[k]).order < o,
    ensures
        count_lt(s, o) == s.len(),
    decreases s.len(),
{
    if s.len() > 0 {
        lemma_count_lt_all(s.drop_last(), o);
    }
}

/// In a level sorted ascending by pairwise distinct orders, every entry
/// stands exactly at the number of entries ordered before it: its rank is
/// its index.
pub proof fn lemma_sorted_rank(s: Seq<TaskView>, i: int)
    requires
        forall|p: int, q: int| 0 <= p < q < s.len() ==> (#[trigger] s[p]).order
            <= (#[trigger] s[q]).order,
        forall|p: int, q: int| 0 <= p < q < s.len() ==> (#[trigger] s[p]).order
            != (#[trigger] s[q]).order,
        0 <= i < s.len(),
    ensures
        count_lt(s, s[i].order as int) == i,
    decreases s.len(),
{
    let o = s[i].order as int;
    if i == s.len() - 1 {
        assert(forall|k: int| 0 <= k < s.drop_last().len() ==> (#[trigger] s.drop_last()[k]).order
            < o) by {
            assert(forall|k: int| 0 <= k < s.len() - 1 ==> #[trigger] s.drop_last()[k] == s[k]);
        }
        lemma_count_lt_all(s.drop_last(), o);
    } else {
        assert(forall|k: int| 0 <= k < s.len() - 1 ==> #[trigger] s.drop_last()[k] == s[k]);
        lemma_sorted_rank(s.drop_last(), i);
        assert(s.last().order > o);
    }
}

/// Two stores whose tasks agree on parent and category, and whose orders
/// fall on the same side of two pivots for every selectable task, put the
/// same number of level members before the pivots.
proof fn lemma_count_lt_pointwise(
    t0: Seq<TaskView>,
    t2: Seq<TaskView>,
    cats: Seq<CategoryView>,
    parent: Option<u32>,
    o0: int,
    o2: int,
)
    requires
        t0.len() == t2.len(),
        forall|k: int| 0 <= k < t0.len() ==> (#[trigger] t2[k]).parent == (#[trigger] t0[k]).parent
            && t2[k].category == t0[k].category,
        forall|k: int| 0 <= k < t0.len() && selectable(#[trigger] t0[k], cats, parent)
            ==> ((t0[k].order < o0) <==> ((#[trigger] t2[k]).order < o2)),
    ensures
        count_lt(level_tasks(t0, cats, parent), o0) == count_lt(level_tasks(t2, cats, parent), o2),
    decreases t0.len(),
{
    if t0.len() > 0 {
        assert(forall|k: int| 0 <= k < t0.len() - 1 ==> #[trigger] t0.drop_last()[k] == t0[k]);
        assert(forall|k: int| 0 <= k < t2.len() - 1 ==> #[trigger] t2.drop_last()[k] == t2[k]);
        lemma_count_lt_pointwise(t0.drop_last(), t2.drop_last(), cats, parent, o0, o2);
        assert(t0.last() == t0[t0.len() - 1]);
        assert(t2.last() == t2[t2.len() - 1]);
        assert(selectable(t0.last(), cats, parent) == selectable(t2.last(), cats, parent));
        if selectable(t0.last(), cats, parent) {
            assert(level_tasks(t0, cats, parent) == level_tasks(
                t0.drop_last(),
                cats,
                parent,
            ).push(t0.last()));
            assert(level_tasks(t2, cats, parent) == level_tasks(
                t2.drop_last(),
                cats,
                parent,
            ).push(t2.last()));
            assert(level_tasks(t0, cats, parent).drop_last() =~= level_tasks(
                t0.drop_last(),
                cats,
                parent,
            ));
            assert(level_tasks(t2, cats, parent).drop_last() =~= level_tasks(
                t2.drop_last(),
                cats,
                parent,
            ));
        }
    }
}

/// Moving a task directly before an anchor and then directly after it
/// restores the task's relative position among its visible siblings, as long
/// as no visible sibling is ordered strictly between the two, though the
/// task's numeric order value may differ afterwards.
///
/// The position is the task's rank in its projected sibling group: the
/// number of visible siblings ordered before it, which `lemma_sorted_rank`
/// identifies with the row's index in the sorted group. A visible sibling
/// ordered strictly between anchor and task is one input on which the
/// restoration does not hold: the pair of moves would put the task directly
/// after the anchor, in front of that sibling.
pub proof fn lemma_reorder_before_after_restores_position(db: DatabaseView, a: u32, b: u32)
    requires
        crate::database::ids_distinct(db.tasks),
        crate::database::orders_distinct(db.tasks),
        a != b,
        crate::model::task_index_of(db.tasks, a) >= 0,
        crate::model::task_index_of(db.tasks, b) >= 0,
        db.tasks[crate::model::task_index_of(db.tasks, a)].order > db.tasks[
            crate::model::task_index_of(db.tasks, b)
        ].order,
        forall|k: int|
            0 <= k < db.tasks.len() && (#[trigger] db.tasks[k]).parent == db.tasks[
                crate::model::task_index_of(db.tasks, a)
            ].parent && is_visible(db.categories, db.tasks[k].category) ==> !(db.tasks[
            crate::model::task_index_of(db.tasks, b)
        ].order < db.tasks[k].order < db.tasks[crate::model::task_index_of(db.tasks, a)].order),
    ensures
        crate::database::reorder_before_tr(db, a, b) is Ok,
        crate::database::reorder_after_tr(
            crate::database::reorder_before_tr(db, a, b).unwrap(),
            a,
            b,
        ) is Ok,
        ({
            let ia = crate::model::task_index_of(db.tasks, a);
            let d2 = crate::database::reorder_after_tr(
                crate::database::reorder_before_tr(db, a, b).unwrap(),
                a,
                b,
            ).unwrap();
            let parent = db.tasks[ia].parent;
            &&& d2.tasks[ia].parent == parent
            &&& count_lt(
                level_tasks(d2.tasks, d2.categories, parent),
                d2.tasks[ia].order as int,
            ) == count_lt(level_tasks(db.tasks, db.categories, parent), db.tasks[ia].order as int)
        }),
{
    let ia = crate::model::task_index_of(db.tasks, a);
    let ib = crate::model::task_index_of(db.tasks, b);
    crate::model::lemma_task_index_of(db.tasks, a);
    crate::model::lemma_task_index_of(db.tasks, b);
    let mo = db.tasks[ia].order;
    let ao = db.tasks[ib].order;
    assert(ia != ib);
    let d1 = crate::database::reorder_before_tr(db, a, b).unwrap();
    assert(forall|j: int| 0 <= j < db.tasks.len() ==> (#[trigger] d1.tasks[j]).id
        == db.tasks[j].id && d1.tasks[j].parent == db.tasks[j].parent && d1.tasks[j].category
        == db.tasks[j].category);
    crate::database::lemma_task_index_same_ids(db.tasks, d1.tasks, a);
    crate::database::lemma_task_index_same_ids(db.tasks, d1.tasks, b);
    assert(d1.tasks[ia].order == ao);
    assert(d1.tasks[ib].order == ao + 1);
    let d2 = crate::database::reorder_after_tr(d1, a, b).unwrap();
    assert(forall|j: int| 0 <= j < db.tasks.len() ==> (#[trigger] d2.tasks[j]).id
        == db.tasks[j].id && d2.tasks[j].parent == db.tasks[j].parent && d2.tasks[j].category
        == db.tasks[j].category);
    assert(d2.tasks[ia].order == ao + 1);
    assert(d2.tasks[ib].order == ao);
    let parent = db.tasks[ia].parent;
    assert(d2.categories == db.categories);
    assert forall|k: int|
        0 <= k < db.tasks.len() && selectable(#[trigger] db.tasks[k], db.categories, parent)
        implies ((db.tasks[k].order < mo) <==> ((#[trigger] d2.tasks[k]).order < ao
        + 1)) by {
        if k == ia {
        } else if k == ib {
        } else {
            assert(db.tasks[k].order != mo);
            assert(db.tasks[k].order != ao);
            assert(db.tasks[k].parent == parent);
            assert(!(ao < db.tasks[k].order < mo));
            if db.tasks[k].order < ao {
                assert(d1.tasks[k].order == db.tasks[k].order);
                assert(d2.tasks[k].order == db.tasks[k].order);
            } else {
                assert(db.tasks[k].order > mo);
                assert(d1.tasks[k].order == db.tasks[k].order);
                assert(d2.tasks[k].order == db.tasks[k].order);
            }
        }
    }
    lemma_count_lt_pointwise(
        db.tasks,
        d2.tasks,
        db.categories,
        parent,
        mo as int,
        ao + 1,
    );
}

} // verus!
