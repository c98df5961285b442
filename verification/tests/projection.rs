use pti::database::Database;
use pti::model::{Category, Pomodoro, Task};
use pti::view::{get_printeable_tasklist, str_lt, PrinteableCategory, PrinteableTask};

fn task_with(id: u32, description: &str, category: u32, parent: Option<u32>, order: u32) -> Task {
    Task {
        id,
        description: description.to_string(),
        done: false,
        past_pomodoros: Vec::new(),
        active_pomodoro_jointime: None,
        parent,
        category,
        date_added: 5,
        order,
    }
}

fn category_with(id: u32, name: &str, visible: bool) -> Category {
    Category { id, name: name.to_string(), hotkey: None, visible }
}

#[test]
fn invisible_category_hides_its_tasks() {
    // categories [{0,"nocat",visible},{1,"work",invisible}],
    // tasks [{id:5,cat:0,parent:none,order:5},{id:6,cat:1,parent:none,order:6}]
    let db = Database {
        tasks: vec![
            task_with(5, "shown", 0, None, 5),
            task_with(6, "hidden", 1, None, 6),
        ],
        categories: vec![
            category_with(0, "nocat", true),
            category_with(1, "work", false),
        ],
        pomodoro_duration_minutes: 25,
        active_pomodoro_starttime: None,
        default_category_id: 0,
    };
    let rows = db.tasks_printeable(50);
    assert_eq!(rows.len(), 1);
    assert_eq!(rows[0].id, 5);
    assert!(rows.iter().all(|r| r.category.visible));
}

#[test]
fn projection_is_preorder_with_indent_per_ancestor() {
    // a: root with children b (order 2) and c (order 1); d: second root
    let db = Database {
        tasks: vec![
            task_with(1, "a", 0, None, 10),
            task_with(2, "b", 0, Some(1), 2),
            task_with(3, "c", 0, Some(1), 1),
            task_with(4, "d", 0, None, 20),
            task_with(5, "e", 0, Some(3), 1),
        ],
        categories: vec![category_with(0, "nocat", true)],
        pomodoro_duration_minutes: 25,
        active_pomodoro_starttime: None,
        default_category_id: 0,
    };
    let rows = db.tasks_printeable(50);
    let ids: Vec<u32> = rows.iter().map(|r| r.id).collect();
    // pre-order: a, then its children sorted by order (c before b), with
    // c's subtree directly after c; then the second root
    assert_eq!(ids, vec![1, 3, 5, 2, 4]);
    let indents: Vec<u32> = rows.iter().map(|r| r.indent).collect();
    assert_eq!(indents, vec![0, 1, 2, 1, 0]);
}

#[test]
fn sibling_order_ties_keep_storage_order() {
    let db = Database {
        tasks: vec![
            task_with(1, "first stored", 0, None, 3),
            task_with(2, "second stored", 0, None, 3),
            task_with(3, "earlier order", 0, None, 1),
        ],
        categories: vec![category_with(0, "nocat", true)],
        pomodoro_duration_minutes: 25,
        active_pomodoro_starttime: None,
        default_category_id: 0,
    };
    let rows = get_printeable_tasklist(&db.tasks, &db.categories, None, 0, 50);
    let ids: Vec<u32> = rows.iter().map(|r| r.id).collect();
    assert_eq!(ids, vec![3, 1, 2]);
}

#[test]
fn reorder_before_then_after_restores_sibling_position() {
    // siblings a(1), b(2), c(3) in order 1,2,3; b and c adjacent
    let mut db = Database {
        tasks: vec![
            task_with(1, "a", 0, None, 1),
            task_with(2, "b", 0, None, 2),
            task_with(3, "c", 0, None, 3),
        ],
        categories: vec![category_with(0, "nocat", true)],
        pomodoro_duration_minutes: 25,
        active_pomodoro_starttime: None,
        default_category_id: 0,
    };
    let before: Vec<u32> = db.tasks_printeable(9).iter().map(|r| r.id).collect();
    assert_eq!(before, vec![1, 2, 3]);
    db.order_task_before_other(3, 2).unwrap();
    let moved: Vec<u32> = db.tasks_printeable(9).iter().map(|r| r.id).collect();
    assert_eq!(moved, vec![1, 3, 2]);
    db.order_task_after_other(3, 2).unwrap();
    let after: Vec<u32> = db.tasks_printeable(9).iter().map(|r| r.id).collect();
    assert_eq!(after, before);
    // the numeric order value may differ from the original one
    assert_eq!(db.tasks[2].order, 3);
}

#[test]
fn checkbox_prefers_done_over_active() {
    let cats = vec![category_with(0, "nocat", true)];
    let mut t = task_with(1, "x", 0, None, 1);
    t.done = true;
    t.active_pomodoro_jointime = Some(10);
    let row = PrinteableTask::new(&t, &cats, 0, 20);
    assert_eq!(row.get_checkbox_string(), "[x]");
    let mut t2 = task_with(2, "y", 0, None, 2);
    t2.active_pomodoro_jointime = Some(10);
    let row2 = PrinteableTask::new(&t2, &cats, 0, 20);
    assert_eq!(row2.get_checkbox_string(), "[*]");
    let t3 = task_with(3, "z", 0, None, 3);
    let row3 = PrinteableTask::new(&t3, &cats, 0, 20);
    assert_eq!(row3.get_checkbox_string(), "[ ]");
}

#[test]
fn time_spent_string_formats_hours_minutes_seconds() {
    let cats = vec![category_with(0, "nocat", true)];
    let mut t = task_with(1, "x", 0, None, 1);
    t.past_pomodoros.push(Pomodoro {
        start_time: 0,
        end_time: 1 * 3600 + 5 * 60 + 9,
    });
    let row = PrinteableTask::new(&t, &cats, 0, 99_999);
    assert_eq!(row.get_time_spent_string(), "01:05:09");
    let t2 = task_with(2, "y", 0, None, 2);
    let row2 = PrinteableTask::new(&t2, &cats, 0, 99_999);
    assert_eq!(row2.get_time_spent_string(), "00:00:00");
}

#[test]
fn category_string_hides_the_sentinel_name() {
    let cats = vec![
        category_with(0, "nocat", true),
        category_with(1, "work", true),
    ];
    let t = task_with(1, "x", 0, None, 1);
    let row = PrinteableTask::new(&t, &cats, 0, 5);
    assert_eq!(row.get_category_string(), "");
    let t2 = task_with(2, "y", 1, None, 2);
    let row2 = PrinteableTask::new(&t2, &cats, 0, 5);
    assert_eq!(row2.get_category_string(), "work");
}

#[test]
fn description_string_indents_two_spaces_per_level() {
    let cats = vec![category_with(0, "nocat", true)];
    let t = task_with(1, "deep", 0, None, 1);
    let row = PrinteableTask::new(&t, &cats, 2, 5);
    assert_eq!(row.get_description_string(), "    deep");
}

#[test]
fn categories_printeable_sorts_by_name_and_marks_default() {
    let mut db = Database::new();
    db.categories.push(Category::new(1, "beta".to_string(), Some('b')));
    db.categories.push(Category::new(2, "alpha".to_string(), None));
    db.make_default_category(2);
    let rows = db.categories_printeable();
    let names: Vec<String> = rows.iter().map(|r| r.category.name.clone()).collect();
    assert_eq!(names, vec!["alpha".to_string(), "beta".to_string(), "nocat".to_string()]);
    assert_eq!(rows[0].get_description_string(), "alpha (default)");
    assert_eq!(rows[1].get_description_string(), "beta");
    assert_eq!(rows[2].get_description_string(), "no category");
    assert_eq!(rows[1].get_hotkey_string(), "(b)");
    assert_eq!(rows[0].get_hotkey_string(), "");
    assert_eq!(rows[0].get_visible_string(), "(x)");
}

#[test]
fn hidden_category_marker_shows_state() {
    let pc = PrinteableCategory::new(category_with(3, "quiet", false), false);
    assert_eq!(pc.get_visible_string(), "( )");
}

#[test]
fn string_order_is_lexicographic() {
    assert!(str_lt("alpha", "beta"));
    assert!(!str_lt("beta", "alpha"));
    assert!(str_lt("alp", "alpha"));
    assert!(!str_lt("alpha", "alpha"));
    assert!(str_lt("Zoo", "apple")); // by code point, upper case first
}
