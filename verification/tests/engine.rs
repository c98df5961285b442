use pti::database::Database;
use pti::model::{Category, Pomodoro, Task, TrackerError};
use pti::selection::{nearest_selection, retain_selection, select_first, select_next, select_previous};
use pti::session::SweepOutcome;

fn plain_task(id: u32, description: &str, category: u32, order: u32) -> Task {
    Task {
        id,
        description: description.to_string(),
        done: false,
        past_pomodoros: Vec::new(),
        active_pomodoro_jointime: None,
        parent: None,
        category,
        date_added: 1000,
        order,
    }
}

fn small_db() -> Database {
    let mut db = Database::new();
    db.add_task_from_string("alpha".to_string(), 100);
    db.add_task_from_string("beta".to_string(), 200);
    db.add_task_from_string("gamma".to_string(), 300);
    db
}

#[test]
fn new_database_has_sentinel_category() {
    let db = Database::new();
    assert_eq!(db.tasks.len(), 0);
    assert_eq!(db.categories.len(), 1);
    assert_eq!(db.categories[0].id, 0);
    assert_eq!(db.categories[0].name, "nocat");
    assert_eq!(db.categories[0].hotkey, Some('u'));
    assert!(db.categories[0].visible);
    assert_eq!(db.pomodoro_duration_minutes, 25);
    assert_eq!(db.active_pomodoro_starttime, None);
    assert_eq!(db.default_category_id, 0);
}

#[test]
fn add_task_assigns_increasing_ids_and_orders() {
    let mut db = Database::new();
    db.add_task_from_string("first".to_string(), 50);
    assert_eq!(db.tasks[0].id, 1);
    assert_eq!(db.tasks[0].order, 1);
    assert_eq!(db.tasks[0].date_added, 50);
    assert_eq!(db.tasks[0].category, 0);
    db.add_task_from_string("second".to_string(), 60);
    assert_eq!(db.tasks[1].id, 2);
    assert!(db.tasks[1].id > db.tasks[0].id);
    db.tasks[0].id = 7;
    db.add_task_from_string("third".to_string(), 70);
    assert_eq!(db.tasks[2].id, 8);
}

#[test]
fn toggle_done_twice_restores_value() {
    let mut db = small_db();
    assert!(!db.tasks[1].done);
    assert_eq!(db.check_task(2), Ok(()));
    assert!(db.tasks[1].done);
    assert_eq!(db.check_task(2), Ok(()));
    assert!(!db.tasks[1].done);
}

#[test]
fn check_task_missing_id_reports_not_found() {
    let mut db = small_db();
    assert_eq!(db.check_task(99), Err(TrackerError::NotFound));
}

#[test]
fn set_category_overwrites_without_validation() {
    let mut db = small_db();
    assert_eq!(db.set_category(1, 42), Ok(()));
    assert_eq!(db.tasks[0].category, 42);
    assert_eq!(db.set_category(77, 0), Err(TrackerError::NotFound));
}

#[test]
fn toggle_category_visible_flips_and_reports_not_found() {
    let mut db = Database::new();
    assert_eq!(db.toggle_category_visible(0), Ok(()));
    assert!(!db.categories[0].visible);
    assert_eq!(db.toggle_category_visible(0), Ok(()));
    assert!(db.categories[0].visible);
    assert_eq!(db.toggle_category_visible(5), Err(TrackerError::NotFound));
}

#[test]
fn make_default_category_is_unconditional() {
    let mut db = Database::new();
    db.make_default_category(9);
    assert_eq!(db.default_category_id, 9);
    db.add_task_from_string("uses default".to_string(), 10);
    assert_eq!(db.tasks[0].category, 9);
}

#[test]
fn category_lookup_by_id_finds_first_match() {
    let cats = vec![
        Category::new(0, "nocat".to_string(), Some('u')),
        Category::new(3, "deep".to_string(), None),
    ];
    assert_eq!(pti::model::get_category_by_id(&cats, 3).map(|c| c.name.as_str()), Some("deep"));
    assert!(pti::model::get_category_by_id(&cats, 9).is_none());
}

#[test]
fn hotkey_lookup_returns_first_match() {
    let mut db = Database::new();
    db.categories.push(Category::new(1, "work".to_string(), Some('w')));
    db.categories.push(Category::new(2, "work2".to_string(), Some('w')));
    let found = db.get_category_by_hotkey('w').expect("hotkey should match");
    assert_eq!(found.id, 1);
    assert!(db.get_category_by_hotkey('z').is_none());
}

#[test]
fn reorder_before_shifts_span_up() {
    let mut db = small_db();
    // orders: alpha 1, beta 2, gamma 3; move gamma before alpha
    assert_eq!(db.order_task_before_other(3, 1), Ok(()));
    assert_eq!(db.tasks[0].order, 2); // alpha
    assert_eq!(db.tasks[1].order, 3); // beta
    assert_eq!(db.tasks[2].order, 1); // gamma
}

#[test]
fn reorder_after_shifts_span_down() {
    let mut db = small_db();
    // move alpha after gamma
    assert_eq!(db.order_task_after_other(1, 3), Ok(()));
    assert_eq!(db.tasks[0].order, 3); // alpha
    assert_eq!(db.tasks[1].order, 1); // beta
    assert_eq!(db.tasks[2].order, 2); // gamma
}

#[test]
fn reorder_already_satisfied_is_reported() {
    let mut db = small_db();
    assert_eq!(db.order_task_before_other(1, 3), Err(TrackerError::AlreadyOrdered));
    assert_eq!(db.order_task_after_other(3, 1), Err(TrackerError::AlreadyOrdered));
    assert_eq!(db.order_task_before_other(9, 1), Err(TrackerError::NotFound));
    assert_eq!(db.order_task_after_other(1, 9), Err(TrackerError::NotFound));
}

#[test]
fn orders_stay_pairwise_distinct_after_reorders() {
    let mut db = small_db();
    db.add_task_from_string("delta".to_string(), 400);
    db.add_task_from_string("epsilon".to_string(), 500);
    assert_eq!(db.order_task_before_other(4, 2), Ok(()));
    assert_eq!(db.order_task_after_other(1, 5), Ok(()));
    assert_eq!(db.order_task_before_other(5, 4), Ok(()));
    let mut orders: Vec<u32> = db.tasks.iter().map(|t| t.order).collect();
    orders.sort();
    orders.dedup();
    assert_eq!(orders.len(), db.tasks.len());
}

#[test]
fn join_while_no_session_sets_session_start() {
    let mut db = small_db();
    assert_eq!(db.active_pomodoro_starttime, None);
    assert_eq!(db.toggle_pomodoro(1, 1000), Ok(()));
    assert_eq!(db.active_pomodoro_starttime, Some(1000));
    assert_eq!(db.tasks[0].active_pomodoro_jointime, Some(1000));
    // a second task joins later: the session start is kept
    assert_eq!(db.toggle_pomodoro(2, 1100), Ok(()));
    assert_eq!(db.active_pomodoro_starttime, Some(1000));
    assert_eq!(db.tasks[1].active_pomodoro_jointime, Some(1100));
}

#[test]
fn leaving_last_active_task_clears_session() {
    let mut db = small_db();
    db.toggle_pomodoro(1, 1000).unwrap();
    db.toggle_pomodoro(2, 1100).unwrap();
    // leave the first: one task still joined, session stays
    assert_eq!(db.toggle_pomodoro(1, 1200), Ok(()));
    assert_eq!(db.active_pomodoro_starttime, Some(1000));
    assert_eq!(db.tasks[0].active_pomodoro_jointime, None);
    assert_eq!(
        db.tasks[0].past_pomodoros,
        vec![Pomodoro { start_time: 1000, end_time: 1200 }]
    );
    // leave the last: session clears
    assert_eq!(db.toggle_pomodoro(2, 1300), Ok(()));
    assert_eq!(db.active_pomodoro_starttime, None);
    assert_eq!(db.toggle_pomodoro(9, 1400), Err(TrackerError::NotFound));
}

#[test]
fn expiry_sweep_caps_leave_time_and_clears_session() {
    let mut db = small_db();
    db.toggle_pomodoro(1, 1000).unwrap();
    db.toggle_pomodoro(3, 1060).unwrap();
    // duration 25 min = 1500 s; now is 100 s past the deadline
    let now = 1000 + 1500 + 100;
    match db.check_active_pomodoro_over(now) {
        SweepOutcome::Expired(descriptions) => {
            assert_eq!(descriptions, vec!["alpha".to_string(), "gamma".to_string()]);
        }
        other => panic!("expected Expired, got {:?}", other),
    }
    // both intervals end at start + duration, never at now
    assert_eq!(
        db.tasks[0].past_pomodoros,
        vec![Pomodoro { start_time: 1000, end_time: 2500 }]
    );
    assert_eq!(
        db.tasks[2].past_pomodoros,
        vec![Pomodoro { start_time: 1060, end_time: 2500 }]
    );
    assert_eq!(db.active_pomodoro_starttime, None);
    // immediately afterwards the sweep reports that nothing runs
    assert_eq!(db.check_active_pomodoro_over(now), SweepOutcome::NotRunning);
}

#[test]
fn sweep_before_deadline_still_runs() {
    let mut db = small_db();
    db.toggle_pomodoro(1, 1000).unwrap();
    assert_eq!(db.check_active_pomodoro_over(1000 + 1500), SweepOutcome::StillRunning);
    assert_eq!(db.active_pomodoro_starttime, Some(1000));
    assert_eq!(db.tasks[0].active_pomodoro_jointime, Some(1000));
}

#[test]
fn time_spent_adds_stored_interval_and_running_join() {
    // one stored interval of 10 minutes, and a join 5 minutes before now
    let mut task = plain_task(1, "quarter hour", 0, 1);
    task.past_pomodoros.push(Pomodoro { start_time: 100, end_time: 100 + 600 });
    task.active_pomodoro_jointime = Some(10_000);
    let now = 10_000 + 300;
    assert_eq!(task.time_spent(now), 15 * 60);
}

#[test]
fn remaining_time_counts_down_with_fraction_in_permille() {
    let mut db = Database::new();
    db.active_pomodoro_starttime = Some(2000);
    // 375 s of 1500 s elapsed: 1125 s left, a quarter in permille
    assert_eq!(db.get_remaining_pomodoro_time(2375), Some((1125, 250)));
    assert_eq!(db.get_remaining_pomodoro_time(2000), Some((1500, 0)));
    // past the duration: clamped to the display-safety floor
    assert_eq!(db.get_remaining_pomodoro_time(2000 + 1501), Some((0, 0)));
    db.active_pomodoro_starttime = None;
    assert_eq!(db.get_remaining_pomodoro_time(5000), None);
}

#[test]
fn example_db_matches_seed_shape() {
    let db = Database::example_db(777);
    assert_eq!(db.tasks.len(), 4);
    assert_eq!(db.categories.len(), 3);
    assert!(!db.categories[0].visible);
    assert_eq!(db.categories[1].name, "archive");
    assert_eq!(db.categories[2].name, "todo");
    assert_eq!(db.default_category_id, 2);
    assert_eq!(db.tasks[0].description, "Task 1");
    assert_eq!(db.tasks[3].category, 0);
    assert_eq!(db.tasks[2].date_added, 777);
}

#[test]
fn selection_moves_within_id_list() {
    let ids: Vec<u32> = vec![4, 7, 9];
    assert_eq!(select_previous(&ids, None), Some(9));
    assert_eq!(select_previous(&ids, Some(9)), Some(7));
    assert_eq!(select_previous(&ids, Some(4)), Some(4));
    assert_eq!(select_previous(&ids, Some(5)), None);
    assert_eq!(select_next(&ids, None), Some(4));
    assert_eq!(select_next(&ids, Some(4)), Some(7));
    assert_eq!(select_next(&ids, Some(9)), Some(9));
    assert_eq!(select_first(&ids), Some(4));
    assert_eq!(select_first(&Vec::new()), None);
    assert_eq!(retain_selection(&ids, Some(7)), Some(7));
    assert_eq!(retain_selection(&ids, Some(5)), None);
    assert_eq!(nearest_selection(&ids, 1), Some(7));
    assert_eq!(nearest_selection(&ids, 10), Some(9));
    assert_eq!(nearest_selection(&Vec::new(), 0), None);
}
