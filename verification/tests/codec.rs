use pti::database::Database;
use pti::model::{Category, Pomodoro, Task};
use pti::storage::load;

fn full_db() -> Database {
    Database {
        tasks: vec![
            Task {
                id: 1,
                description: "plain words".to_string(),
                done: true,
                past_pomodoros: vec![
                    Pomodoro { start_time: 10, end_time: 610 },
                    Pomodoro { start_time: 700, end_time: 760 },
                ],
                active_pomodoro_jointime: Some(900),
                parent: None,
                category: 2,
                date_added: 4,
                order: 1,
            },
            Task {
                id: 2,
                description: "tricky \"quoted\" and back\\slash".to_string(),
                done: false,
                past_pomodoros: Vec::new(),
                active_pomodoro_jointime: None,
                parent: Some(1),
                category: 0,
                date_added: 8,
                order: 2,
            },
        ],
        categories: vec![
            Category { id: 0, name: "nocat".to_string(), hotkey: Some('u'), visible: true },
            Category { id: 2, name: "wörk".to_string(), hotkey: None, visible: false },
        ],
        pomodoro_duration_minutes: 30,
        active_pomodoro_starttime: Some(900),
        default_category_id: 2,
    }
}

#[test]
fn save_then_load_restores_every_field() {
    let db = full_db();
    let text = db.save();
    let back = load(text.as_str()).expect("the stored text should read back");
    assert_eq!(back, db);
}

#[test]
fn save_of_empty_database_round_trips() {
    let db = Database::new();
    let text = db.save();
    let back = load(text.as_str()).expect("the stored text should read back");
    assert_eq!(back, db);
}

#[test]
fn saved_text_has_the_document_shape() {
    let db = Database::new();
    let text = db.save();
    assert_eq!(
        text,
        "{\"tasks\":[],\"categories\":[{\"id\":0,\"name\":\"nocat\",\"hotkey\":\"u\",\
         \"visible\":true}],\"pomodoro_duration_minutes\":25,\
         \"active_pomodoro_starttime\":null,\"default_category_id\":0}"
    );
}

#[test]
fn hotkey_and_escapes_survive_the_round_trip() {
    let mut db = Database::new();
    db.categories.push(Category {
        id: 1,
        name: "odd \\ name\"".to_string(),
        hotkey: Some('"'),
        visible: true,
    });
    let text = db.save();
    let back = load(text.as_str()).expect("the stored text should read back");
    assert_eq!(back.categories[1].hotkey, Some('"'));
    assert_eq!(back.categories[1].name, "odd \\ name\"");
    assert_eq!(back, db);
}

#[test]
fn malformed_text_reads_as_nothing() {
    assert!(load("").is_none());
    assert!(load("{}").is_none());
    assert!(load("not a stored aggregate").is_none());
    let db = Database::new();
    let mut text = db.save();
    text.push(' '); // trailing content is rejected
    assert!(load(text.as_str()).is_none());
    let truncated: String = db.save().chars().take(20).collect();
    assert!(load(truncated.as_str()).is_none());
}

#[test]
fn out_of_range_numbers_read_as_nothing() {
    // an id beyond the 32-bit range cannot be an id
    let text = "{\"tasks\":[],\"categories\":[{\"id\":4294967296,\"name\":\"x\",\
                \"hotkey\":null,\"visible\":true}],\"pomodoro_duration_minutes\":25,\
                \"active_pomodoro_starttime\":null,\"default_category_id\":0}";
    assert!(load(text).is_none());
}
