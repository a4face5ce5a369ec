use trackr::storage::Storage;
use trackr::task::{Task, TaskStatus};

#[test]
fn test_storage_new() {
    let storage = Storage::new("test_storage.json");
    assert_eq!(storage.file_path, "test_storage.json");
}

fn storage() -> Storage {
    Storage::new("tasks.json")
}

fn same(a: &[Task], b: &[Task]) -> bool {
    a.len() == b.len()
        && a.iter().zip(b.iter()).all(|(x, y)| {
            x.id == y.id && x.description == y.description && x.status == y.status
        })
}

#[test]
fn empty_list_encodes_to_brackets() {
    let s = storage();
    assert_eq!(s.to_json(&[]), "[\n]\n");
    assert_eq!(s.parse_json("[\n]\n").len(), 0);
}

#[test]
fn single_task_encoding_is_exact() {
    let s = storage();
    let tasks = vec![Task::new(1, "Test".to_string())];
    assert_eq!(
        s.to_json(&tasks),
        "[\n  {\n    \"id\": 1,\n    \"description\": \"Test\",\n    \"status\": \"todo\"\n  }\n]\n"
    );
}

#[test]
fn comma_after_every_object_but_the_last() {
    let s = storage();
    let tasks = vec![
        Task::with_status(7, "a".to_string(), TaskStatus::Done),
        Task::with_status(40, "b".to_string(), TaskStatus::InProgress),
    ];
    assert_eq!(
        s.to_json(&tasks),
        "[\n  {\n    \"id\": 7,\n    \"description\": \"a\",\n    \"status\": \"done\"\n  },\n  {\n    \"id\": 40,\n    \"description\": \"b\",\n    \"status\": \"in-progress\"\n  }\n]\n"
    );
}

#[test]
fn round_trip_keeps_order_and_duplicate_ids() {
    let s = storage();
    let tasks = vec![
        Task::with_status(3, "First task".to_string(), TaskStatus::Todo),
        Task::with_status(1, "Second task".to_string(), TaskStatus::InProgress),
        Task::with_status(1, "Third task".to_string(), TaskStatus::Done),
        Task::with_status(4294967295, "".to_string(), TaskStatus::Done),
    ];
    let loaded = s.parse_json(&s.to_json(&tasks));
    assert!(same(&loaded, &tasks));
}

#[test]
fn round_trip_of_special_characters() {
    let s = storage();
    let tasks = vec![
        Task::new(1, "Backslash: \\ Newline: \n Tab: \t Return: \r".to_string()),
        Task::new(2, "Task with backslashes\\\\here".to_string()),
        Task::new(3, "Task: with, punctuation!".to_string()),
        Task::new(4, "Task with émojis 🎉🚀".to_string()),
        Task::new(5, "学习 Rust 编程".to_string()),
        Task::new(6, "Multi\nline\ntask".to_string()),
        Task::new(7, "Tab\t\tseparated".to_string()),
        Task::new(8, "Task with {braces}".to_string()),
    ];
    let loaded = s.parse_json(&s.to_json(&tasks));
    assert!(same(&loaded, &tasks));
}

#[test]
fn round_trip_of_many_tasks() {
    let s = storage();
    let tasks: Vec<Task> = (0..100).map(|i| Task::new(i, format!("Task number {}", i))).collect();
    let loaded = s.parse_json(&s.to_json(&tasks));
    assert_eq!(loaded.len(), 100);
    assert_eq!(loaded[49].description, "Task number 49");
    assert_eq!(loaded[99].id, 99);
}

#[test]
fn round_trip_of_long_description() {
    let s = storage();
    let tasks = vec![Task::new(1, "A".repeat(10000))];
    let loaded = s.parse_json(&s.to_json(&tasks));
    assert_eq!(loaded.len(), 1);
    assert_eq!(loaded[0].description.len(), 10000);
}

#[test]
fn escape_doubles_backslash_first() {
    let s = storage();
    assert_eq!(s.escape_json("a\\b\"c\nd\re\tf"), "a\\\\b\\\"c\\nd\\re\\tf");
    assert_eq!(s.escape_json("é✨"), "é✨");
}

#[test]
fn unescape_reverses_escape_on_its_characters() {
    let s = storage();
    for text in ["ab\\\"\n\r\t", "\\\\", "\"\"", "x\\\ny", "\\\"q", ""] {
        assert_eq!(s.unescape_json(&s.escape_json(text)), text);
    }
}

#[test]
fn unescape_reads_backslash_n_as_newline_after_backslash() {
    let s = storage();
    // a backslash written before a letter n comes back as a newline
    let text = "\\n";
    assert_eq!(s.unescape_json(&s.escape_json(text)), "\n");
}

#[test]
fn parses_three_objects() {
    let s = storage();
    let json = "[\n        {\n            \"id\": 1,\n            \"description\": \"First\",\n            \"status\": \"todo\"\n        },\n        {\n            \"id\": 2,\n            \"description\": \"Second\",\n            \"status\": \"in-progress\"\n        },\n        {\n            \"id\": 3,\n            \"description\": \"Third\",\n            \"status\": \"done\"\n        }\n    ]";
    let tasks = s.parse_json(json);
    assert_eq!(tasks.len(), 3);
    assert_eq!(tasks[0].id, 1);
    assert_eq!(tasks[1].id, 2);
    assert_eq!(tasks[2].id, 3);
    assert_eq!(tasks[1].status, TaskStatus::InProgress);
}

#[test]
fn object_without_status_is_dropped_and_siblings_kept() {
    let s = storage();
    let json = "[\n  {\n    \"id\": 1,\n    \"description\": \"one\",\n    \"status\": \"todo\"\n  },\n  {\n    \"id\": 2,\n    \"description\": \"No status field\"\n  },\n  {\n    \"id\": 3,\n    \"description\": \"three\",\n    \"status\": \"done\"\n  }\n]";
    let tasks = s.parse_json(json);
    assert_eq!(tasks.len(), 2);
    assert_eq!(tasks[0].id, 1);
    assert_eq!(tasks[1].id, 3);
}

#[test]
fn partial_objects_give_nothing() {
    let s = storage();
    assert_eq!(s.parse_json("[\n        {}\n    ]").len(), 0);
    assert_eq!(s.parse_json("[\n        {\n            \"id\": 1\n        }\n    ]").len(), 0);
    assert_eq!(
        s.parse_json("[\n        {\n            \"description\": \"Task without ID\"\n        }\n    ]").len(),
        0
    );
}

#[test]
fn extra_whitespace_is_tolerated() {
    let s = storage();
    let json = "\n\n    [\n\n        {\n            \"id\"    :    1   ,\n            \"description\"   :   \"Task\"   ,\n            \"status\"   :   \"todo\"\n        }\n\n    ]\n\n    ";
    let tasks = s.parse_json(json);
    assert_eq!(tasks.len(), 1);
    assert_eq!(tasks[0].description, "Task");
}

#[test]
fn malformed_outer_shape_gives_nothing() {
    let s = storage();
    assert_eq!(s.parse_json("{ not an array }").len(), 0);
    assert_eq!(s.parse_json("[{ incomplete").len(), 0);
    assert_eq!(s.parse_json("{ this is not valid json }").len(), 0);
    assert_eq!(s.parse_json("   \n   \t   ").len(), 0);
    assert_eq!(s.parse_json("").len(), 0);
    assert_eq!(s.parse_json("[").len(), 0);
}

#[test]
fn unknown_status_drops_the_object() {
    let s = storage();
    let json = "[\n  {\n    \"id\": 1,\n    \"description\": \"x\",\n    \"status\": \"finished\"\n  }\n]";
    assert_eq!(s.parse_json(json).len(), 0);
}

#[test]
fn status_is_read_in_any_case_and_written_lower() {
    let s = storage();
    let json = "[\n  {\n    \"id\": 9,\n    \"description\": \"x\",\n    \"status\": \"DONE\"\n  }\n]";
    let tasks = s.parse_json(json);
    assert_eq!(tasks.len(), 1);
    assert_eq!(tasks[0].status, TaskStatus::Done);
    assert!(s.to_json(&tasks).contains("\"status\": \"done\""));
}

#[test]
fn duplicate_ids_are_both_kept() {
    let s = storage();
    let json = "[\n        {\n            \"id\": 1,\n            \"description\": \"First\",\n            \"status\": \"todo\"\n        },\n        {\n            \"id\": 1,\n            \"description\": \"Duplicate ID\",\n            \"status\": \"done\"\n        }\n    ]";
    let tasks = s.parse_json(json);
    assert_eq!(tasks.len(), 2);
    assert_eq!(tasks[0].id, 1);
    assert_eq!(tasks[1].id, 1);
    assert_eq!(tasks[1].description, "Duplicate ID");
}

#[test]
fn id_without_colon_drops_the_object() {
    let s = storage();
    let json = "[\n        {\n            \"id\" 123,\n            \"description\": \"Missing colon\",\n            \"status\": \"todo\"\n        }\n    ]";
    assert_eq!(s.parse_json(json).len(), 0);
}

#[test]
fn unescaped_quote_cuts_the_description() {
    let s = storage();
    let json = "[\n  {\n    \"id\": 1,\n    \"description\": \"say \"hi\" now\",\n    \"status\": \"todo\"\n  }\n]";
    let tasks = s.parse_json(json);
    assert_eq!(tasks.len(), 1);
    assert_eq!(tasks[0].description, "say ");
}

#[test]
fn escaped_quote_is_cut_on_reading() {
    let s = storage();
    let tasks = vec![Task::new(1, "say \"hi\"".to_string())];
    let loaded = s.parse_json(&s.to_json(&tasks));
    assert_eq!(loaded.len(), 1);
    assert_eq!(loaded[0].description, "say \\");
}

#[test]
fn description_without_closing_quote_runs_to_line_end() {
    let s = storage();
    let json = "[\n        {\n            \"id\": 1,\n            \"description\": \"Only one quote,\n            \"status\": \"todo\"\n        }\n    ]";
    let tasks = s.parse_json(json);
    assert_eq!(tasks.len(), 1);
    assert_eq!(tasks[0].description, "Only one quote,");
}

#[test]
fn extract_number_reads_digits_after_colon() {
    let s = storage();
    assert_eq!(s.extract_number("\"id\": 42,"), Some(42));
    assert_eq!(s.extract_number("\"id\": 4a2,"), Some(42));
    assert_eq!(s.extract_number("\"id\" 42"), None);
    assert_eq!(s.extract_number("\"id\": ,"), None);
    assert_eq!(s.extract_number("\"id\": 4294967295"), Some(4294967295));
    assert_eq!(s.extract_number("\"id\": 4294967296"), None);
    assert_eq!(s.extract_number("\"id\": 007"), Some(7));
}

#[test]
fn extract_string_takes_fourth_piece() {
    let s = storage();
    assert_eq!(s.extract_string("\"description\": \"Line\\nbreak\","), Some("Line\nbreak".to_string()));
    assert_eq!(s.extract_string("\"description\": \"open"), Some("open".to_string()));
    assert_eq!(s.extract_string("\"description\": 5"), None);
}

#[test]
fn parse_task_object_needs_all_fields() {
    let s = storage();
    let t = s
        .parse_task_object("{\n \"id\": 5,\n \"description\": \"x\",\n \"status\": \"In-Progress\"\n}")
        .unwrap();
    assert_eq!(t.id, 5);
    assert_eq!(t.description, "x");
    assert_eq!(t.status, TaskStatus::InProgress);
    assert!(s.parse_task_object("{\n \"id\": 5,\n \"status\": \"todo\"\n}").is_none());
}

#[test]
fn tasks_from_no_file_is_empty() {
    let s = storage();
    assert_eq!(s.tasks_from(None).len(), 0);
    let text = s.to_json(&[Task::new(2, "two".to_string())]);
    assert_eq!(s.tasks_from(Some(&text)).len(), 1);
}

#[test]
fn one_line_may_set_several_fields() {
    let s = storage();
    let t = s
        .parse_task_object("{\"id\":1\"done\"\"description\"\"status\"}")
        .unwrap();
    assert_eq!(t.id, 1);
    assert_eq!(t.description, "done");
    assert_eq!(t.status, TaskStatus::Done);
}

#[test]
fn descriptions_naming_keys_round_trip() {
    let s = storage();
    let tasks = vec![
        Task::new(1, "id".to_string()),
        Task::with_status(2, "status".to_string(), TaskStatus::Done),
        Task::with_status(3, "description".to_string(), TaskStatus::InProgress),
    ];
    let loaded = s.parse_json(&s.to_json(&tasks));
    assert!(same(&loaded, &tasks));
}
