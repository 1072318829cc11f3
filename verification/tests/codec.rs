use task_wrestler::ParseError;
use task_wrestler::TaskDao;
use task_wrestler::TaskEntry;

const HEADER: &str = "id\tproject\ttags\tdue date\ttitle\tdescription";

fn entry(id: u32, title: &str) -> TaskEntry {
    let mut e = TaskEntry::new();
    e.id = id;
    e.title = title.to_string();
    e
}

#[test]
fn new_entry_defaults() {
    let e = TaskEntry::new();
    assert_eq!(e.id, 0);
    assert_eq!(e.title, "-");
    assert!(e.desc.is_none());
    assert!(e.due.is_none());
    assert!(e.project.is_none());
    assert!(e.tags.is_empty());
}

#[test]
fn default_matches_new() {
    let e = TaskEntry::default();
    assert_eq!(e.id, 0);
    assert_eq!(e.title, "-");
    assert!(e.desc.is_none());
    assert!(e.due.is_none());
    assert!(e.project.is_none());
    assert!(e.tags.is_empty());
}

#[test]
fn dump_empty_is_header_only() {
    let dao = TaskDao::new("tasks.txt");
    let text = dao.dump();
    assert_eq!(text, format!("{}\n", HEADER));
    let mut dao2 = TaskDao::new("tasks.txt");
    assert!(dao2.load(&text).is_ok());
    assert!(dao2.entries.is_empty());
}

#[test]
fn dump_unset_fields_line() {
    let mut dao = TaskDao::new("tasks.txt");
    dao.entries.push(entry(7, "write more tests"));
    let text = dao.dump();
    let lines: Vec<&str> = text.lines().collect();
    assert_eq!(lines.len(), 2);
    assert_eq!(lines[1], "7\t:-\t+\t-\t\"write more tests\"\t\"\"");
}

#[test]
fn scenario_single_record() {
    let mut dao = TaskDao::new("/tmp/persist_dao_test.txt");
    let mut task = TaskEntry::default();
    task.id = 0;
    task.title = "testing".to_string();
    dao.entries.push(task);
    let text = dao.dump();
    let mut lines = text.lines();
    assert_eq!(lines.next(), Some(HEADER));
    assert_eq!(lines.next(), Some("0\t:-\t+\t-\t\"testing\"\t\"\""));
    assert_eq!(lines.next(), None);
    let mut dao_read = TaskDao::new("/tmp/persist_dao_test.txt");
    assert!(dao_read.load(&text).is_ok());
    assert_eq!(dao_read.entries.len(), 1);
    assert_eq!(dao_read.entries[0].id, 0);
}

#[test]
fn round_trip_full_record() {
    let mut dao = TaskDao::new("tasks.txt");
    dao.entries.push(TaskEntry {
        id: 42,
        title: "fix the roof".to_string(),
        desc: Some("before winter".to_string()),
        due: Some("2021-03-04T05:06:07+00:00".to_string()),
        project: Some("house".to_string()),
        tags: vec!["urgent".to_string(), "outdoor".to_string(), "urgent".to_string()],
    });
    dao.entries.push(entry(1, "water the plants"));
    let text = dao.dump();
    let mut dao2 = TaskDao::new("tasks.txt");
    assert!(dao2.load(&text).is_ok());
    assert_eq!(dao2.entries.len(), 2);
    let r = &dao2.entries[0];
    assert_eq!(r.id, 42);
    assert_eq!(r.title, "fix the roof");
    assert_eq!(r.desc.as_deref(), Some("before winter"));
    assert_eq!(r.due.as_deref(), Some("2021-03-04T05:06:07+00:00"));
    assert_eq!(r.project.as_deref(), Some("house"));
    assert_eq!(r.tags, vec!["urgent", "outdoor", "urgent"]);
    assert_eq!(dao2.entries[1].id, 1);
    assert_eq!(dao2.entries[1].title, "water the plants");
}

#[test]
fn due_normalized_to_utc() {
    let text = format!(
        "{}\n3\t:p\t+a\t2020-05-17T12:30:45+02:00\t\"t\"\t\"d\"\n",
        HEADER
    );
    let mut dao = TaskDao::new("tasks.txt");
    assert!(dao.load(&text).is_ok());
    assert_eq!(dao.entries.len(), 1);
    assert_eq!(dao.entries[0].due.as_deref(), Some("2020-05-17T10:30:45+00:00"));
}

#[test]
fn due_fraction_preserved() {
    let text = format!(
        "{}\n3\t:p\t+a\t2018-01-26T18:30:09.453-05:00\t\"t\"\t\"d\"\n",
        HEADER
    );
    let mut dao = TaskDao::new("tasks.txt");
    assert!(dao.load(&text).is_ok());
    assert_eq!(dao.entries[0].due.as_deref(), Some("2018-01-26T23:30:09.453+00:00"));
}

#[test]
fn due_dash_is_unset() {
    let text = format!("{}\n1\t:-\t+\t-\t\"x\"\t\"\"\n", HEADER);
    let mut dao = TaskDao::new("tasks.txt");
    assert!(dao.load(&text).is_ok());
    assert_eq!(dao.entries.len(), 1);
    assert!(dao.entries[0].due.is_none());
}

#[test]
fn bad_id_fails_load() {
    let text = format!(
        "{}\n0\t:-\t+\t-\t\"good\"\t\"\"\nabc\t:-\t+\t-\t\"bad\"\t\"\"\n",
        HEADER
    );
    let mut dao = TaskDao::new("tasks.txt");
    dao.entries.push(entry(9, "already here"));
    assert_eq!(dao.load(&text), Err(ParseError::BadId));
    assert_eq!(dao.entries.len(), 1);
    assert_eq!(dao.entries[0].id, 9);
}

#[test]
fn bad_due_fails_load() {
    let text = format!("{}\n0\t:-\t+\tsoon\t\"x\"\t\"\"\n", HEADER);
    let mut dao = TaskDao::new("tasks.txt");
    assert_eq!(dao.load(&text), Err(ParseError::BadDueDate));
    assert!(dao.entries.is_empty());
}

#[test]
fn short_line_fails_load() {
    let text = format!("{}\n5\t:-\t+\n", HEADER);
    let mut dao = TaskDao::new("tasks.txt");
    assert_eq!(dao.load(&text), Err(ParseError::MissingColumns));
    assert!(dao.entries.is_empty());
}

#[test]
fn header_skipped_unconditionally() {
    let text = "9\t:-\t+\t-\t\"lost\"\t\"\"\n0\t:-\t+\t-\t\"kept\"\t\"\"\n";
    let mut dao = TaskDao::new("tasks.txt");
    assert!(dao.load(text).is_ok());
    assert_eq!(dao.entries.len(), 1);
    assert_eq!(dao.entries[0].title, "kept");
}

#[test]
fn empty_lines_skipped() {
    let text = format!("{}\n\n1\t:-\t+\t-\t\"x\"\t\"\"\n\n", HEADER);
    let mut dao = TaskDao::new("tasks.txt");
    assert!(dao.load(&text).is_ok());
    assert_eq!(dao.entries.len(), 1);
}

#[test]
fn empty_text_loads_nothing() {
    let mut dao = TaskDao::new("tasks.txt");
    assert!(dao.load("").is_ok());
    assert!(dao.entries.is_empty());
}

#[test]
fn empty_tag_list_reloads_as_one_empty_tag() {
    let mut dao = TaskDao::new("tasks.txt");
    dao.entries.push(entry(2, "quirky"));
    let text = dao.dump();
    let mut dao2 = TaskDao::new("tasks.txt");
    assert!(dao2.load(&text).is_ok());
    assert_eq!(dao2.entries[0].tags, vec![""]);
}

#[test]
fn unset_optionals_reload_as_sentinels() {
    let mut dao = TaskDao::new("tasks.txt");
    dao.entries.push(entry(3, "bare"));
    let text = dao.dump();
    let mut dao2 = TaskDao::new("tasks.txt");
    assert!(dao2.load(&text).is_ok());
    let r = &dao2.entries[0];
    assert_eq!(r.project.as_deref(), Some("-"));
    assert_eq!(r.desc.as_deref(), Some(""));
    assert!(r.due.is_none());
}

#[test]
fn decode_entry_strips_markers() {
    let e = task_wrestler::codec::decode_entry("12\t::colon\t+a,b\t-\t\"ti\"tle\"\t\"de\"")
        .expect("line should decode");
    assert_eq!(e.id, 12);
    assert_eq!(e.project.as_deref(), Some(":colon"));
    assert_eq!(e.tags, vec!["a", "b"]);
    assert!(e.due.is_none());
    assert_eq!(e.title, "ti\"tle");
    assert_eq!(e.desc.as_deref(), Some("de"));
}

#[test]
fn encode_entry_line() {
    let mut e = entry(4, "call home");
    e.project = Some("family".to_string());
    e.tags = vec!["phone".to_string(), "evening".to_string()];
    e.desc = Some("after dinner".to_string());
    let line = task_wrestler::codec::encode_entry(&e);
    assert_eq!(line, "4\t:family\t+phone,evening\t-\t\"call home\"\t\"after dinner\"");
}
