use todo_cli::codec::{decode_store, encode_store};
use todo_cli::model::{Task, TodoError, TodoList};

fn make_task(id: &str, index: u32, title: &str, done: bool, at: &str) -> Task {
    Task {
        id: id.to_string(),
        index,
        title: title.to_string(),
        is_complete: done,
        created_at: at.to_string(),
    }
}

fn same_tasks(a: &TodoList, b: &TodoList) {
    assert_eq!(a.len(), b.len());
    for (x, y) in a.tasks().iter().zip(b.tasks().iter()) {
        assert_eq!(x.id, y.id);
        assert_eq!(x.index, y.index);
        assert_eq!(x.title, y.title);
        assert_eq!(x.is_complete, y.is_complete);
        assert_eq!(x.created_at, y.created_at);
    }
}

#[test]
fn encode_empty_is_brackets() {
    let list = TodoList::new();
    assert_eq!(encode_store(&list), "[]");
}

#[test]
fn round_trip_preserves_all_fields() {
    let tasks = vec![
        make_task("id-1", 1, "plain title", false, "2024-05-06T07:08:09+00:00"),
        make_task("id-2", 2, "quo\"te back\\slash", true, "2024-05-06T07:08:10+00:00"),
        make_task("id-3", 3, "line\nbreak\ttab\rret", false, "2024-05-06T07:08:11.123456+00:00"),
        make_task("id-4", 4, "Привет ✅ мир", true, "2024-05-06T07:08:12+00:00"),
        make_task("id-5", 5, "", false, "2024-05-06T07:08:13+00:00"),
    ];
    let list = TodoList::from_tasks(tasks);
    let doc = encode_store(&list);
    let back = decode_store(&doc).expect("the encoded store must decode");
    same_tasks(&list, &back);
}

#[test]
fn round_trip_after_operations() {
    let mut list = TodoList::new();
    list.add("first".to_string());
    list.add("second".to_string());
    list.add("third".to_string());
    list.mark_done(2).unwrap();
    list.remove(1).unwrap();
    let doc = encode_store(&list);
    let back = decode_store(&doc).expect("the encoded store must decode");
    same_tasks(&list, &back);
}

#[test]
fn blank_file_yields_empty_collection() {
    for blank in ["", "   ", " \n\t \r\n "] {
        let list = decode_store(blank).expect("blank input is the empty collection");
        assert_eq!(list.len(), 0);
    }
}

#[test]
fn surrounding_whitespace_is_tolerated() {
    let mut list = TodoList::new();
    list.add("padded".to_string());
    let doc = format!("\n  {}\n\t", encode_store(&list));
    let back = decode_store(&doc).expect("padding around the document is fine");
    same_tasks(&list, &back);
}

#[test]
fn malformed_document_is_decode_error() {
    for bad in ["not json", "[oops]", "{}", "[\n{}\n]", "[", "]["] {
        assert_eq!(decode_store(bad).unwrap_err(), TodoError::Decode);
    }
}

#[test]
fn truncated_document_is_decode_error() {
    let mut list = TodoList::new();
    list.add("cut me".to_string());
    let doc = encode_store(&list);
    let cut = &doc[..doc.len() - 1];
    assert_eq!(decode_store(cut).unwrap_err(), TodoError::Decode);
}

#[test]
fn decode_reads_a_handwritten_document() {
    let doc = "[\n{\"id\": \"u-1\", \"index\": 1, \"title\": \"milk\", \"is_complited\": false, \"created_at\": \"2024-01-01T00:00:00+00:00\"}\n]";
    let list = decode_store(doc).expect("well-formed document");
    assert_eq!(list.len(), 1);
    let t = &list.tasks()[0];
    assert_eq!(t.id, "u-1");
    assert_eq!(t.index, 1);
    assert_eq!(t.title, "milk");
    assert!(!t.is_complete);
    assert_eq!(t.created_at, "2024-01-01T00:00:00+00:00");
}

#[test]
fn decode_rejects_index_beyond_u32() {
    let doc = "[\n{\"id\": \"u-1\", \"index\": 4294967296, \"title\": \"big\", \"is_complited\": false, \"created_at\": \"2024-01-01T00:00:00+00:00\"}\n]";
    assert_eq!(decode_store(doc).unwrap_err(), TodoError::Decode);
}

#[test]
fn decode_accepts_index_at_u32_max() {
    let doc = "[\n{\"id\": \"u-1\", \"index\": 4294967295, \"title\": \"big\", \"is_complited\": false, \"created_at\": \"2024-01-01T00:00:00+00:00\"}\n]";
    let list = decode_store(doc).expect("u32::MAX fits");
    assert_eq!(list.tasks()[0].index, u32::MAX);
}

#[test]
fn encoded_form_is_valid_json() {
    let tasks = vec![
        make_task("id-a", 1, "say \"hi\" \\ there", false, "2024-02-03T04:05:06+00:00"),
        make_task("id-b", 2, "tabs\tand\nlines", true, "2024-02-03T04:05:07+00:00"),
    ];
    let list = TodoList::from_tasks(tasks);
    let doc = encode_store(&list);
    let v: serde_json::Value = serde_json::from_str(&doc).expect("the store document is JSON");
    let arr = v.as_array().expect("a JSON array");
    assert_eq!(arr.len(), 2);
    assert_eq!(arr[0]["id"].as_str(), Some("id-a"));
    assert_eq!(arr[0]["index"].as_u64(), Some(1));
    assert_eq!(arr[0]["title"].as_str(), Some("say \"hi\" \\ there"));
    assert_eq!(arr[0]["is_complited"].as_bool(), Some(false));
    assert_eq!(arr[0]["created_at"].as_str(), Some("2024-02-03T04:05:06+00:00"));
    assert_eq!(arr[1]["title"].as_str(), Some("tabs\tand\nlines"));
    assert_eq!(arr[1]["is_complited"].as_bool(), Some(true));
}

#[test]
fn timestamps_from_real_clock_survive_the_round_trip() {
    let mut list = TodoList::new();
    list.add("clocked".to_string());
    let created = list.tasks()[0].created_at.clone();
    assert!(chrono::DateTime::parse_from_rfc3339(&created).is_ok());
    let doc = encode_store(&list);
    let back = decode_store(&doc).unwrap();
    assert_eq!(back.tasks()[0].created_at, created);
}

#[test]
fn empty_array_with_inner_whitespace_decodes() {
    for doc in ["[ ]", "[]", "[\n]", "[\t \n ]", "  [ ]  "] {
        let list = decode_store(doc).expect("an empty JSON array is the empty collection");
        assert_eq!(list.len(), 0);
    }
}

#[test]
fn pretty_printed_layout_decodes() {
    let doc = "[\n  {\n    \"id\": \"u-1\",\n    \"index\": 1,\n    \"title\": \"milk\",\n    \"is_complited\": false,\n    \"created_at\": \"2024-01-01T00:00:00Z\"\n  },\n  {\n    \"id\": \"u-2\",\n    \"index\": 2,\n    \"title\": \"bread\",\n    \"is_complited\": true,\n    \"created_at\": \"2024-01-02T00:00:00Z\"\n  }\n]";
    let list = decode_store(doc).expect("the pretty-printed layout is accepted");
    assert_eq!(list.len(), 2);
    assert_eq!(list.tasks()[0].title, "milk");
    assert_eq!(list.tasks()[1].title, "bread");
    assert!(list.tasks()[1].is_complete);
    assert_eq!(list.tasks()[1].index, 2);
}

#[test]
fn serde_json_written_store_decodes() {
    let pretty ="[\n  {\n    \"id\": \"a\",\n    \"index\": 1,\n    \"title\": \"say \\\"hi\\\"\",\n    \"is_complited\": false,\n    \"created_at\": \"2024-05-06T07:08:09+00:00\"\n  }\n]";
    let list = decode_store(pretty).unwrap();
    assert_eq!(list.tasks()[0].title, "say \"hi\"");
}

#[test]
fn standard_json_escapes_are_read() {
    let doc = "[{\"id\": \"x\", \"index\": 1, \"title\": \"a\\/b\\u0416c\\bd\\fe\\u0041\", \"is_complited\": false, \"created_at\": \"t\"}]";
    let list = decode_store(doc).expect("standard escapes are accepted");
    assert_eq!(list.tasks()[0].title, "a/b\u{416}c\u{8}d\u{c}eA");
}

#[test]
fn lone_surrogate_escape_is_decode_error() {
    let doc = "[{\"id\": \"x\", \"index\": 1, \"title\": \"\\ud800\", \"is_complited\": false, \"created_at\": \"t\"}]";
    assert_eq!(decode_store(doc).unwrap_err(), TodoError::Decode);
}

#[test]
fn leading_zero_index_is_decode_error() {
    let doc = "[{\"id\": \"x\", \"index\": 01, \"title\": \"t\", \"is_complited\": false, \"created_at\": \"t\"}]";
    assert_eq!(decode_store(doc).unwrap_err(), TodoError::Decode);
    let ok = "[{\"id\": \"x\", \"index\": 0, \"title\": \"t\", \"is_complited\": false, \"created_at\": \"t\"}]";
    assert_eq!(decode_store(ok).unwrap().tasks()[0].index, 0);
}

#[test]
fn control_characters_in_titles_stay_valid_json_and_round_trip() {
    let tasks = vec![make_task("id-c", 1, "bell\u{7}back\u{8}feed\u{c}esc\u{1b}", false, "t")];
    let list = TodoList::from_tasks(tasks);
    let doc = encode_store(&list);
    let v: serde_json::Value = serde_json::from_str(&doc).expect("C0 controls are escaped");
    assert_eq!(v[0]["title"].as_str(), Some("bell\u{7}back\u{8}feed\u{c}esc\u{1b}"));
    let back = decode_store(&doc).unwrap();
    assert_eq!(back.tasks()[0].title, "bell\u{7}back\u{8}feed\u{c}esc\u{1b}");
}

#[test]
fn unicode_whitespace_only_file_is_empty() {
    for blank in ["\u{c}\u{c}", "\u{a0} \u{3000}", "\u{2028}\u{2029}"] {
        let list = decode_store(blank).expect("a whitespace-only file is the empty collection");
        assert_eq!(list.len(), 0);
    }
}

#[test]
fn unicode_whitespace_around_document_is_trimmed() {
    let doc = "\u{c}[ ]\u{a0}";
    let list = decode_store(doc).expect("trim removes unicode whitespace around the document");
    assert_eq!(list.len(), 0);
}

#[test]
fn trailing_comma_is_decode_error() {
    let doc = "[{\"id\": \"x\", \"index\": 1, \"title\": \"t\", \"is_complited\": false, \"created_at\": \"t\"},]";
    assert_eq!(decode_store(doc).unwrap_err(), TodoError::Decode);
}
