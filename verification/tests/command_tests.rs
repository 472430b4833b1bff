use todo_cli::command::{apply, render_line, render_task_line, Command, Outcome};
use todo_cli::model::{TodoError, TodoList};

#[test]
fn apply_add_reports_title_and_index() {
    let mut list = TodoList::new();
    let r = apply(&mut list, Command::Add { title: "Buy milk".to_string() });
    match r {
        Ok(Outcome::Added { title, index }) => {
            assert_eq!(title, "Buy milk");
            assert_eq!(index, 1);
        },
        other => panic!("unexpected outcome: {:?}", other.is_ok()),
    }
    assert_eq!(list.len(), 1);
}

#[test]
fn apply_list_lines_have_the_expected_shape() {
    let mut list = TodoList::new();
    apply(&mut list, Command::Add { title: "Buy milk".to_string() }).unwrap();
    apply(&mut list, Command::Done { index: 1 }).unwrap();
    apply(&mut list, Command::Add { title: "Walk dog".to_string() }).unwrap();
    let r = apply(&mut list, Command::List).unwrap();
    match r {
        Outcome::Listed { lines } => {
            assert_eq!(lines.len(), 2);
            assert!(lines[0].starts_with("1. [✅] Buy milk - "));
            assert!(lines[1].starts_with("2. [❌] Walk dog - "));
        },
        _ => panic!("expected a listing"),
    }
}

#[test]
fn apply_done_missing_index_is_not_found() {
    let mut list = TodoList::new();
    apply(&mut list, Command::Add { title: "only".to_string() }).unwrap();
    let r = apply(&mut list, Command::Done { index: 99 });
    assert!(matches!(r, Err(TodoError::NotFound { index: 99 })));
    assert!(!list.tasks()[0].is_complete);
}

#[test]
fn apply_remove_missing_index_is_not_found() {
    let mut list = TodoList::new();
    apply(&mut list, Command::Add { title: "only".to_string() }).unwrap();
    let r = apply(&mut list, Command::Remove { index: 99 });
    assert!(matches!(r, Err(TodoError::NotFound { index: 99 })));
    assert_eq!(list.len(), 1);
}

#[test]
fn apply_remove_reports_new_count() {
    let mut list = TodoList::new();
    for t in ["a", "b", "c"] {
        apply(&mut list, Command::Add { title: t.to_string() }).unwrap();
    }
    let r = apply(&mut list, Command::Remove { index: 1 }).unwrap();
    match r {
        Outcome::Removed { index, count } => {
            assert_eq!(index, 1);
            assert_eq!(count, 2);
        },
        _ => panic!("expected a removal report"),
    }
}

#[test]
fn apply_clear_then_list_is_empty_and_add_restarts_at_one() {
    let mut list = TodoList::new();
    apply(&mut list, Command::Add { title: "a".to_string() }).unwrap();
    apply(&mut list, Command::Add { title: "b".to_string() }).unwrap();
    let r = apply(&mut list, Command::Clear).unwrap();
    assert!(matches!(r, Outcome::Cleared));
    match apply(&mut list, Command::List).unwrap() {
        Outcome::Listed { lines } => assert!(lines.is_empty()),
        _ => panic!("expected a listing"),
    }
    match apply(&mut list, Command::Add { title: "fresh".to_string() }).unwrap() {
        Outcome::Added { index, .. } => assert_eq!(index, 1),
        _ => panic!("expected an addition report"),
    }
}

#[test]
fn render_line_is_exact() {
    let line = render_line(3, true, "walk", "10:05, 01.02.2003");
    assert_eq!(line, "3. [✅] walk - 10:05, 01.02.2003");
    let line2 = render_line(12, false, "", "x");
    assert_eq!(line2, "12. [❌]  - x");
}

#[test]
fn render_task_line_falls_back_to_the_raw_timestamp() {
    let line = render_task_line(1, false, "t", "not a timestamp");
    assert_eq!(line, "1. [❌] t - not a timestamp");
}

#[test]
fn render_task_line_converts_a_real_timestamp() {
    let line = render_task_line(7, true, "tea", "2024-06-07T08:09:10+00:00");
    assert!(line.starts_with("7. [✅] tea - "));
    let tail = &line["7. [✅] tea - ".len()..];
    assert_eq!(tail.len(), "17:30, 01.02.2003".len());
    assert!(tail.contains(", "));
}
