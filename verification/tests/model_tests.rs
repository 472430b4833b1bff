use todo_cli::model::{Task, TodoError, TodoList};

fn titles(list: &TodoList) -> Vec<String> {
    list.tasks().iter().map(|t| t.title.clone()).collect()
}

fn indices(list: &TodoList) -> Vec<u32> {
    list.tasks().iter().map(|t| t.index).collect()
}

fn make_task(id: &str, index: u32, title: &str, done: bool, at: &str) -> Task {
    Task {
        id: id.to_string(),
        index,
        title: title.to_string(),
        is_complete: done,
        created_at: at.to_string(),
    }
}

#[test]
fn add_then_list_shows_single_incomplete_task() {
    let mut list = TodoList::new();
    let ix = list.add("Buy milk".to_string());
    assert_eq!(ix, 1);
    assert_eq!(list.len(), 1);
    let t = &list.tasks()[0];
    assert_eq!(t.title, "Buy milk");
    assert_eq!(t.index, 1);
    assert!(!t.is_complete);
}

#[test]
fn add_assigns_successive_indices() {
    let mut list = TodoList::new();
    assert_eq!(list.add("a".to_string()), 1);
    assert_eq!(list.add("b".to_string()), 2);
    assert_eq!(list.add("c".to_string()), 3);
    assert_eq!(indices(&list), vec![1, 2, 3]);
    assert_eq!(list.max_index(), 3);
}

#[test]
fn add_accepts_empty_title() {
    let mut list = TodoList::new();
    let ix = list.add(String::new());
    assert_eq!(ix, 1);
    assert_eq!(list.tasks()[0].title, "");
}

#[test]
fn done_marks_complete_and_returns_title() {
    let mut list = TodoList::new();
    list.add("wash".to_string());
    list.add("dry".to_string());
    let r = list.mark_done(2);
    assert_eq!(r, Ok("dry".to_string()));
    assert!(list.tasks()[1].is_complete);
    assert!(!list.tasks()[0].is_complete);
}

#[test]
fn done_twice_is_idempotent() {
    let mut list = TodoList::new();
    list.add("once".to_string());
    assert!(list.mark_done(1).is_ok());
    let again = list.mark_done(1);
    assert_eq!(again, Ok("once".to_string()));
    assert!(list.tasks()[0].is_complete);
}

#[test]
fn done_missing_index_not_found() {
    let mut list = TodoList::new();
    list.add("a".to_string());
    list.add("b".to_string());
    let before_titles = titles(&list);
    let before_indices = indices(&list);
    let r = list.mark_done(99);
    assert_eq!(r, Err(TodoError::NotFound { index: 99 }));
    assert_eq!(titles(&list), before_titles);
    assert_eq!(indices(&list), before_indices);
    assert!(!list.tasks()[0].is_complete && !list.tasks()[1].is_complete);
}

#[test]
fn remove_missing_index_not_found() {
    let mut list = TodoList::new();
    list.add("a".to_string());
    list.add("b".to_string());
    let before_titles = titles(&list);
    let r = list.remove(99);
    assert_eq!(r, Err(TodoError::NotFound { index: 99 }));
    assert_eq!(titles(&list), before_titles);
    assert_eq!(indices(&list), vec![1, 2]);
}

#[test]
fn remove_renumbers_contiguously() {
    let mut list = TodoList::new();
    list.add("a".to_string());
    list.add("b".to_string());
    list.add("c".to_string());
    let r = list.remove(2);
    assert_eq!(r, Ok(2));
    assert_eq!(titles(&list), vec!["a".to_string(), "c".to_string()]);
    assert_eq!(indices(&list), vec![1, 2]);
}

#[test]
fn remove_sorts_survivors_by_old_index() {
    let tasks = vec![
        make_task("x3", 3, "third", false, "2024-01-01T00:00:00+00:00"),
        make_task("x1", 1, "first", false, "2024-01-01T00:00:01+00:00"),
        make_task("x2", 2, "second", true, "2024-01-01T00:00:02+00:00"),
    ];
    let mut list = TodoList::from_tasks(tasks);
    let r = list.remove(1);
    assert_eq!(r, Ok(2));
    assert_eq!(titles(&list), vec!["second".to_string(), "third".to_string()]);
    assert_eq!(indices(&list), vec![1, 2]);
    assert!(list.tasks()[0].is_complete);
}

#[test]
fn indices_stay_unique_after_mixed_operations() {
    let mut list = TodoList::new();
    for name in ["a", "b", "c", "d", "e"] {
        list.add(name.to_string());
    }
    list.remove(3).unwrap();
    list.add("f".to_string());
    list.remove(1).unwrap();
    let ix = indices(&list);
    for i in 0..ix.len() {
        for j in (i + 1)..ix.len() {
            assert_ne!(ix[i], ix[j]);
        }
    }
    let n = ix.len() as u32;
    let mut sorted = ix.clone();
    sorted.sort();
    assert_eq!(sorted, (1..=n).collect::<Vec<u32>>());
}

#[test]
fn clear_empties_and_next_add_gets_index_one() {
    let mut list = TodoList::new();
    list.add("a".to_string());
    list.add("b".to_string());
    list.clear();
    assert!(list.is_empty());
    assert_eq!(list.len(), 0);
    let ix = list.add("fresh".to_string());
    assert_eq!(ix, 1);
}

#[test]
fn clear_on_empty_is_fine() {
    let mut list = TodoList::new();
    list.clear();
    assert!(list.is_empty());
}

#[test]
fn fresh_ids_differ_between_tasks() {
    let mut list = TodoList::new();
    list.add("a".to_string());
    list.add("b".to_string());
    let id0 = list.tasks()[0].id.clone();
    let id1 = list.tasks()[1].id.clone();
    assert_ne!(id0, id1);
}
