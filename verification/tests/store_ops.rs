use todoln::store::TaskStore;
use todoln::task::{Task, TaskError};
use todoln::text::{str_contains, todo_text};

fn owned(v: &[&str]) -> Vec<String> {
    v.iter().map(|s| s.to_string()).collect()
}

#[test]
fn new_store_is_empty() {
    let s = TaskStore::new();
    assert_eq!(s.count(), 0);
    assert!(s.tasks.is_empty());
}

#[test]
fn append_assigns_fresh_ids_and_positions() {
    let mut s = TaskStore::new();
    s.append_many(&owned(&["a", "b"])).unwrap();
    s.append_many(&owned(&["c"])).unwrap();
    let ids: Vec<i32> = s.tasks.iter().map(|t| t.id.unwrap()).collect();
    assert_eq!(ids, vec![0, 1, 2]);
    let idxs: Vec<i32> = s.tasks.iter().map(|t| t.idx.unwrap()).collect();
    assert_eq!(idxs, vec![1, 2, 3]);
}

#[test]
fn append_duplicate_fails_whole_batch() {
    let mut s = TaskStore::new();
    s.append_many(&owned(&["a"])).unwrap();
    assert_eq!(
        s.append_many(&owned(&["fresh", "a"])),
        Err(TaskError::DuplicateName)
    );
    assert_eq!(s.count(), 1);
}

#[test]
fn ids_survive_removal_and_are_not_reused() {
    let mut s = TaskStore::new();
    s.append_many(&owned(&["a", "b"])).unwrap();
    s.remove(1).unwrap();
    s.append_many(&owned(&["c"])).unwrap();
    let ids: Vec<i32> = s.tasks.iter().map(|t| t.id.unwrap()).collect();
    assert_eq!(ids, vec![1, 2]);
}

#[test]
fn remove_leaves_gap_until_resync() {
    let mut s = TaskStore::new();
    s.append_many(&owned(&["a", "b", "c"])).unwrap();
    s.remove(2).unwrap();
    let idxs: Vec<i32> = s.tasks.iter().map(|t| t.idx.unwrap()).collect();
    assert_eq!(idxs, vec![1, 3]);
    s.resync();
    let idxs: Vec<i32> = s.tasks.iter().map(|t| t.idx.unwrap()).collect();
    assert_eq!(idxs, vec![1, 2]);
}

#[test]
fn remove_missing_position_fails() {
    let mut s = TaskStore::new();
    s.append_many(&owned(&["a"])).unwrap();
    assert_eq!(
        s.remove(7),
        Err(TaskError::NoSuchPosition { position: 7 })
    );
    assert_eq!(s.count(), 1);
}

#[test]
fn mark_done_sets_only_that_task() {
    let mut s = TaskStore::new();
    s.append_many(&owned(&["a", "b"])).unwrap();
    s.mark_done(2).unwrap();
    assert_eq!(s.tasks[0].done, false);
    assert_eq!(s.tasks[1].done, true);
    assert_eq!(
        s.mark_done(3),
        Err(TaskError::NoSuchPosition { position: 3 })
    );
}

#[test]
fn rename_respects_uniqueness() {
    let mut s = TaskStore::new();
    s.append_many(&owned(&["a", "b"])).unwrap();
    assert_eq!(
        s.rename(1, &"b".to_string()),
        Err(TaskError::DuplicateName)
    );
    assert_eq!(s.rename(1, &"a".to_string()), Ok(()));
    assert_eq!(s.rename(2, &"z".to_string()), Ok(()));
    let got: Vec<String> = s.tasks.iter().map(|t| t.name.clone()).collect();
    assert_eq!(got, owned(&["a", "z"]));
}

#[test]
fn insert_many_at_front_middle_end() {
    let mut s = TaskStore::new();
    s.append_many(&owned(&["b", "d"])).unwrap();
    s.insert_many_at(1, &owned(&["a"])).unwrap();
    s.insert_many_at(3, &owned(&["c"])).unwrap();
    s.insert_many_at(5, &owned(&["e"])).unwrap();
    let got: Vec<(i32, String)> = s.tasks.iter().map(|t| (t.idx.unwrap(), t.name.clone())).collect();
    assert_eq!(
        got,
        vec![
            (1, "a".to_string()),
            (2, "b".to_string()),
            (3, "c".to_string()),
            (4, "d".to_string()),
            (5, "e".to_string()),
        ]
    );
}

#[test]
fn search_keeps_store_order() {
    let mut s = TaskStore::new();
    s.append_many(&owned(&["xa", "b", "xc"])).unwrap();
    let found = s.search("x");
    let got: Vec<(i32, String)> = found.iter().map(|t| (t.idx.unwrap(), t.name.clone())).collect();
    assert_eq!(got, vec![(1, "xa".to_string()), (2, "xc".to_string())]);
}

#[test]
fn delete_all_keeps_next_id() {
    let mut s = TaskStore::new();
    s.append_many(&owned(&["a", "b"])).unwrap();
    s.delete_all();
    assert_eq!(s.count(), 0);
    s.append_many(&owned(&["c"])).unwrap();
    assert_eq!(s.tasks[0].id, Some(2));
}

#[test]
fn load_validates_rows() {
    let ok_rows = vec![
        Task { id: Some(5), idx: None, name: "a".to_string(), done: false },
        Task { id: Some(3), idx: None, name: "b".to_string(), done: true },
    ];
    let s = TaskStore::load(ok_rows).expect("valid rows");
    assert_eq!(s.next_id, 6);
    assert_eq!(s.tasks[0].idx, Some(1));
    assert_eq!(s.tasks[1].idx, Some(2));

    let no_id = vec![Task { id: None, idx: None, name: "a".to_string(), done: false }];
    assert!(TaskStore::load(no_id).is_none());

    let empty_name = vec![Task { id: Some(1), idx: None, name: String::new(), done: false }];
    assert!(TaskStore::load(empty_name).is_none());

    let blank_name = vec![Task { id: Some(1), idx: None, name: "  ".to_string(), done: false }];
    assert!(TaskStore::load(blank_name).is_none());

    let dup_ids = vec![
        Task { id: Some(1), idx: None, name: "a".to_string(), done: false },
        Task { id: Some(1), idx: None, name: "b".to_string(), done: false },
    ];
    assert!(TaskStore::load(dup_ids).is_none());
}

#[test]
fn substring_search_is_exact() {
    assert!(str_contains("hello world", "lo wo"));
    assert!(str_contains("abc", ""));
    assert!(!str_contains("abc", "abcd"));
    assert!(!str_contains("abc", "B"));
    assert!(str_contains("aaab", "aab"));
}

#[test]
fn todo_text_is_undecorated() {
    assert_eq!(todo_text("task"), "task");
}
