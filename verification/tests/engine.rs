use todoln::commands::{add, clear, done, find, insert, list, modify, raw, remove, reset, sort};
use todoln::commands::DisplayType;
use todoln::store::TaskStore;
use todoln::task::TaskError;

fn names(v: &[&str]) -> Vec<String> {
    v.iter().map(|s| s.to_string()).collect()
}

fn store_with(names_in: &[&str]) -> TaskStore {
    let mut s = TaskStore::new();
    add(&mut s, &names(names_in)).expect("setup add failed");
    s
}

fn listed_names(s: &mut TaskStore) -> Vec<String> {
    s.list_and_resync().iter().map(|t| t.name.clone()).collect()
}

#[test]
fn positions_contiguous_after_mixed_ops() {
    let mut s = store_with(&["a", "b", "c", "d", "e"]);
    insert(&mut s, 2, &names(&["x", "y"])).unwrap();
    remove(&mut s, &vec![3]).unwrap();
    done(&mut s, &vec![1, 4]).unwrap();
    sort(&mut s).unwrap();
    let tasks = s.list_and_resync();
    assert_eq!(tasks.len(), 6);
    for (i, t) in tasks.iter().enumerate() {
        assert_eq!(t.idx, Some(i as i32 + 1));
    }
}

#[test]
fn insert_shifts_positions() {
    let mut s = store_with(&["t1", "t2", "t3", "t4", "t5"]);
    insert(&mut s, 3, &names(&["x", "y"])).unwrap();
    let tasks = s.list_and_resync();
    let got: Vec<(i32, String)> = tasks.iter().map(|t| (t.idx.unwrap(), t.name.clone())).collect();
    assert_eq!(
        got,
        vec![
            (1, "t1".to_string()),
            (2, "t2".to_string()),
            (3, "x".to_string()),
            (4, "y".to_string()),
            (5, "t3".to_string()),
            (6, "t4".to_string()),
            (7, "t5".to_string()),
        ]
    );
}

#[test]
fn insert_at_zero_goes_first() {
    let mut s = store_with(&["a", "b"]);
    insert(&mut s, 0, &names(&["front"])).unwrap();
    assert_eq!(listed_names(&mut s), names(&["front", "a", "b"]));
}

#[test]
fn insert_validates_index() {
    let mut s = store_with(&["a"]);
    assert_eq!(
        insert(&mut s, -1, &names(&["x"])),
        Err(TaskError::NegativeIndex)
    );
    assert_eq!(
        insert(&mut s, 2, &names(&["x"])),
        Err(TaskError::IndexOutOfRange { index: 2, count: 1 })
    );
    assert_eq!(
        insert(&mut s, 1, &names(&[" ", ""])),
        Err(TaskError::NoValidTasks)
    );
    assert_eq!(listed_names(&mut s), names(&["a"]));
}

#[test]
fn sort_is_bucket_stable() {
    let mut s = store_with(&["A", "B", "C", "D"]);
    done(&mut s, &vec![2, 4]).unwrap();
    sort(&mut s).unwrap();
    let tasks = s.list_and_resync();
    let got: Vec<(String, bool)> = tasks.iter().map(|t| (t.name.clone(), t.done)).collect();
    assert_eq!(
        got,
        vec![
            ("A".to_string(), false),
            ("C".to_string(), false),
            ("B".to_string(), true),
            ("D".to_string(), true),
        ]
    );
}

#[test]
fn duplicate_add_rejected_without_mutation() {
    let mut s = store_with(&["a", "b"]);
    assert_eq!(add(&mut s, &names(&["b"])), Err(TaskError::DuplicateName));
    assert_eq!(add(&mut s, &names(&["c", "c"])), Err(TaskError::DuplicateName));
    assert_eq!(listed_names(&mut s), names(&["a", "b"]));
}

#[test]
fn duplicate_insert_rejected() {
    let mut s = store_with(&["a", "b"]);
    assert_eq!(
        insert(&mut s, 1, &names(&["a"])),
        Err(TaskError::DuplicateName)
    );
    assert_eq!(listed_names(&mut s), names(&["a", "b"]));
}

#[test]
fn done_stops_at_first_failure() {
    let mut s = store_with(&["a", "b", "c"]);
    assert_eq!(
        done(&mut s, &vec![2, 999, 3]),
        Err(TaskError::NoSuchPosition { position: 999 })
    );
    let tasks = s.list_and_resync();
    assert_eq!(tasks[0].done, false);
    assert_eq!(tasks[1].done, true);
    assert_eq!(tasks[2].done, false);
}

#[test]
fn done_marks_all_valid_positions() {
    let mut s = store_with(&["a", "b"]);
    assert_eq!(done(&mut s, &vec![1, 2]), Ok(()));
    assert!(s.list_and_resync().iter().all(|t| t.done));
}

#[test]
fn remove_stops_at_first_failure() {
    let mut s = store_with(&["a", "b", "c", "d"]);
    assert_eq!(
        remove(&mut s, &vec![2, 2]),
        Err(TaskError::NoSuchPosition { position: 2 })
    );
    assert_eq!(listed_names(&mut s), names(&["a", "c", "d"]));
}

#[test]
fn remove_uses_stale_positions_within_batch() {
    let mut s = store_with(&["a", "b", "c"]);
    assert_eq!(remove(&mut s, &vec![1, 3]), Ok(()));
    assert_eq!(listed_names(&mut s), names(&["b"]));
}

#[test]
fn find_renumbers_matches() {
    let mut s = store_with(&["alpha", "beta", "gamma", "delta", "alphabet"]);
    let found = find(&mut s, "alpha");
    let got: Vec<(i32, String)> = found.iter().map(|t| (t.idx.unwrap(), t.name.clone())).collect();
    assert_eq!(
        got,
        vec![(1, "alpha".to_string()), (2, "alphabet".to_string())]
    );
}

#[test]
fn find_is_case_sensitive() {
    let mut s = store_with(&["Apple", "apple pie"]);
    let found = find(&mut s, "apple");
    assert_eq!(found.len(), 1);
    assert_eq!(found[0].name, "apple pie");
}

#[test]
fn find_empty_term_matches_everything() {
    let mut s = store_with(&["a", "b"]);
    assert_eq!(find(&mut s, "").len(), 2);
}

#[test]
fn reload_reproduces_content() {
    let mut s = store_with(&["one", "two", "three"]);
    done(&mut s, &vec![2]).unwrap();
    let rows = s.list_and_resync();
    let expected: Vec<(String, bool)> = rows.iter().map(|t| (t.name.clone(), t.done)).collect();
    let mut restored = TaskStore::load(rows).expect("rows from a store must load");
    let got: Vec<(String, bool)> = restored
        .list_and_resync()
        .iter()
        .map(|t| (t.name.clone(), t.done))
        .collect();
    assert_eq!(got, expected);
}

#[test]
fn load_refuses_duplicate_names() {
    let mut s = store_with(&["same"]);
    let mut rows = s.list_and_resync();
    let mut dup = rows[0].clone();
    dup.id = Some(99);
    rows.push(dup);
    assert!(TaskStore::load(rows).is_none());
}

#[test]
fn add_drops_blank_names() {
    let mut s = TaskStore::new();
    let added = add(&mut s, &names(&["  ", "real", ""])).unwrap();
    assert_eq!(added, names(&["real"]));
    assert_eq!(listed_names(&mut s), names(&["real"]));
}

#[test]
fn add_all_blank_is_error() {
    let mut s = TaskStore::new();
    assert_eq!(add(&mut s, &names(&[" ", "\t"])), Err(TaskError::NoValidTasks));
    assert_eq!(s.count(), 0);
}

#[test]
fn modify_renames_and_validates() {
    let mut s = store_with(&["a", "b"]);
    assert_eq!(
        modify(&mut s, 0, &"x".to_string()),
        Err(TaskError::InvalidIndex { index: 0 })
    );
    assert_eq!(
        modify(&mut s, 3, &"x".to_string()),
        Err(TaskError::InvalidIndex { index: 3 })
    );
    assert_eq!(
        modify(&mut s, 1, &"  ".to_string()),
        Err(TaskError::EmptyName)
    );
    assert_eq!(
        modify(&mut s, 1, &"b".to_string()),
        Err(TaskError::DuplicateName)
    );
    assert_eq!(modify(&mut s, 1, &"a".to_string()), Ok(()));
    assert_eq!(modify(&mut s, 1, &"z".to_string()), Ok(()));
    assert_eq!(listed_names(&mut s), names(&["z", "b"]));
}

#[test]
fn clear_removes_exactly_the_done_tasks() {
    let mut s = store_with(&["t1", "d1", "t2", "d2", "d3"]);
    done(&mut s, &vec![2, 4, 5]).unwrap();
    let removed = clear(&mut s);
    assert_eq!(removed, names(&["d1", "d2", "d3"]));
    assert_eq!(listed_names(&mut s), names(&["t1", "t2"]));
}

#[test]
fn reset_empties_the_store() {
    let mut s = store_with(&["a", "b"]);
    reset(&mut s);
    assert_eq!(s.count(), 0);
}

#[test]
fn display_type_parses_loosely() {
    assert_eq!(DisplayType::from_str("all"), Some(DisplayType::All));
    assert_eq!(DisplayType::from_str(" ALL "), Some(DisplayType::All));
    assert_eq!(DisplayType::from_str("Todo"), Some(DisplayType::Todo));
    assert_eq!(DisplayType::from_str("done"), Some(DisplayType::Done));
    assert_eq!(DisplayType::from_str("junk"), None);
    assert_eq!(DisplayType::from_str(""), None);
}

#[test]
fn list_filters_by_kind() {
    let mut s = store_with(&["a", "b", "c"]);
    done(&mut s, &vec![2]).unwrap();
    let all = list(&mut s, "all").unwrap();
    assert_eq!(all.len(), 3);
    let todo = list(&mut s, "todo").unwrap();
    assert_eq!(
        todo.iter().map(|t| t.name.clone()).collect::<Vec<_>>(),
        names(&["a", "c"])
    );
    let done_tasks = list(&mut s, "done").unwrap();
    assert_eq!(done_tasks.len(), 1);
    assert_eq!(done_tasks[0].name, "b");
    assert!(list(&mut s, "nope").is_none());
}

#[test]
fn list_resyncs_even_on_unknown_kind() {
    let mut s = store_with(&["a", "b", "c"]);
    remove(&mut s, &vec![2]).unwrap();
    let before: Vec<i32> = s.tasks.iter().map(|t| t.idx.unwrap()).collect();
    assert_eq!(before, vec![1, 3]);
    assert!(list(&mut s, "bogus").is_none());
    let after: Vec<i32> = s.tasks.iter().map(|t| t.idx.unwrap()).collect();
    assert_eq!(after, vec![1, 2]);
}

#[test]
fn raw_yields_bare_names() {
    let mut s = store_with(&["a", "b"]);
    done(&mut s, &vec![1]).unwrap();
    assert_eq!(raw(&mut s, "done").unwrap(), names(&["a"]));
    assert_eq!(raw(&mut s, "all").unwrap(), names(&["a", "b"]));
    assert!(raw(&mut s, "wat").is_none());
}
