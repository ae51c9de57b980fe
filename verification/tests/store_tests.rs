use task_store::status::{completion_status, deletion_status};
use task_store::store::{contains_id, TaskStore};
use task_store::task::Task;

fn ids_of(tasks: &[Task]) -> Vec<u64> {
    tasks.iter().map(|t| t.id).collect()
}

fn texts(items: &[&str]) -> Vec<String> {
    items.iter().map(|s| s.to_string()).collect()
}

#[test]
fn new_task_is_not_completed() {
    let t = Task::new(7, "Write report".to_string());
    assert_eq!(t.id, 7);
    assert_eq!(t.description, "Write report");
    assert!(!t.completed);
}

#[test]
fn cloned_task_has_the_same_fields() {
    let mut t = Task::new(3, "Water plants".to_string());
    t.completed = true;
    let c = t.clone();
    assert_eq!(c.id, 3);
    assert_eq!(c.description, "Water plants");
    assert!(c.completed);
}

#[test]
fn new_store_is_empty() {
    let store = TaskStore::new();
    assert_eq!(store.len(), 0);
    assert!(store.list().is_empty());
    assert_eq!(store.next_id(), 1);
}

#[test]
fn add_then_delete_then_add_reuses_the_id() {
    let mut store = TaskStore::new();
    let a = store.add("Buy milk".to_string());
    assert_eq!(a.id, 1);
    assert_eq!(a.description, "Buy milk");
    assert!(!a.completed);
    let b = store.add("Walk dog".to_string());
    assert_eq!(b.id, 2);
    assert_eq!(b.description, "Walk dog");
    assert!(!b.completed);
    assert!(store.delete(1));
    let left = store.list();
    assert_eq!(left.len(), 1);
    assert_eq!(left[0].id, 2);
    assert_eq!(left[0].description, "Walk dog");
    let c = store.add("Read book".to_string());
    assert_eq!(c.id, 1);
    assert_eq!(c.description, "Read book");
    let all = store.list();
    assert_eq!(ids_of(&all), vec![2, 1]);
}

#[test]
fn deleted_middle_id_is_the_next_one() {
    let mut store = TaskStore::new();
    store.add_batch(texts(&["a", "b", "c"]));
    assert!(store.delete(2));
    assert_eq!(store.next_id(), 2);
    let t = store.add("d".to_string());
    assert_eq!(t.id, 2);
    assert_eq!(ids_of(&store.list()), vec![1, 3, 2]);
    assert_eq!(store.add("e".to_string()).id, 4);
}

#[test]
fn smaller_free_id_wins_over_a_deleted_one() {
    let mut store = TaskStore::new();
    store.add_batch(texts(&["a", "b", "c", "d"]));
    assert!(store.delete(1));
    assert!(store.delete(3));
    assert_eq!(store.add("x".to_string()).id, 1);
    assert_eq!(store.add("y".to_string()).id, 3);
    assert_eq!(store.add("z".to_string()).id, 5);
}

#[test]
fn add_batch_on_empty_store_numbers_in_order() {
    let mut store = TaskStore::new();
    let created = store.add_batch(texts(&["x", "y", "z"]));
    assert_eq!(ids_of(&created), vec![1, 2, 3]);
    assert_eq!(created[0].description, "x");
    assert_eq!(created[1].description, "y");
    assert_eq!(created[2].description, "z");
    assert!(created.iter().all(|t| !t.completed));
    let all = store.list();
    assert_eq!(ids_of(&all), vec![1, 2, 3]);
    assert_eq!(all[0].description, "x");
    assert_eq!(all[1].description, "y");
    assert_eq!(all[2].description, "z");
}

#[test]
fn add_batch_fills_gaps_first() {
    let mut store = TaskStore::new();
    store.add_batch(texts(&["a", "b", "c", "d", "e"]));
    assert!(store.delete_batch(&vec![2, 4]));
    let created = store.add_batch(texts(&["p", "q", "r"]));
    assert_eq!(ids_of(&created), vec![2, 4, 6]);
    assert_eq!(ids_of(&store.list()), vec![1, 3, 5, 2, 4, 6]);
}

#[test]
fn add_batch_of_nothing_changes_nothing() {
    let mut store = TaskStore::new();
    store.add("a".to_string());
    let created = store.add_batch(Vec::new());
    assert!(created.is_empty());
    assert_eq!(store.len(), 1);
}

#[test]
fn empty_description_is_accepted() {
    let mut store = TaskStore::new();
    let t = store.add(String::new());
    assert_eq!(t.id, 1);
    assert_eq!(t.description, "");
    assert_eq!(store.list()[0].description, "");
}

#[test]
fn ids_stay_unique_over_adds_and_deletes() {
    let mut store = TaskStore::new();
    store.add_batch(texts(&["a", "b", "c", "d"]));
    store.delete_batch(&vec![1, 3]);
    store.add("e".to_string());
    store.add_batch(texts(&["f", "g", "h"]));
    store.delete(2);
    store.add("i".to_string());
    let mut ids = ids_of(&store.list());
    let n = ids.len();
    ids.sort();
    ids.dedup();
    assert_eq!(ids.len(), n);
    assert!(ids.iter().all(|id| *id >= 1));
}

#[test]
fn batch_and_single_add_never_share_an_id() {
    let mut first = TaskStore::new();
    first.add_batch(texts(&["a", "b"]));
    let c = first.add("c".to_string());
    assert_eq!(c.id, 3);
    assert_eq!(ids_of(&first.list()), vec![1, 2, 3]);

    let mut second = TaskStore::new();
    let c = second.add("c".to_string());
    assert_eq!(c.id, 1);
    let created = second.add_batch(texts(&["a", "b"]));
    assert_eq!(ids_of(&created), vec![2, 3]);
    assert_eq!(ids_of(&second.list()), vec![1, 2, 3]);
}

#[test]
fn completing_twice_finds_the_task_both_times() {
    let mut store = TaskStore::new();
    store.add("a".to_string());
    assert!(store.complete(1));
    assert!(store.list()[0].completed);
    assert!(store.complete(1));
    let all = store.list();
    assert_eq!(all.len(), 1);
    assert!(all[0].completed);
    assert_eq!(all[0].id, 1);
    assert_eq!(all[0].description, "a");
}

#[test]
fn complete_on_empty_store_reports_not_found() {
    let mut store = TaskStore::new();
    assert!(!store.complete(999));
    assert_eq!(store.len(), 0);
}

#[test]
fn delete_batch_of_absent_id_reports_nothing_deleted() {
    let mut store = TaskStore::new();
    store.add_batch(texts(&["a", "b"]));
    assert!(!store.delete_batch(&vec![999]));
    assert_eq!(ids_of(&store.list()), vec![1, 2]);
    assert!(!store.delete(999));
    assert!(!store.complete_batch(&vec![999]));
    assert!(store.list().iter().all(|t| !t.completed));
}

#[test]
fn complete_batch_marks_only_the_named_tasks() {
    let mut store = TaskStore::new();
    store.add_batch(texts(&["a", "b", "c"]));
    assert!(store.complete_batch(&vec![1, 3]));
    let all = store.list();
    assert_eq!(ids_of(&all), vec![1, 2, 3]);
    assert!(all[0].completed);
    assert!(!all[1].completed);
    assert!(all[2].completed);
    assert_eq!(all[0].description, "a");
    assert_eq!(all[1].description, "b");
    assert_eq!(all[2].description, "c");
}

#[test]
fn complete_batch_ignores_ids_that_match_nothing() {
    let mut store = TaskStore::new();
    store.add_batch(texts(&["a", "b"]));
    assert!(store.complete_batch(&vec![7, 2, 9]));
    let all = store.list();
    assert!(!all[0].completed);
    assert!(all[1].completed);
}

#[test]
fn complete_batch_with_no_ids_updates_nothing() {
    let mut store = TaskStore::new();
    store.add("a".to_string());
    assert!(!store.complete_batch(&Vec::new()));
    assert!(!store.list()[0].completed);
}

#[test]
fn delete_batch_removes_in_one_pass_and_keeps_order() {
    let mut store = TaskStore::new();
    store.add_batch(texts(&["a", "b", "c", "d", "e"]));
    assert!(store.delete_batch(&vec![4, 1, 4, 77]));
    let all = store.list();
    assert_eq!(ids_of(&all), vec![2, 3, 5]);
    assert_eq!(all[0].description, "b");
    assert_eq!(all[1].description, "c");
    assert_eq!(all[2].description, "e");
}

#[test]
fn delete_keeps_completion_flags_of_the_rest() {
    let mut store = TaskStore::new();
    store.add_batch(texts(&["a", "b", "c"]));
    store.complete(3);
    assert!(store.delete(2));
    let all = store.list();
    assert_eq!(ids_of(&all), vec![1, 3]);
    assert!(!all[0].completed);
    assert!(all[1].completed);
}

#[test]
fn delete_everything_then_start_again_at_one() {
    let mut store = TaskStore::new();
    store.add_batch(texts(&["a", "b"]));
    assert!(store.delete_batch(&vec![1, 2]));
    assert_eq!(store.len(), 0);
    assert_eq!(store.add("c".to_string()).id, 1);
}

#[test]
fn list_snapshot_is_not_changed_by_later_operations() {
    let mut store = TaskStore::new();
    store.add_batch(texts(&["a", "b"]));
    let snapshot = store.list();
    store.complete(1);
    store.delete(2);
    store.add("c".to_string());
    assert_eq!(ids_of(&snapshot), vec![1, 2]);
    assert!(!snapshot[0].completed);
    assert!(!snapshot[1].completed);
    assert_eq!(snapshot[0].description, "a");
    assert_eq!(snapshot[1].description, "b");
}

#[test]
fn changing_a_snapshot_does_not_change_the_store() {
    let mut store = TaskStore::new();
    store.add("a".to_string());
    let mut snapshot = store.list();
    snapshot[0].completed = true;
    snapshot[0].id = 42;
    snapshot.clear();
    let again = store.list();
    assert_eq!(again.len(), 1);
    assert_eq!(again[0].id, 1);
    assert!(!again[0].completed);
    assert_eq!(store.add("b".to_string()).id, 2);
}

#[test]
fn returned_task_is_a_copy() {
    let mut store = TaskStore::new();
    let mut t = store.add("a".to_string());
    t.completed = true;
    t.description.push_str(" changed");
    let all = store.list();
    assert!(!all[0].completed);
    assert_eq!(all[0].description, "a");
}

#[test]
fn len_counts_present_tasks() {
    let mut store = TaskStore::new();
    store.add_batch(texts(&["a", "b", "c"]));
    assert_eq!(store.len(), 3);
    store.delete(1);
    assert_eq!(store.len(), 2);
}

#[test]
fn contains_id_finds_members_only() {
    let ids = vec![5, 8, 13];
    assert!(contains_id(&ids, 5));
    assert!(contains_id(&ids, 13));
    assert!(!contains_id(&ids, 6));
    assert!(!contains_id(&Vec::new(), 1));
}

#[test]
fn status_texts() {
    assert_eq!(completion_status(true), "Tasks marked as completed");
    assert_eq!(completion_status(false), "No tasks found");
    assert_eq!(deletion_status(true), "Tasks deleted");
    assert_eq!(deletion_status(false), "No tasks found");
}

#[test]
fn large_batch_on_empty_store_counts_from_one() {
    let mut store = TaskStore::new();
    let descriptions: Vec<String> = (0..200).map(|i| format!("task {}", i)).collect();
    let created = store.add_batch(descriptions);
    assert_eq!(created.len(), 200);
    for (i, t) in created.iter().enumerate() {
        assert_eq!(t.id, i as u64 + 1);
        assert_eq!(t.description, format!("task {}", i));
        assert!(!t.completed);
    }
    assert_eq!(store.next_id(), 201);
}

#[test]
fn batch_in_two_parts_equals_one_batch() {
    let mut whole = TaskStore::new();
    whole.add("seed".to_string());
    whole.delete(1);
    whole.add_batch(texts(&["a", "b", "c"]));
    let mut parts = TaskStore::new();
    parts.add_batch(texts(&["a"]));
    parts.add_batch(texts(&["b", "c"]));
    let w = whole.list();
    let p = parts.list();
    assert_eq!(ids_of(&w), ids_of(&p));
    assert_eq!(ids_of(&w), vec![1, 2, 3]);
    for (x, y) in w.iter().zip(p.iter()) {
        assert_eq!(x.description, y.description);
        assert_eq!(x.completed, y.completed);
    }
}
