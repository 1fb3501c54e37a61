use task_list::list::TasksList;
use task_list::task::Task;

fn task(id: u32, title: &str, description: &str, deadline: Option<&str>) -> Task {
    let mut t = Task::new(id, title.to_string(), description.to_string());
    t.set_deadline(deadline.map(|d| d.to_string()));
    t
}

fn ids(list: &TasksList) -> Vec<u32> {
    list.tasks.iter().map(|t| t.get_id()).collect()
}

#[test]
fn add_then_find_by_id_returns_identical_fields() {
    let mut list = TasksList::new();
    list.add_task(task(7, "write report", "quarterly numbers", Some("2024-05-01")));
    let found = list.find_task_by_id(7).expect("task should be found");
    assert_eq!(found.get_id(), 7);
    assert_eq!(found.get_title(), "write report");
    assert_eq!(found.get_description(), "quarterly numbers");
    assert_eq!(found.get_deadline(), Some("2024-05-01"));
    assert!(!found.get_completed());
}

#[test]
fn find_by_id_duplicate_ids_returns_first() {
    let mut list = TasksList::new();
    list.add_task(task(1, "first", "a", None));
    list.add_task(task(1, "second", "b", None));
    let found = list.find_task_by_id(1).expect("task should be found");
    assert_eq!(found.get_title(), "first");
}

#[test]
fn find_by_id_missing_returns_none() {
    let mut list = TasksList::new();
    list.add_task(task(1, "a", "", None));
    assert!(list.find_task_by_id(2).is_none());
}

#[test]
fn remove_nonexistent_id_leaves_collection_unchanged() {
    let mut list = TasksList::new();
    list.add_task(task(1, "a", "", None));
    list.add_task(task(2, "b", "", None));
    list.add_task(task(3, "c", "", None));
    list.remove_task(99);
    assert_eq!(ids(&list), vec![1, 2, 3]);
}

#[test]
fn remove_removes_only_first_match() {
    let mut list = TasksList::new();
    list.add_task(task(1, "first", "", None));
    list.add_task(task(1, "second", "", None));
    list.add_task(task(2, "third", "", None));
    list.remove_task(1);
    assert_eq!(list.tasks.len(), 2);
    assert_eq!(list.tasks[0].get_title(), "second");
    assert_eq!(list.tasks[1].get_title(), "third");
}

#[test]
fn find_by_title_empty_collection_returns_empty() {
    let list = TasksList::new();
    assert!(list.find_task_by_title("anything").is_empty());
}

#[test]
fn find_by_title_no_match_returns_empty() {
    let mut list = TasksList::new();
    list.add_task(task(1, "a", "", None));
    list.add_task(task(2, "b", "", None));
    assert!(list.find_task_by_title("c").is_empty());
}

#[test]
fn find_by_title_duplicates_in_insertion_order() {
    let mut list = TasksList::new();
    list.add_task(task(1, "X", "one", None));
    list.add_task(task(2, "Y", "two", None));
    list.add_task(task(3, "X", "three", None));
    let found = list.find_task_by_title("X");
    assert_eq!(found.len(), 2);
    assert_eq!(found[0].get_id(), 1);
    assert_eq!(found[1].get_id(), 3);
}

#[test]
fn toggle_completed_twice_restores_state() {
    let mut t = task(1, "a", "", None);
    assert!(!t.get_completed());
    t.toggle_completed();
    assert!(t.get_completed());
    t.toggle_completed();
    assert!(!t.get_completed());
}

#[test]
fn toggle_by_id_flips_first_match_only() {
    let mut list = TasksList::new();
    list.add_task(task(1, "a", "", None));
    list.add_task(task(1, "b", "", None));
    assert!(list.toggle_task_by_id(1));
    assert!(list.tasks[0].get_completed());
    assert!(!list.tasks[1].get_completed());
    assert!(!list.toggle_task_by_id(42));
}

#[test]
fn setters_update_fields() {
    let mut t = task(5, "old title", "old description", None);
    t.set_title("new title".to_string());
    t.set_description("new description".to_string());
    t.set_deadline(Some("2024-12-31".to_string()));
    assert_eq!(t.get_title(), "new title");
    assert_eq!(t.get_description(), "new description");
    assert_eq!(t.get_deadline(), Some("2024-12-31"));
    t.set_deadline(None);
    assert_eq!(t.get_deadline(), None);
}
