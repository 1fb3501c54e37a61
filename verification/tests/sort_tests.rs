use task_list::list::TasksList;
use task_list::task::Task;

fn task(id: u32, title: &str, deadline: Option<&str>) -> Task {
    let mut t = Task::new(id, title.to_string(), String::new());
    t.set_deadline(deadline.map(|d| d.to_string()));
    t
}

fn ids(list: &TasksList) -> Vec<u32> {
    list.tasks.iter().map(|t| t.get_id()).collect()
}

#[test]
fn sort_by_title_orders_lexicographically() {
    let mut list = TasksList::new();
    list.add_task(task(1, "pear", None));
    list.add_task(task(2, "apple", None));
    list.add_task(task(3, "orange", None));
    list.sort_by_title();
    assert_eq!(ids(&list), vec![2, 3, 1]);
}

#[test]
fn sort_by_title_is_stable_for_equal_titles() {
    let mut list = TasksList::new();
    list.add_task(task(1, "b", None));
    list.add_task(task(2, "a", None));
    list.add_task(task(3, "a", None));
    list.add_task(task(4, "b", None));
    list.sort_by_title();
    assert_eq!(ids(&list), vec![2, 3, 1, 4]);
}

#[test]
fn sort_by_title_twice_gives_same_order_as_once() {
    let mut list = TasksList::new();
    list.add_task(task(1, "delta", None));
    list.add_task(task(2, "alpha", None));
    list.add_task(task(3, "delta", None));
    list.add_task(task(4, "charlie", None));
    list.sort_by_title();
    let once = ids(&list);
    list.sort_by_title();
    assert_eq!(ids(&list), once);
}

#[test]
fn sort_by_deadline_dated_first_chronological_undated_last() {
    let mut list = TasksList::new();
    list.add_task(task(1, "a", Some("2024-03-01")));
    list.add_task(task(2, "b", None));
    list.add_task(task(3, "c", Some("2024-01-05")));
    assert_eq!(list.sort_by_deadline(), Ok(()));
    assert_eq!(ids(&list), vec![3, 1, 2]);
}

#[test]
fn sort_by_deadline_then_remove_scenario() {
    let mut list = TasksList::new();
    list.add_task(task(1, "A", Some("2024-05-01")));
    list.add_task(task(2, "B", Some("2024-01-01")));
    assert_eq!(list.sort_by_deadline(), Ok(()));
    assert_eq!(ids(&list), vec![2, 1]);
    list.remove_task(1);
    assert_eq!(ids(&list), vec![2]);
}

#[test]
fn sort_by_deadline_is_stable_for_equal_dates_and_for_undated() {
    let mut list = TasksList::new();
    list.add_task(task(1, "a", None));
    list.add_task(task(2, "b", Some("2024-06-15")));
    list.add_task(task(3, "c", None));
    list.add_task(task(4, "d", Some("2024-06-15")));
    assert_eq!(list.sort_by_deadline(), Ok(()));
    assert_eq!(ids(&list), vec![2, 4, 1, 3]);
}

#[test]
fn sort_by_deadline_compares_dates_not_strings() {
    // as strings "2024-10-01" sorts before "2024-09-05"; as dates it comes after
    let mut list = TasksList::new();
    list.add_task(task(1, "a", Some("2024-10-01")));
    list.add_task(task(2, "b", Some("2024-09-05")));
    assert_eq!(list.sort_by_deadline(), Ok(()));
    assert_eq!(ids(&list), vec![2, 1]);
}

#[test]
fn sort_by_deadline_accepts_leap_day() {
    let mut list = TasksList::new();
    list.add_task(task(1, "a", Some("2024-02-29")));
    list.add_task(task(2, "b", Some("2024-02-28")));
    assert_eq!(list.sort_by_deadline(), Ok(()));
    assert_eq!(ids(&list), vec![2, 1]);
}

#[test]
fn sort_by_deadline_malformed_reports_first_bad_id_and_keeps_order() {
    let mut list = TasksList::new();
    list.add_task(task(1, "a", Some("2024-01-01")));
    list.add_task(task(7, "b", Some("not-a-date")));
    list.add_task(task(3, "c", Some("also bad")));
    assert_eq!(list.sort_by_deadline(), Err(7));
    assert_eq!(ids(&list), vec![1, 7, 3]);
}

#[test]
fn sort_by_deadline_rejects_invalid_calendar_date() {
    // February 30th never exists, even though the string is well-formed
    let mut list = TasksList::new();
    list.add_task(task(9, "a", Some("2023-02-30")));
    assert_eq!(list.sort_by_deadline(), Err(9));
    assert_eq!(ids(&list), vec![9]);
}

#[test]
fn sort_by_deadline_empty_and_singleton() {
    let mut empty = TasksList::new();
    assert_eq!(empty.sort_by_deadline(), Ok(()));
    assert_eq!(ids(&empty), Vec::<u32>::new());
    let mut one = TasksList::new();
    one.add_task(task(1, "a", None));
    assert_eq!(one.sort_by_deadline(), Ok(()));
    assert_eq!(ids(&one), vec![1]);
}
