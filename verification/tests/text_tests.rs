use task_list::digits::{parse_u32, u32_to_string};
use task_list::list::TasksList;
use task_list::task::Task;

#[test]
fn u32_to_string_renders_decimal() {
    assert_eq!(u32_to_string(0), "0");
    assert_eq!(u32_to_string(7), "7");
    assert_eq!(u32_to_string(10), "10");
    assert_eq!(u32_to_string(12345), "12345");
    assert_eq!(u32_to_string(u32::MAX), "4294967295");
}

#[test]
fn parse_u32_accepts_plain_decimal() {
    assert_eq!(parse_u32("0"), Some(0));
    assert_eq!(parse_u32("9"), Some(9));
    assert_eq!(parse_u32("123"), Some(123));
    assert_eq!(parse_u32("007"), Some(7));
    assert_eq!(parse_u32("4294967295"), Some(u32::MAX));
}

#[test]
fn parse_u32_rejects_bad_input() {
    assert_eq!(parse_u32(""), None);
    assert_eq!(parse_u32("12a"), None);
    assert_eq!(parse_u32("-1"), None);
    assert_eq!(parse_u32("1 2"), None);
    assert_eq!(parse_u32("4294967296"), None);
    assert_eq!(parse_u32("99999999999999999999"), None);
}

#[test]
fn summary_without_deadline() {
    let t = Task::new(7, "T".to_string(), "D".to_string());
    assert_eq!(t.summary(), "id: 7\ntitle: T\ndescription: D\nstatus: Not completed");
}

#[test]
fn summary_with_deadline_and_completed() {
    let mut t = Task::new(12, "pay rent".to_string(), "monthly".to_string());
    t.set_deadline(Some("2024-04-01".to_string()));
    t.toggle_completed();
    assert_eq!(
        t.summary(),
        "id: 12\ntitle: pay rent\ndescription: monthly\ndeadline: 2024-04-01\nstatus: Completed"
    );
}

#[test]
fn summary_all_joins_with_dividers() {
    let divider =
        "\n---------------------------------------------------------------------------\n";
    let mut list = TasksList::new();
    assert_eq!(list.summary_all(), "");
    list.add_task(Task::new(1, "a".to_string(), "x".to_string()));
    list.add_task(Task::new(2, "b".to_string(), "y".to_string()));
    let expected = format!(
        "id: 1\ntitle: a\ndescription: x\nstatus: Not completed{divider}id: 2\ntitle: b\ndescription: y\nstatus: Not completed{divider}"
    );
    assert_eq!(list.summary_all(), expected);
}
