use project_monitor::cycle::{project_equal, task_equal};
use project_monitor::email::TransportSecurity;
use project_monitor::error::QueryError;
use project_monitor::github::{check_projects_wf, Project, Task, TaskType};

fn task(task_type: TaskType, id: i64, url: &str, created_at: i64, observed_at: i64) -> Task {
    Task {
        task_type,
        id,
        title: format!("title of {}", url),
        author: String::from("someone"),
        created_at,
        url: String::from(url),
        observed_at,
    }
}

fn project(owner: &str, name: &str, url: &str, tasks: Vec<Task>) -> Project {
    Project {
        owner: String::from(owner),
        name: String::from(name),
        url: String::from(url),
        tasks,
    }
}

#[test]
fn task_accessors_return_the_fields() {
    let t = task(TaskType::Issue, 12, "https://example.test/i/12", 345, 0);
    assert_eq!(t.url(), "https://example.test/i/12");
    assert_eq!(t.created_at(), 345);
}

#[test]
fn task_clone_preserves_every_field() {
    let t = task(TaskType::Discussion, 9, "d9", 77, 88);
    let c = t.clone();
    assert!(task_equal(&t, &c));
}

#[test]
fn project_equality_sees_task_differences() {
    let a = project("a", "x", "p1", vec![task(TaskType::Issue, 1, "i1", 10, 5)]);
    let b = project("a", "x", "p1", vec![task(TaskType::Issue, 1, "i1", 10, 5)]);
    let c = project("a", "x", "p1", vec![task(TaskType::Pr, 1, "i1", 10, 5)]);
    assert!(project_equal(&a, &b));
    assert!(!project_equal(&a, &c));
}

#[test]
fn wf_check_accepts_distinct_urls() {
    let s = vec![
        project("a", "x", "p1", vec![task(TaskType::Issue, 1, "i1", 10, 0)]),
        project("b", "y", "p2", vec![task(TaskType::Issue, 2, "i2", 10, 0)]),
    ];
    assert!(check_projects_wf(&s));
}

#[test]
fn wf_check_rejects_duplicate_project_urls() {
    let s = vec![
        project("a", "x", "p1", Vec::new()),
        project("b", "y", "p1", Vec::new()),
    ];
    assert!(!check_projects_wf(&s));
}

#[test]
fn wf_check_rejects_duplicate_task_urls() {
    let s = vec![project(
        "a",
        "x",
        "p1",
        vec![
            task(TaskType::Issue, 1, "i1", 10, 0),
            task(TaskType::Pr, 2, "i1", 20, 0),
        ],
    )];
    assert!(!check_projects_wf(&s));
}

#[test]
fn http_error_message_carries_the_code() {
    assert_eq!(QueryError::HttpError(404).message(), "http error: 404");
    assert_eq!(QueryError::HttpError(0).message(), "http error: 0");
    assert_eq!(QueryError::HttpError(65535).message(), "http error: 65535");
}

#[test]
fn no_data_message_is_fixed() {
    assert_eq!(QueryError::NoData.message(), "no data");
}

#[test]
fn query_error_values_compare_by_variant_and_code() {
    assert_eq!(QueryError::HttpError(500), QueryError::HttpError(500));
    assert_ne!(QueryError::HttpError(500), QueryError::HttpError(502));
    assert_ne!(QueryError::HttpError(500), QueryError::NoData);
}

#[test]
fn transport_security_values_compare_by_variant() {
    assert_eq!(TransportSecurity::Plain, TransportSecurity::Plain);
    assert_ne!(TransportSecurity::Plain, TransportSecurity::StartTls);
}
