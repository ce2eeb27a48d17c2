use project_monitor::cycle::{baselines_equal, reconcile_at_current_time, should_persist};
use project_monitor::github::{check_projects_wf, Project, Task, TaskType};
use project_monitor::reconcile::{
    latest_created, lookup_project, lookup_task, merge_fresh, prune_stale, reconcile,
    sort_by_latest, upsert_task,
};

fn task(task_type: TaskType, id: i64, url: &str, created_at: i64, observed_at: i64) -> Task {
    Task {
        task_type,
        id,
        title: format!("title of {}", url),
        author: String::from("someone"),
        created_at,
        url: String::from(url),
        observed_at,
    }
}

fn project(owner: &str, name: &str, url: &str, tasks: Vec<Task>) -> Project {
    Project {
        owner: String::from(owner),
        name: String::from(name),
        url: String::from(url),
        tasks,
    }
}

const RET: i64 = 86400;

#[test]
fn first_cycle_notifies_everything() {
    let known: Vec<Project> = Vec::new();
    let fresh = vec![project(
        "alice",
        "engine",
        "p1",
        vec![task(TaskType::Issue, 1, "i1", 1000, 0)],
    )];
    let now = 5000;
    let r = reconcile(&known, &fresh, RET, now);
    assert_eq!(r.notify.len(), 1);
    assert_eq!(r.notify[0].url, "p1");
    assert_eq!(r.notify[0].owner, "alice");
    assert_eq!(r.notify[0].name, "engine");
    assert_eq!(r.notify[0].tasks.len(), 1);
    assert_eq!(r.notify[0].tasks[0].url, "i1");
    assert_eq!(r.notify[0].tasks[0].observed_at, now);
    assert_eq!(r.new_known.len(), 1);
    assert_eq!(r.new_known[0].url, "p1");
    assert_eq!(r.new_known[0].tasks.len(), 1);
    assert_eq!(r.new_known[0].tasks[0].url, "i1");
    assert_eq!(r.new_known[0].tasks[0].observed_at, now);
}

#[test]
fn second_cycle_with_same_fetch_is_a_no_op() {
    let known: Vec<Project> = Vec::new();
    let fresh = vec![project(
        "alice",
        "engine",
        "p1",
        vec![task(TaskType::Issue, 1, "i1", 1000, 0)],
    )];
    let now = 5000;
    let r1 = reconcile(&known, &fresh, RET, now);
    let r2 = reconcile(&r1.new_known, &fresh, RET, now);
    assert!(r2.notify.is_empty());
    assert!(baselines_equal(&r1.new_known, &r2.new_known));
}

#[test]
fn third_cycle_prunes_project_emptied_upstream() {
    let known: Vec<Project> = Vec::new();
    let fresh = vec![project(
        "alice",
        "engine",
        "p1",
        vec![task(TaskType::Issue, 1, "i1", 1000, 0)],
    )];
    let now = 5000;
    let r1 = reconcile(&known, &fresh, RET, now);
    let r2 = reconcile(&r1.new_known, &fresh, RET, now);
    let emptied = vec![project("alice", "engine", "p1", Vec::new())];
    let r3 = reconcile(&r2.new_known, &emptied, RET, now + 100);
    assert!(r3.notify.is_empty());
    assert!(r3.new_known.is_empty());
}

#[test]
fn retention_expiry_rearms_notification() {
    let now = 200000;
    // strictly older than the retention window
    let known = vec![project(
        "alice",
        "engine",
        "p1",
        vec![task(TaskType::Pr, 7, "t7", 500, now - RET - 1)],
    )];
    let fresh = vec![project(
        "alice",
        "engine",
        "p1",
        vec![task(TaskType::Pr, 7, "t7", 500, 0)],
    )];
    let r = reconcile(&known, &fresh, RET, now);
    assert_eq!(r.notify.len(), 1);
    assert_eq!(r.notify[0].tasks.len(), 1);
    assert_eq!(r.notify[0].tasks[0].url, "t7");
    assert_eq!(r.new_known[0].tasks[0].observed_at, now);
}

#[test]
fn task_within_retention_is_not_renotified() {
    let now = 200000;
    // aged exactly the window: the inclusive boundary still counts as known
    let known = vec![project(
        "alice",
        "engine",
        "p1",
        vec![task(TaskType::Pr, 7, "t7", 500, now - RET)],
    )];
    let fresh = vec![project(
        "alice",
        "engine",
        "p1",
        vec![task(TaskType::Pr, 7, "t7", 500, 0)],
    )];
    let r = reconcile(&known, &fresh, RET, now);
    assert!(r.notify.is_empty());
    assert_eq!(r.new_known[0].tasks[0].observed_at, now - RET);
}

#[test]
fn disappeared_project_is_evicted() {
    let now = 9000;
    let known = vec![
        project("alice", "engine", "p1", vec![task(TaskType::Issue, 1, "i1", 10, now)]),
        project("bob", "tools", "p2", vec![task(TaskType::Issue, 2, "i2", 20, now)]),
    ];
    let fresh = vec![project(
        "bob",
        "tools",
        "p2",
        vec![task(TaskType::Issue, 2, "i2", 20, 0)],
    )];
    let r = reconcile(&known, &fresh, RET, now);
    assert_eq!(r.new_known.len(), 1);
    assert_eq!(r.new_known[0].url, "p2");
    assert!(r.notify.is_empty());
}

#[test]
fn no_double_notification_across_cycles() {
    let known: Vec<Project> = Vec::new();
    let fresh = vec![project(
        "alice",
        "engine",
        "p1",
        vec![task(TaskType::Discussion, 3, "d3", 42, 0)],
    )];
    let now1 = 1000;
    let now2 = 2000;
    let r1 = reconcile(&known, &fresh, RET, now1);
    assert_eq!(r1.notify.len(), 1);
    let r2 = reconcile(&r1.new_known, &fresh, RET, now2);
    assert!(r2.notify.is_empty());
}

#[test]
fn notify_is_ordered_by_most_recent_task() {
    let known: Vec<Project> = Vec::new();
    let fresh = vec![
        project("a", "old", "p_old", vec![task(TaskType::Issue, 1, "i1", 100, 0)]),
        project(
            "b",
            "busy",
            "p_busy",
            vec![
                task(TaskType::Issue, 2, "i2", 50, 0),
                task(TaskType::Pr, 3, "i3", 900, 0),
            ],
        ),
        project("c", "mid", "p_mid", vec![task(TaskType::Issue, 4, "i4", 400, 0)]),
    ];
    let r = reconcile(&known, &fresh, RET, 5000);
    let urls: Vec<&str> = r.notify.iter().map(|p| p.url.as_str()).collect();
    assert_eq!(urls, vec!["p_busy", "p_mid", "p_old"]);
}

#[test]
fn prune_drops_tasks_missing_upstream() {
    let now = 1000;
    let known = vec![project(
        "alice",
        "engine",
        "p1",
        vec![
            task(TaskType::Issue, 1, "keep", 10, now),
            task(TaskType::Issue, 2, "gone", 10, now),
        ],
    )];
    let fresh = vec![project(
        "alice",
        "engine",
        "p1",
        vec![task(TaskType::Issue, 1, "keep", 10, 0)],
    )];
    let out = prune_stale(&known, &fresh, now, RET);
    assert_eq!(out.len(), 1);
    assert_eq!(out[0].tasks.len(), 1);
    assert_eq!(out[0].tasks[0].url, "keep");
}

#[test]
fn prune_drops_project_left_empty() {
    let now = 1000;
    let known = vec![project(
        "alice",
        "engine",
        "p1",
        vec![task(TaskType::Issue, 2, "gone", 10, now)],
    )];
    let fresh = vec![project("alice", "engine", "p1", Vec::new())];
    let out = prune_stale(&known, &fresh, now, RET);
    assert!(out.is_empty());
}

#[test]
fn upsert_inserts_and_reports_novelty() {
    let mut list: Vec<Project> = Vec::new();
    let p = project("alice", "engine", "p1", vec![task(TaskType::Issue, 1, "i1", 10, 0)]);
    let t = task(TaskType::Issue, 1, "i1", 10, 0);
    let now = 777;
    assert!(upsert_task(&mut list, &p, &t, now));
    assert_eq!(list.len(), 1);
    assert_eq!(list[0].url, "p1");
    assert_eq!(list[0].tasks.len(), 1);
    assert_eq!(list[0].tasks[0].observed_at, now);
    // the same pair again is not new
    assert!(!upsert_task(&mut list, &p, &t, now));
    assert_eq!(list[0].tasks.len(), 1);
    // a second task joins the existing project
    let t2 = task(TaskType::Pr, 2, "i2", 20, 0);
    assert!(upsert_task(&mut list, &p, &t2, now));
    assert_eq!(list.len(), 1);
    assert_eq!(list[0].tasks.len(), 2);
}

#[test]
fn lookups_find_first_match_by_url() {
    let list = vec![
        project("a", "x", "p1", vec![task(TaskType::Issue, 1, "i1", 10, 0)]),
        project("b", "y", "p2", vec![task(TaskType::Issue, 2, "i2", 10, 0)]),
    ];
    assert_eq!(lookup_project(&list, &String::from("p2")), Some(1));
    assert_eq!(lookup_project(&list, &String::from("p9")), None);
    assert_eq!(lookup_task(&list[0], &String::from("i1")), Some(0));
    assert_eq!(lookup_task(&list[0], &String::from("i2")), None);
}

#[test]
fn merge_appends_new_tasks_with_observed_now() {
    let pruned = vec![project(
        "alice",
        "engine",
        "p1",
        vec![task(TaskType::Issue, 1, "i1", 10, 111)],
    )];
    let fresh = vec![project(
        "alice",
        "engine",
        "p1",
        vec![
            task(TaskType::Issue, 1, "i1", 10, 0),
            task(TaskType::Issue, 2, "i2", 20, 0),
        ],
    )];
    let (new_known, notify) = merge_fresh(pruned, &fresh, 999);
    assert_eq!(new_known.len(), 1);
    assert_eq!(new_known[0].tasks.len(), 2);
    assert_eq!(new_known[0].tasks[0].observed_at, 111);
    assert_eq!(new_known[0].tasks[1].url, "i2");
    assert_eq!(new_known[0].tasks[1].observed_at, 999);
    assert_eq!(notify.len(), 1);
    assert_eq!(notify[0].tasks.len(), 1);
    assert_eq!(notify[0].tasks[0].url, "i2");
}

#[test]
fn sort_by_latest_orders_descending() {
    let v = vec![
        project("a", "x", "p1", vec![task(TaskType::Issue, 1, "i1", 5, 0)]),
        project("b", "y", "p2", vec![task(TaskType::Issue, 2, "i2", 50, 0)]),
    ];
    let sorted = sort_by_latest(v);
    assert_eq!(sorted[0].url, "p2");
    assert_eq!(sorted[1].url, "p1");
}

#[test]
fn latest_created_takes_the_maximum() {
    let p = project(
        "a",
        "x",
        "p1",
        vec![
            task(TaskType::Issue, 1, "i1", 30, 0),
            task(TaskType::Issue, 2, "i2", 90, 0),
            task(TaskType::Issue, 3, "i3", 60, 0),
        ],
    );
    assert_eq!(latest_created(&p), 90);
}

#[test]
fn persist_skipped_when_notify_failed() {
    let loaded = vec![project("a", "x", "p1", vec![task(TaskType::Issue, 1, "i1", 10, 5)])];
    let changed = vec![project("a", "x", "p1", vec![task(TaskType::Issue, 2, "i2", 10, 5)])];
    // notification failed: never write, even though the baseline changed
    assert!(!should_persist(&loaded, &changed, false));
    // notification delivered and the baseline changed: write
    assert!(should_persist(&loaded, &changed, true));
    // notification delivered but nothing changed: skip the write
    assert!(!should_persist(&loaded, &loaded, true));
}

#[test]
fn baselines_equal_compares_deeply() {
    let a = vec![project("a", "x", "p1", vec![task(TaskType::Issue, 1, "i1", 10, 5)])];
    let b = vec![project("a", "x", "p1", vec![task(TaskType::Issue, 1, "i1", 10, 5)])];
    let c = vec![project("a", "x", "p1", vec![task(TaskType::Issue, 1, "i1", 10, 6)])];
    assert!(baselines_equal(&a, &b));
    assert!(!baselines_equal(&a, &c));
    assert!(!baselines_equal(&a, &Vec::new()));
}

#[test]
fn reconcile_at_current_time_runs_a_cycle() {
    let known: Vec<Project> = Vec::new();
    let fresh = vec![project(
        "alice",
        "engine",
        "p1",
        vec![task(TaskType::Issue, 1, "i1", 1000, 0)],
    )];
    assert!(check_projects_wf(&known));
    assert!(check_projects_wf(&fresh));
    let r = reconcile_at_current_time(&known, &fresh, RET);
    assert_eq!(r.notify.len(), 1);
    assert_eq!(r.new_known.len(), 1);
}
