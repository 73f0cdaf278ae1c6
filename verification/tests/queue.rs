use eventuler::engine::Task;
use eventuler::queue::{handle_request, Request, Response};

fn task(name: &str, current: i64, target: i64) -> Task {
    Task { name: name.to_string(), current, target }
}

#[test]
fn extend_appends_in_order() {
    let mut queue: Vec<Task> = vec![task("a", 0, 10)];
    let resp = handle_request(
        Request::Extend(vec![task("b", 0, 10), task("c", 0, 10)]),
        &mut queue,
    );
    assert!(matches!(resp, Response::OK));
    assert_eq!(
        queue,
        vec![task("a", 0, 10), task("b", 0, 10), task("c", 0, 10)]
    );
}

#[test]
fn task_request_pops_newest_first() {
    let mut queue: Vec<Task> = Vec::new();
    handle_request(
        Request::Extend(vec![task("old", 0, 10), task("new", 5, 15)]),
        &mut queue,
    );

    match handle_request(Request::Task, &mut queue) {
        Response::Task(t) => assert_eq!(t, task("new", 5, 15)),
        other => panic!("expected a task, got {:?}", other),
    }
    match handle_request(Request::Task, &mut queue) {
        Response::Task(t) => assert_eq!(t, task("old", 0, 10)),
        other => panic!("expected a task, got {:?}", other),
    }
    assert!(queue.is_empty());
}

#[test]
fn task_request_on_empty_queue_reports_empty() {
    let mut queue: Vec<Task> = Vec::new();
    let resp = handle_request(Request::Task, &mut queue);
    assert!(matches!(resp, Response::EmptyQueue));
    assert!(queue.is_empty());
}

#[test]
fn extend_with_nothing_is_acknowledged() {
    let mut queue: Vec<Task> = vec![task("a", 0, 10)];
    let resp = handle_request(Request::Extend(Vec::new()), &mut queue);
    assert!(matches!(resp, Response::OK));
    assert_eq!(queue.len(), 1);
}
