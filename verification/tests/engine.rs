use std::collections::HashSet;

use eventuler::engine::{Eventuler, EventulerError, Job, Task};

fn job(name: &str, deps: &[&str], frequency: i64, current: i64) -> Job {
    Job {
        name: name.to_string(),
        dependencies: deps.iter().map(|d| d.to_string()).collect(),
        frequency,
        current,
    }
}

#[test]
fn test_trigger() {
    let mut eventuler = Eventuler::new();
    let frequency = 10;
    let target = 1_000_000;
    let current = target - frequency;

    let first_j = job("1", &[], frequency, current);
    let second_j = job("2", &["1"], frequency, current);

    eventuler.insert(first_j).unwrap();
    eventuler.insert(second_j).unwrap();

    let expected_task = Task {
        name: "2".to_string(),
        current,
        target,
    };

    let mut expected = HashSet::new();
    expected.insert(expected_task);

    let got: HashSet<Task> = eventuler.trigger("1", target).unwrap().into_iter().collect();
    assert_eq!(got, expected)
}

#[test]
fn insert_unknown_dependency_fails_and_changes_nothing() {
    let mut eventuler = Eventuler::new();
    eventuler.insert(job("a", &[], 10, 0)).unwrap();

    let before = eventuler.graph_at(5);

    let err = eventuler.insert(job("b", &["a", "ghost", "also-missing"], 10, 0));
    match err {
        Err(EventulerError::NodeNotFound(name)) => assert_eq!(name, "ghost"),
        other => panic!("expected NodeNotFound, got {:?}", other),
    }

    // The graph is unchanged: same nodes, same links, and the failed name
    // is still unknown.
    let after = eventuler.graph_at(5);
    assert_eq!(after.nodes.len(), before.nodes.len());
    assert_eq!(after.links.len(), before.links.len());
    assert!(matches!(
        eventuler.trigger("b", 1),
        Err(EventulerError::NodeNotFound(_))
    ));

    // No partial state is left behind: the same name inserts cleanly.
    eventuler.insert(job("b", &["a"], 10, 0)).unwrap();
    assert_eq!(eventuler.graph_at(5).links.len(), 1);
}

#[test]
fn insert_duplicate_name_is_rejected() {
    let mut eventuler = Eventuler::new();
    eventuler.insert(job("a", &[], 10, 0)).unwrap();
    let err = eventuler.insert(job("a", &[], 20, 0));
    match err {
        Err(EventulerError::DuplicateName(name)) => assert_eq!(name, "a"),
        other => panic!("expected DuplicateName, got {:?}", other),
    }
    assert_eq!(eventuler.graph_at(0).nodes.len(), 1);
}

#[test]
fn trigger_unknown_job_fails() {
    let mut eventuler = Eventuler::new();
    let err = eventuler.trigger("nobody", 42);
    match err {
        Err(EventulerError::NodeNotFound(name)) => assert_eq!(name, "nobody"),
        other => panic!("expected NodeNotFound, got {:?}", other),
    }
}

#[test]
fn chain_emits_exactly_one_instruction() {
    let t = 500;
    let mut eventuler = Eventuler::new();
    eventuler.insert(job("A", &[], 10, t)).unwrap();
    eventuler.insert(job("B", &["A"], 10, t)).unwrap();

    let tasks = eventuler.trigger("A", t + 10).unwrap();
    assert_eq!(
        tasks,
        vec![Task { name: "B".to_string(), current: t, target: t + 10 }]
    );
}

#[test]
fn retrigger_does_not_advance_the_window() {
    let t = 500;
    let mut eventuler = Eventuler::new();
    eventuler.insert(job("A", &[], 10, t)).unwrap();
    eventuler.insert(job("B", &["A"], 10, t)).unwrap();

    let first = eventuler.trigger("A", t + 10).unwrap();
    // B has not been advanced; triggering A again emits the same
    // instruction value, for the same window, not a new one.
    let second = eventuler.trigger("A", t + 11).unwrap();
    assert_eq!(first, second);

    let mut seen: HashSet<Task> = HashSet::new();
    seen.extend(first);
    seen.extend(second);
    assert_eq!(seen.len(), 1);
    let only = seen.iter().next().unwrap();
    assert_eq!(only.target, t + 10);
}

#[test]
fn diamond_fires_only_when_both_parents_advanced() {
    let t = 500;
    let f = 10;
    let mut eventuler = Eventuler::new();
    eventuler.insert(job("A", &[], f, t)).unwrap();
    eventuler.insert(job("B", &["A"], f, t)).unwrap();
    eventuler.insert(job("C", &["A"], f, t)).unwrap();
    eventuler.insert(job("D", &["B", "C"], f, t)).unwrap();

    // Triggering A readies B and C, not D (D is not a direct dependent).
    let tasks = eventuler.trigger("A", t + f).unwrap();
    let names: Vec<&str> = tasks.iter().map(|task| task.name.as_str()).collect();
    assert_eq!(names, vec!["B", "C"]);

    // Only B has advanced: D's slowest parent is still C, no instruction.
    let tasks = eventuler.trigger("B", t + f).unwrap();
    assert_eq!(tasks, vec![]);

    // Once C has advanced too, D receives exactly one instruction.
    let tasks = eventuler.trigger("C", t + f).unwrap();
    assert_eq!(
        tasks,
        vec![Task { name: "D".to_string(), current: t, target: t + f }]
    );
}

#[test]
fn negative_elapsed_time_counts_as_zero_windows() {
    let t = 500;
    let mut eventuler = Eventuler::new();
    eventuler.insert(job("A", &[], 10, t)).unwrap();
    eventuler.insert(job("B", &["A"], 10, t)).unwrap();

    // Rewinding A below B's refresh must truncate toward zero: no
    // instruction, rather than one with a window in the past.
    let tasks = eventuler.trigger("A", t - 1).unwrap();
    assert_eq!(tasks, vec![]);
}

#[test]
fn freshness_has_both_branches() {
    let j = job("a", &[], 10, 100);
    assert!(j.updated(109));
    assert!(!j.updated(110));
    assert!(j.updated(99));
}
