use eventuler::engine::{Eventuler, Job};

fn job(name: &str, deps: &[&str], frequency: i64, current: i64) -> Job {
    Job {
        name: name.to_string(),
        dependencies: deps.iter().map(|d| d.to_string()).collect(),
        frequency,
        current,
    }
}

#[test]
fn nodes_are_colored_by_freshness() {
    let mut eventuler = Eventuler::new();
    eventuler.insert(job("fresh", &[], 10, 100)).unwrap();
    eventuler.insert(job("stale", &[], 10, 50)).unwrap();

    // At 105: 105 - 100 < 10 holds, 105 - 50 < 10 does not.
    let graph = eventuler.graph_at(105);
    assert_eq!(graph.nodes.len(), 2);
    assert_eq!(graph.nodes[0].name, "fresh");
    assert_eq!(graph.nodes[0].color, "green");
    assert_eq!(graph.nodes[1].name, "stale");
    assert_eq!(graph.nodes[1].color, "red");

    // At the exact boundary the job is no longer fresh.
    let graph = eventuler.graph_at(110);
    assert_eq!(graph.nodes[0].color, "red");
}

#[test]
fn links_mirror_their_source_node() {
    let mut eventuler = Eventuler::new();
    eventuler.insert(job("stale-src", &[], 10, 0)).unwrap();
    eventuler.insert(job("fresh-src", &[], 10, 100)).unwrap();
    eventuler
        .insert(job("child", &["stale-src", "fresh-src"], 10, 100))
        .unwrap();

    let graph = eventuler.graph_at(105);
    assert_eq!(graph.links.len(), 2);

    for link in &graph.links {
        assert_eq!(link.color, graph.nodes[link.source].color);
        assert_eq!(link.value, 1);
        assert_eq!(graph.nodes[link.target].name, "child");
    }
    assert_eq!(graph.links[0].color, "red");
    assert_eq!(graph.links[1].color, "green");
}

#[test]
fn wall_clock_export_matches_shape() {
    let mut eventuler = Eventuler::new();
    eventuler.insert(job("a", &[], 10, 0)).unwrap();
    eventuler.insert(job("b", &["a"], 10, 0)).unwrap();

    let graph = eventuler.graph();
    assert_eq!(graph.nodes.len(), 2);
    assert_eq!(graph.links.len(), 1);
    assert_eq!(graph.links[0].source, 0);
    assert_eq!(graph.links[0].target, 1);
    assert!(graph.nodes[0].color == "green" || graph.nodes[0].color == "red");
    assert_eq!(graph.links[0].color, graph.nodes[0].color);
}

#[test]
fn duplicate_dependency_names_make_one_edge() {
    let mut eventuler = Eventuler::new();
    eventuler.insert(job("a", &[], 10, 0)).unwrap();
    eventuler.insert(job("b", &["a", "a"], 10, 0)).unwrap();

    let graph = eventuler.graph_at(0);
    assert_eq!(graph.links.len(), 1);
}
