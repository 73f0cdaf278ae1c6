//! Read-only projection of the dependency graph for visualization: every
//! node and edge is labeled with a freshness color against a given instant.

use vstd::prelude::*;
use crate::engine::Eventuler;
use crate::engine::NodeView;
use crate::engine::fresh_at;
use crate::engine::edges_ok;

verus! {

/// A node of the exported graph: the job's name, colored `"green"` when the
/// job is fresh at the instant of the export and `"red"` otherwise.
#[derive(Debug)]
pub struct Node {
    pub name: String,
    pub color: String,
}

/// An edge of the exported graph, from the handle of a dependency to the
/// handle of the job depending on it, colored after its source node.
#[derive(Debug)]
pub struct Link {
    pub source: usize,
    pub target: usize,
    pub value: i32,
    pub color: String,
}

/// The exported graph.
#[derive(Debug)]
pub struct Graph {
    pub nodes: Vec<Node>,
    pub links: Vec<Link>,
}

/// Mathematical image of a [`Node`].
pub ghost struct NodeLabelView {
    pub name: Seq<char>,
    pub color: Seq<char>,
}

impl View for Node {
    type V = NodeLabelView;

    open spec fn view(&self) -> NodeLabelView {
        NodeLabelView { name: self.name@, color: self.color@ }
    }
}

/// Mathematical image of a [`Link`].
pub ghost struct LinkView {
    pub source: int,
    pub target: int,
    pub value: int,
    pub color: Seq<char>,
}

impl View for Link {
    type V = LinkView;

    open spec fn view(&self) -> LinkView {
        LinkView {
            source: self.source as int,
            target: self.target as int,
            value: self.value as int,
            color: self.color@,
        }
    }
}

/// Mathematical image of a [`Graph`].
pub ghost struct GraphView {
    pub nodes: Seq<NodeLabelView>,
    pub links: Seq<LinkView>,
}

impl View for Graph {
    type V = GraphView;

    open spec fn view(&self) -> GraphView {
        GraphView {
            nodes: self.nodes@.map_values(|n: Node| n@),
            links: self.links@.map_values(|l: Link| l@),
        }
    }
}

/// The freshness color of a job with this refresh timestamp and interval,
/// at this instant.
pub open spec fn color_at(current: int, frequency: int, now: int) -> Seq<char> {
    if fresh_at(current, frequency, now) {
        "green"@
    } else {
        "red"@
    }
}

/// The exported label of one node at this instant.
pub open spec fn node_label(nd: NodeView, now: int) -> NodeLabelView {
    NodeLabelView { name: nd.name, color: color_at(nd.current, nd.frequency, now) }
}

/// The exported links whose target is node `j`: one per parent, in the
/// parents' stored order, each colored after its source node.
pub open spec fn node_links(g: Seq<NodeView>, now: int, j: int) -> Seq<LinkView> {
    Seq::new(
        g[j].parents.len(),
        |k: int|
            LinkView {
                source: g[j].parents[k],
                target: j,
                value: 1,
                color: color_at(
                    g[g[j].parents[k]].current,
                    g[g[j].parents[k]].frequency,
                    now,
                ),
            },
    )
}

/// The exported links of the first `j` nodes, in node order.
pub open spec fn links_upto(g: Seq<NodeView>, now: int, j: int) -> Seq<LinkView>
    decreases j,
{
    if j <= 0 {
        Seq::empty()
    } else {
        links_upto(g, now, j - 1) + node_links(g, now, j - 1)
    }
}

/// The whole export of a graph at one instant.
pub open spec fn spec_graph(g: Seq<NodeView>, now: int) -> GraphView {
    GraphView {
        nodes: Seq::new(g.len(), |i: int| node_label(g[i], now)),
        links: links_upto(g, now, g.len() as int),
    }
}

/// Every exported link points at stored nodes and carries exactly the color
/// of its source node's label: an edge's status mirrors its source.
pub proof fn lemma_links_upto_mirror(g: Seq<NodeView>, now: int, j: int, l: int)
    requires
        edges_ok(g),
        0 <= j <= g.len(),
        0 <= l < links_upto(g, now, j).len(),
    ensures
        ({
            let lk = links_upto(g, now, j)[l];
            &&& 0 <= lk.source < g.len()
            &&& 0 <= lk.target < g.len()
            &&& lk.color == node_label(g[lk.source], now).color
        }),
    decreases j,
{
    let pre = links_upto(g, now, j - 1);
    if l < pre.len() {
        lemma_links_upto_mirror(g, now, j - 1, l);
        assert(links_upto(g, now, j)[l] == pre[l]);
    } else {
        let nl = node_links(g, now, j - 1);
        assert(links_upto(g, now, j)[l] == nl[l - pre.len()]);
    }
}

/// An exported edge's status mirrors its source node's status.
pub proof fn lemma_link_mirrors_source(g: Seq<NodeView>, now: int, l: int)
    requires
        edges_ok(g),
        0 <= l < spec_graph(g, now).links.len(),
    ensures
        ({
            let gv = spec_graph(g, now);
            let lk = gv.links[l];
            &&& 0 <= lk.source < gv.nodes.len()
            &&& lk.color == gv.nodes[lk.source].color
        }),
{
    lemma_links_upto_mirror(g, now, g.len() as int, l);
}

/// Relies on `chrono::Utc::now` for the wall-clock reading, taken as whole
/// seconds since the epoch; nothing is assumed of the returned instant.
#[verifier::external_body]
fn now_seconds() -> i64 {
    chrono::Utc::now().timestamp()
}

impl Eventuler {
    /// Exports the graph as it stands at the instant `now`: every job named
    /// and colored `"green"` exactly when it is fresh at `now`, and every
    /// edge colored after its source node.
    pub fn graph_at(&self, now: i64) -> (gr: Graph)
        requires
            self.wf(),
        ensures
            gr@ == spec_graph(self@, now as int),
    {
        let n = self.nodes.len();
        let mut nodes: Vec<Node> = Vec::new();
        let mut i: usize = 0;
        while i < n
            invariant
                self.wf(),
                n == self@.len(),
                i <= n,
                nodes@.len() == i,
                forall|t: int|
                    0 <= t < i ==> #[trigger] nodes@[t]@ == node_label(self@[t], now as int),
            decreases n - i,
        {
            let is_fresh = ((now as i128) - (self.nodes[i].current as i128)) < (
            self.nodes[i].frequency as i128);
            let color: String = if is_fresh {
                String::from_str("green")
            } else {
                String::from_str("red")
            };
            nodes.push(Node { name: self.nodes[i].name.clone(), color });
            i += 1;
        }
        let mut links: Vec<Link> = Vec::new();
        let mut j: usize = 0;
        while j < n
            invariant
                self.wf(),
                n == self@.len(),
                j <= n,
                links@.map_values(|l: Link| l@) == links_upto(self@, now as int, j as int),
            decreases n - j,
        {
            let np = self.nodes[j].parents.len();
            let mut k: usize = 0;
            while k < np
                invariant
                    self.wf(),
                    n == self@.len(),
                    j < n,
                    np == self@[j as int].parents.len(),
                    k <= np,
                    links@.map_values(|l: Link| l@) == links_upto(self@, now as int, j as int)
                        + node_links(self@, now as int, j as int).take(k as int),
                decreases np - k,
            {
                let ghost prev = links@.map_values(|l: Link| l@);
                let p = self.nodes[j].parents[k];
                proof {
                    assert(self@[j as int].parents[k as int] == p as int);
                    assert(0 <= (p as int) && (p as int) < (j as int));
                }
                let is_fresh = ((now as i128) - (self.nodes[p].current as i128)) < (
                self.nodes[p].frequency as i128);
                let color: String = if is_fresh {
                    String::from_str("green")
                } else {
                    String::from_str("red")
                };
                links.push(Link { source: p, target: j, value: 1, color });
                proof {
                    assert(node_links(self@, now as int, j as int)[k as int] == links@.last()@);
                    assert(node_links(self@, now as int, j as int).take(k as int + 1)
                        =~= node_links(self@, now as int, j as int).take(k as int).push(
                        links@.last()@,
                    ));
                    assert(links@.map_values(|l: Link| l@) =~= prev.push(links@.last()@));
                    assert(links@.map_values(|l: Link| l@) =~= links_upto(
                        self@,
                        now as int,
                        j as int,
                    ) + node_links(self@, now as int, j as int).take(k as int + 1));
                }
                k += 1;
            }
            proof {
                assert(node_links(self@, now as int, j as int).take(np as int) =~= node_links(
                    self@,
                    now as int,
                    j as int,
                ));
                assert(links@.map_values(|l: Link| l@) =~= links_upto(
                    self@,
                    now as int,
                    j as int + 1,
                ));
            }
            j += 1;
        }
        let gr = Graph { nodes, links };
        proof {
            assert(gr@.nodes =~= spec_graph(self@, now as int).nodes);
            assert(gr@ == spec_graph(self@, now as int));
        }
        gr
    }

    /// Exports the graph against the wall clock: the same projection as
    /// [`Eventuler::graph_at`], taken at the instant of the call.
    pub fn graph(&self) -> (gr: Graph)
        requires
            self.wf(),
        ensures
            exists|now: int| gr@ == spec_graph(self@, now),
    {
        let now = now_seconds();
        let gr = self.graph_at(now);
        proof {
            assert(gr@ == spec_graph(self@, now as int));
        }
        gr
    }
}

} // verus!
