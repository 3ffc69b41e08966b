//! The frozen control-flow graph: a node arena plus a deduplicated,
//! insertion-ordered edge list.

use crate::cfg_cond::EdgeView;
use crate::cfg_cond::CfgEdge;
use crate::cfg_node_kind::CfgNodeKind;
use crate::cfg_node_kind::NodeKindView;
use vstd::prelude::*;

verus! {

/// A control-flow graph.
///
/// Nodes are owned exclusively by the graph and reference each other only
/// through the edge list, which is keyed by the ordered pair of node ids:
/// at most one edge exists per `(from, to)` pair, and edges keep their
/// insertion order, so that every walk over them is deterministic.
#[derive(Debug)]
pub struct CFGraph {
    pub nodes: Vec<CfgNodeKind>,
    pub edges: Vec<CfgEdge>,
}

/// Mathematical image of a control-flow graph.
pub ghost struct GraphView {
    pub nodes: Seq<NodeKindView>,
    pub edges: Seq<EdgeView>,
}

/// The mathematical image of a node arena.
pub open spec fn nodes_view(nodes: Seq<CfgNodeKind>) -> Seq<NodeKindView> {
    nodes.map_values(|n: CfgNodeKind| n@)
}

/// The mathematical image of an edge list.
pub open spec fn edges_view(edges: Seq<CfgEdge>) -> Seq<EdgeView> {
    edges.map_values(|e: CfgEdge| e@)
}

impl View for CFGraph {
    type V = GraphView;

    open spec fn view(&self) -> GraphView {
        GraphView { nodes: nodes_view(self.nodes@), edges: edges_view(self.edges@) }
    }
}

/// Whether an edge runs between the given ordered pair of nodes.
pub open spec fn same_pair(e: EdgeView, from: int, to: int) -> bool {
    e.from == from && e.to == to
}

/// Whether an edge stays within the first `n` node ids.
pub open spec fn edge_in_range(e: EdgeView, n: int) -> bool {
    0 <= e.from < n && 0 <= e.to < n
}

/// Every edge of the graph points at nodes that exist in the arena.
pub open spec fn edges_in_range(g: GraphView) -> bool {
    forall|i: int|
        0 <= i < g.edges.len() ==> #[trigger] edge_in_range(g.edges[i], g.nodes.len() as int)
}

/// No two edges of the list share the same ordered `(from, to)` pair.
pub open spec fn edge_list_unique(edges: Seq<EdgeView>) -> bool {
    forall|i: int, j: int|
        0 <= i < j < edges.len() ==> !(#[trigger] same_pair(edges[j], edges[i].from, edges[i].to))
}

/// No two edges of the graph share the same ordered `(from, to)` pair.
pub open spec fn edges_unique(g: GraphView) -> bool {
    edge_list_unique(g.edges)
}

} // verus!
