//! The single-use construction context that a lowering call owns while it
//! grows a control-flow graph.

use crate::cf_graph::CFGraph;
use crate::cf_graph::GraphView;
use crate::cf_graph::edge_list_unique;
use crate::cf_graph::same_pair;
use crate::cfg_cond::CfgEdge;
use crate::cfg_cond::EdgeView;
use crate::cfg_node_kind::CfgNodeKind;
use crate::cfg_node_kind::NodeId;
use crate::cfg_node_kind::NodeKindView;
use vstd::prelude::*;

verus! {

/// The in-progress graph together with the bookkeeping that lowering
/// needs: a label table (last write wins), the list of gotos awaiting
/// resolution, and the stack of loop-exit nodes that gives `break` its
/// target.
///
/// A builder serves exactly one lowering invocation and is discarded once
/// the frozen graph is taken out of it.
pub struct CfgBuilder {
    pub cfg: CFGraph,
    /// label name -> node the label points to; a later entry for the same
    /// name shadows an earlier one.
    pub labels: Vec<(String, NodeId)>,
    /// list of (from_node, label_name) for unresolved gotos
    pub pending_gotos: Vec<(NodeId, String)>,
    /// stack of loop-exit nodes, used for `break`
    pub loop_exit_stack: Vec<NodeId>,
}

/// Mathematical image of a builder.
pub ghost struct BuilderView {
    pub graph: GraphView,
    pub labels: Seq<(Seq<char>, int)>,
    pub pending: Seq<(int, Seq<char>)>,
    pub loops: Seq<int>,
}

/// The mathematical image of a label table.
pub open spec fn labels_view(labels: Seq<(String, NodeId)>) -> Seq<(Seq<char>, int)> {
    labels.map_values(|p: (String, NodeId)| (p.0@, p.1.0 as int))
}

/// The mathematical image of a pending-goto list.
pub open spec fn pending_view(pending: Seq<(NodeId, String)>) -> Seq<(int, Seq<char>)> {
    pending.map_values(|p: (NodeId, String)| (p.0.0 as int, p.1@))
}

/// The mathematical image of a loop-exit stack.
pub open spec fn loops_view(loops: Seq<NodeId>) -> Seq<int> {
    loops.map_values(|n: NodeId| n.0 as int)
}

impl View for CfgBuilder {
    type V = BuilderView;

    open spec fn view(&self) -> BuilderView {
        BuilderView {
            graph: self.cfg@,
            labels: labels_view(self.labels@),
            pending: pending_view(self.pending_gotos@),
            loops: loops_view(self.loop_exit_stack@),
        }
    }
}

/// The builder state right after construction: a single `Start` node and
/// nothing else.
pub open spec fn initial_builder() -> BuilderView {
    BuilderView {
        graph: GraphView { nodes: seq![NodeKindView::Start], edges: Seq::empty() },
        labels: Seq::empty(),
        pending: Seq::empty(),
        loops: Seq::empty(),
    }
}

/// The position of the first edge with the given endpoints, if any.
pub open spec fn find_edge_index(edges: Seq<EdgeView>, from: int, to: int) -> Option<int>
    decreases edges.len(),
{
    if edges.len() == 0 {
        Option::None
    } else if edges[0].from == from && edges[0].to == to {
        Option::Some(0)
    } else {
        match find_edge_index(edges.drop_first(), from, to) {
            Option::Some(i) => Option::Some(i + 1),
            Option::None => Option::None,
        }
    }
}

/// The position of the first edge leaving `from` at position `lo` or
/// later. When a body has just been lowered with `from` as its entry,
/// and `lo` is the edge count before that lowering, this finds the
/// edge from `from` into the body's entry node.
pub open spec fn find_edge_from(edges: Seq<EdgeView>, from: int, lo: int) -> Option<int>
    decreases edges.len() - lo,
{
    if lo < 0 || lo >= edges.len() {
        Option::None
    } else if edges[lo].from == from {
        Option::Some(lo)
    } else {
        find_edge_from(edges, from, lo + 1)
    }
}

/// A found position is valid and holds an edge leaving `from`.
pub proof fn lemma_find_edge_from_some(edges: Seq<EdgeView>, from: int, lo: int)
    ensures
        find_edge_from(edges, from, lo) matches Option::Some(i) ==> lo <= i < edges.len()
            && edges[i].from == from,
    decreases edges.len() - lo,
{
    if 0 <= lo < edges.len() && edges[lo].from != from {
        lemma_find_edge_from_some(edges, from, lo + 1);
    }
}

/// The first position whose edge leaves `from` is the one found.
pub proof fn lemma_find_edge_from_at(edges: Seq<EdgeView>, from: int, lo: int, i: int)
    requires
        0 <= lo <= i < edges.len(),
        edges[i].from == from,
        forall|j: int| lo <= j < i ==> (#[trigger] edges[j]).from != from,
    ensures
        find_edge_from(edges, from, lo) == Option::Some(i),
    decreases i - lo,
{
    if i > lo {
        lemma_find_edge_from_at(edges, from, lo + 1, i);
    }
}

/// When no edge at position `lo` or later leaves `from`, nothing is
/// found.
pub proof fn lemma_find_edge_from_none(edges: Seq<EdgeView>, from: int, lo: int)
    requires
        0 <= lo,
        forall|j: int| lo <= j < edges.len() ==> (#[trigger] edges[j]).from != from,
    ensures
        find_edge_from(edges, from, lo) is None,
    decreases edges.len() - lo,
{
    if lo < edges.len() {
        lemma_find_edge_from_none(edges, from, lo + 1);
    }
}

/// Merging a second insertion for an existing `(from, to)` pair fills in
/// the condition and the label only where the existing edge has them
/// unset.
pub open spec fn merge_edge(e: EdgeView, new: EdgeView) -> EdgeView {
    EdgeView {
        from: e.from,
        to: e.to,
        cond: if e.cond is Some {
            e.cond
        } else {
            new.cond
        },
        label: if e.label is Some {
            e.label
        } else {
            new.label
        },
    }
}

/// Inserting an edge: merged into the first edge with the same ordered
/// pair of endpoints if one exists, appended otherwise.
pub open spec fn add_edge(edges: Seq<EdgeView>, e: EdgeView) -> Seq<EdgeView> {
    match find_edge_index(edges, e.from, e.to) {
        Option::Some(i) => edges.update(i, merge_edge(edges[i], e)),
        Option::None => edges.push(e),
    }
}

/// A found index is a valid position holding the sought pair.
pub proof fn lemma_find_edge_index_some(edges: Seq<EdgeView>, from: int, to: int)
    ensures
        find_edge_index(edges, from, to) matches Option::Some(i) ==> 0 <= i < edges.len()
            && same_pair(edges[i], from, to),
    decreases edges.len(),
{
    if edges.len() > 0 {
        lemma_find_edge_index_some(edges.drop_first(), from, to);
    }
}

/// When no index is found, no edge of the list holds the sought pair.
pub proof fn lemma_find_edge_index_none_means_absent(edges: Seq<EdgeView>, from: int, to: int)
    ensures
        find_edge_index(edges, from, to) is None ==> forall|j: int|
            0 <= j < edges.len() ==> !(#[trigger] same_pair(edges[j], from, to)),
    decreases edges.len(),
{
    if edges.len() > 0 {
        lemma_find_edge_index_none_means_absent(edges.drop_first(), from, to);
        if find_edge_index(edges, from, to) is None {
            assert forall|j: int|
                0 <= j < edges.len() implies !(#[trigger] same_pair(edges[j], from, to)) by {
                if j > 0 {
                    assert(edges.drop_first()[j - 1] == edges[j]);
                }
            }
        }
    }
}

/// The insertion invariant of the edge map: if no two edges of the list
/// share an ordered `(from, to)` pair, inserting one more edge keeps it
/// so, because a second insertion for an existing pair merges into the
/// first instead of duplicating it.
pub proof fn lemma_add_edge_unique(edges: Seq<EdgeView>, e: EdgeView)
    requires
        edge_list_unique(edges),
    ensures
        edge_list_unique(add_edge(edges, e)),
{
    match find_edge_index(edges, e.from, e.to) {
        Option::Some(k) => {
            lemma_find_edge_index_some(edges, e.from, e.to);
            let merged = add_edge(edges, e);
            assert forall|i: int, j: int|
                0 <= i < j < merged.len() implies !(#[trigger] same_pair(
                merged[j],
                merged[i].from,
                merged[i].to,
            )) by {
                assert(merged[i].from == edges[i].from && merged[i].to == edges[i].to);
                assert(merged[j].from == edges[j].from && merged[j].to == edges[j].to);
                assert(!same_pair(edges[j], edges[i].from, edges[i].to));
            }
        },
        Option::None => {
            lemma_find_edge_index_none_means_absent(edges, e.from, e.to);
            let pushed = add_edge(edges, e);
            assert forall|i: int, j: int|
                0 <= i < j < pushed.len() implies !(#[trigger] same_pair(
                pushed[j],
                pushed[i].from,
                pushed[i].to,
            )) by {
                if j < edges.len() {
                    assert(!same_pair(edges[j], edges[i].from, edges[i].to));
                } else {
                    assert(pushed[j] == e);
                    assert(pushed[i] == edges[i]);
                    assert(!same_pair(edges[i], e.from, e.to));
                }
            }
        },
    }
}

proof fn lemma_find_edge_index_at(edges: Seq<EdgeView>, from: int, to: int, i: int)
    requires
        0 <= i < edges.len(),
        same_pair(edges[i], from, to),
        forall|j: int| 0 <= j < i ==> !(#[trigger] same_pair(edges[j], from, to)),
    ensures
        find_edge_index(edges, from, to) == Option::Some(i),
    decreases edges.len(),
{
    if i > 0 {
        assert(!same_pair(edges[0], from, to));
        let rest = edges.drop_first();
        assert forall|j: int| 0 <= j < i - 1 implies !(#[trigger] same_pair(
            rest[j],
            from,
            to,
        )) by {
            assert(rest[j] == edges[j + 1]);
            assert(!same_pair(edges[j + 1], from, to));
        }
        assert(rest[i - 1] == edges[i]);
        lemma_find_edge_index_at(rest, from, to, i - 1);
    }
}

proof fn lemma_find_edge_index_none(edges: Seq<EdgeView>, from: int, to: int)
    requires
        forall|j: int| 0 <= j < edges.len() ==> !(#[trigger] same_pair(edges[j], from, to)),
    ensures
        find_edge_index(edges, from, to) is None,
    decreases edges.len(),
{
    if edges.len() > 0 {
        assert(!same_pair(edges[0], from, to));
        let rest = edges.drop_first();
        assert forall|j: int| 0 <= j < rest.len() implies !(#[trigger] same_pair(
            rest[j],
            from,
            to,
        )) by {
            assert(rest[j] == edges[j + 1]);
            assert(!same_pair(edges[j + 1], from, to));
        }
        lemma_find_edge_index_none(rest, from, to);
    }
}

impl CfgBuilder {
    /// A fresh builder whose graph holds one `Start` node, returned
    /// together with that node's id.
    pub fn new() -> (r: (CfgBuilder, NodeId))
        ensures
            r.0@ == initial_builder(),
            r.1 == (NodeId(0)),
    {
        let mut cfg = CFGraph { nodes: Vec::new(), edges: Vec::new() };
        let start = NodeId(cfg.nodes.len());
        cfg.nodes.push(CfgNodeKind::Start);
        let b = CfgBuilder {
            cfg,
            labels: Vec::new(),
            pending_gotos: Vec::new(),
            loop_exit_stack: Vec::new(),
        };
        proof {
            assert(b@.graph.nodes =~= seq![NodeKindView::Start]);
            assert(b@.graph.edges =~= Seq::<EdgeView>::empty());
            assert(b@.labels =~= Seq::<(Seq<char>, int)>::empty());
            assert(b@.pending =~= Seq::<(int, Seq<char>)>::empty());
            assert(b@.loops =~= Seq::<int>::empty());
        }
        (b, start)
    }

    /// Appends a node of the given kind to the arena and hands back its
    /// freshly assigned id.
    pub fn new_node(&mut self, kind: CfgNodeKind) -> (r: NodeId)
        ensures
            r.0 == old(self)@.graph.nodes.len(),
            final(self)@.graph.nodes == old(self)@.graph.nodes.push(kind@),
            final(self)@.graph.edges == old(self)@.graph.edges,
            final(self)@.labels == old(self)@.labels,
            final(self)@.pending == old(self)@.pending,
            final(self)@.loops == old(self)@.loops,
    {
        let id = NodeId(self.cfg.nodes.len());
        self.cfg.nodes.push(kind);
        proof {
            assert(self@.graph.nodes =~= old(self)@.graph.nodes.push(
                self.cfg.nodes@[self.cfg.nodes@.len() - 1]@,
            ));
        }
        id
    }

    /// Inserts an edge into the edge list. A pair already present is not
    /// duplicated: the new edge merges into the existing one.
    pub fn edge(&mut self, edge: CfgEdge)
        ensures
            final(self)@.graph.edges == add_edge(old(self)@.graph.edges, edge@),
            final(self)@.graph.nodes == old(self)@.graph.nodes,
            final(self)@.labels == old(self)@.labels,
            final(self)@.pending == old(self)@.pending,
            final(self)@.loops == old(self)@.loops,
    {
        let ghost e0 = edge@;
        let n = self.cfg.edges.len();
        let mut i: usize = 0;
        while i < n && !(self.cfg.edges[i].from == edge.from && self.cfg.edges[i].to == edge.to)
            invariant
                n == self.cfg.edges.len(),
                i <= n,
                self == old(self),
                e0 == edge@,
                forall|j: int|
                    0 <= j < i ==> !(#[trigger] same_pair(self@.graph.edges[j], e0.from, e0.to)),
            decreases n - i,
        {
            i += 1;
        }
        if i < n {
            proof {
                assert(same_pair(self@.graph.edges[i as int], e0.from, e0.to));
                lemma_find_edge_index_at(self@.graph.edges, e0.from, e0.to, i as int);
            }
            let ghost old_edges = self@.graph.edges;
            let e = &mut self.cfg.edges[i];
            if e.cond.is_none() && edge.cond.is_some() {
                e.cond = edge.cond;
            }
            if e.label.is_none() && edge.label.is_some() {
                e.label = edge.label;
            }
            proof {
                assert(add_edge(old_edges, e0) == old_edges.update(
                    i as int,
                    merge_edge(old_edges[i as int], e0),
                ));
                assert(self@.graph.edges[i as int] == merge_edge(old_edges[i as int], e0));
                assert forall|j: int|
                    0 <= j < self@.graph.edges.len() implies self@.graph.edges[j] == add_edge(
                    old_edges,
                    e0,
                )[j] by {
                    if j != i as int {
                        assert(self.cfg.edges@[j] == old(self).cfg.edges@[j]);
                    }
                }
                assert(self@.graph.edges =~= add_edge(old_edges, e0));
            }
            return ;
        }
        proof {
            lemma_find_edge_index_none(self@.graph.edges, e0.from, e0.to);
        }
        self.cfg.edges.push(edge);
        proof {
            assert(self@.graph.edges =~= add_edge(old(self)@.graph.edges, e0));
        }
    }
}

} // verus!
