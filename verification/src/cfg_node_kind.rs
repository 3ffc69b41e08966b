//! Node identifiers and node kinds of the control-flow graph.

use vstd::prelude::*;

verus! {

/// Dense, zero-based index of a node in the graph's arena.
/// Ids are assigned in creation order and never reused.
#[derive(Debug, Clone, Copy, PartialEq, Eq, Hash, Structural)]
pub struct NodeId(pub usize);

/// The kind of a control-flow graph node.
#[derive(Debug)]
pub enum CfgNodeKind {
    Start,
    Action(String),
    Decision(String),
    Merge,
    Stop,
    End,
}

/// Mathematical image of a node kind: the text of an `Action` or
/// `Decision` node is abstracted to its character sequence.
pub ghost enum NodeKindView {
    Start,
    Action(Seq<char>),
    Decision(Seq<char>),
    Merge,
    Stop,
    End,
}

impl View for CfgNodeKind {
    type V = NodeKindView;

    open spec fn view(&self) -> NodeKindView {
        match self {
            CfgNodeKind::Start => NodeKindView::Start,
            CfgNodeKind::Action(t) => NodeKindView::Action(t@),
            CfgNodeKind::Decision(t) => NodeKindView::Decision(t@),
            CfgNodeKind::Merge => NodeKindView::Merge,
            CfgNodeKind::Stop => NodeKindView::Stop,
            CfgNodeKind::End => NodeKindView::End,
        }
    }
}

} // verus!
