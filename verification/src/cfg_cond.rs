//! Edges of the control-flow graph and the branch descriptors they carry.

use crate::cfg_node_kind::NodeId;
use crate::text::dec_of;
use crate::text::u64_to_dec;
use vstd::prelude::*;

verus! {

/// A directed edge of the control-flow graph.
///
/// At most one edge object exists per ordered `(from, to)` pair; the
/// builder merges a second insertion for the same pair into the first.
#[derive(Debug)]
pub struct CfgEdge {
    /// Source node identifier.
    pub from: NodeId,
    /// Destination node identifier.
    pub to: NodeId,
    /// Optional branch descriptor disambiguating sibling branches of a
    /// decision node.
    pub cond: Option<CfgCond>,
    /// Optional raw condition text, kept for readability.
    pub label: Option<String>,
}

/// A branch descriptor: an ordinal disambiguating sibling branches that
/// share identical text, and the condition text or a synthetic token
/// (`"true"`, `"false"`, `"else"`, a case label).
#[derive(Debug)]
pub struct CfgCond {
    seq_no: u64,
    name: String,
}

/// Mathematical image of a branch descriptor.
pub ghost struct CondView {
    pub ordinal: u64,
    pub name: Seq<char>,
}

impl View for CfgCond {
    type V = CondView;

    closed spec fn view(&self) -> CondView {
        CondView { ordinal: self.seq_no, name: self.name@ }
    }
}

/// Mathematical image of an edge.
pub ghost struct EdgeView {
    pub from: int,
    pub to: int,
    pub cond: Option<CondView>,
    pub label: Option<Seq<char>>,
}

impl View for CfgEdge {
    type V = EdgeView;

    open spec fn view(&self) -> EdgeView {
        EdgeView {
            from: self.from.0 as int,
            to: self.to.0 as int,
            cond: match self.cond {
                Option::Some(c) => Option::Some(c@),
                Option::None => Option::None,
            },
            label: match self.label {
                Option::Some(l) => Option::Some(l@),
                Option::None => Option::None,
            },
        }
    }
}

/// The text of a branch descriptor: a space, the ordinal in decimal,
/// a space, and the descriptor's name.
pub open spec fn cond_text(c: CondView) -> Seq<char> {
    " "@ + dec_of(c.ordinal as nat) + " "@ + c.name
}

/// The externally visible condition of an edge: the raw label (empty if
/// absent) followed by the branch descriptor's text (empty if absent);
/// no condition at all when both are absent.
pub open spec fn edge_condition(e: EdgeView) -> Option<Seq<char>> {
    if e.label is None && e.cond is None {
        Option::None
    } else {
        let l = match e.label {
            Option::Some(l) => l,
            Option::None => Seq::empty(),
        };
        let c = match e.cond {
            Option::Some(c) => cond_text(c),
            Option::None => Seq::empty(),
        };
        Option::Some(l + c)
    }
}

impl CfgCond {
    pub fn new(seq_no: u64, name: String) -> (r: CfgCond)
        ensures
            r@ == (CondView { ordinal: seq_no, name: name@ }),
    {
        CfgCond { seq_no, name }
    }

    /// The ordinal of this descriptor among its decision's branches.
    pub fn seq(&self) -> (r: u64)
        ensures
            r == self@.ordinal,
    {
        self.seq_no
    }

    pub fn name(&self) -> (r: &String)
        ensures
            r@ == self@.name,
    {
        &self.name
    }

    /// Renders the descriptor as ` <ordinal> <name>`.
    pub fn to_string(&self) -> (r: String)
        ensures
            r@ == cond_text(self@),
    {
        let mut out = String::from_str(" ");
        out.append(u64_to_dec(self.seq_no).as_str());
        out.append(" ");
        out.append(self.name.as_str());
        proof {
            assert(out@ =~= cond_text(self@));
        }
        out
    }
}

impl CfgEdge {
    pub fn new(from: NodeId, to: NodeId, label: Option<String>, cond: Option<CfgCond>) -> (r:
        CfgEdge)
        ensures
            r@ == (EdgeView {
                from: from.0 as int,
                to: to.0 as int,
                cond: match cond {
                    Option::Some(c) => Option::Some(c@),
                    Option::None => Option::None,
                },
                label: match label {
                    Option::Some(l) => Option::Some(l@),
                    Option::None => Option::None,
                },
            }),
    {
        CfgEdge { from, to, label, cond }
    }

    /// The condition text shown for this edge, if any.
    pub fn condition(&self) -> (r: Option<String>)
        ensures
            match (r, edge_condition(self@)) {
                (Option::Some(s), Option::Some(t)) => s@ == t,
                (Option::None, Option::None) => true,
                _ => false,
            },
    {
        if self.label.is_none() && self.cond.is_none() {
            return Option::None;
        }
        let mut out = String::new();
        match &self.label {
            Option::Some(l) => out.append(l.as_str()),
            Option::None => {},
        }
        match &self.cond {
            Option::Some(c) => {
                let t = c.to_string();
                out.append(t.as_str());
            },
            Option::None => {},
        }
        proof {
            assert(out@ =~= edge_condition(self@).unwrap());
        }
        Option::Some(out)
    }
}

} // verus!
