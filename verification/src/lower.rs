//! Structural lowering of a statement sequence into a control-flow graph.
//!
//! Lowering is a two-phase protocol. Phase one walks the statement tree
//! exactly once, creating nodes and structural edges and queueing every
//! goto. Phase two resolves the queued gotos against the label table, so
//! that a goto may reference a label that is only defined later.
//!
//! Every executable function here is specified against the functional
//! model `lower_stmt_spec` / `lower_block_spec` / `build_cfg_spec`, which
//! states, step by step, which nodes and edges a statement contributes.

use crate::ast_kind::ASTKind;
use crate::ast_kind::CondBody;
use crate::ast_kind::IfElseBlock;
use crate::cf_graph::CFGraph;
use crate::cf_graph::GraphView;
use crate::cf_graph::edge_in_range;
use crate::cf_graph::edge_list_unique;
use crate::cf_graph::edges_in_range;
use crate::cf_graph::edges_view;
use crate::cf_graph::edges_unique;
use crate::cfg_builder::BuilderView;
use crate::cfg_builder::labels_view;
use crate::cfg_builder::lemma_add_edge_unique;
use crate::cfg_builder::lemma_find_edge_from_at;
use crate::cfg_builder::lemma_find_edge_from_none;
use crate::cfg_builder::lemma_find_edge_from_some;
use crate::cfg_builder::lemma_find_edge_index_some;
use crate::cfg_builder::CfgBuilder;
use crate::cfg_builder::add_edge;
use crate::cfg_builder::find_edge_from;
use crate::cfg_builder::find_edge_index;
use crate::cfg_builder::initial_builder;
use crate::cfg_builder::merge_edge;
use crate::cfg_cond::CfgCond;
use crate::cfg_cond::CfgEdge;
use crate::cfg_cond::CondView;
use crate::cfg_cond::EdgeView;
use crate::cfg_node_kind::CfgNodeKind;
use crate::cfg_node_kind::NodeId;
use crate::cfg_node_kind::NodeKindView;
use vstd::prelude::*;

verus! {

/// Why a build failed.
#[derive(Debug)]
pub enum BuildError {
    /// A goto references a label that is never defined anywhere in the
    /// statement tree. Carries the label's name.
    UndefinedLabel(String),
    /// A break statement appears with no enclosing loop.
    BreakOutsideLoop,
}

/// Mathematical image of a build error.
pub ghost enum BuildErrorView {
    UndefinedLabel(Seq<char>),
    BreakOutsideLoop,
}

impl View for BuildError {
    type V = BuildErrorView;

    open spec fn view(&self) -> BuildErrorView {
        match self {
            BuildError::UndefinedLabel(name) => BuildErrorView::UndefinedLabel(name@),
            BuildError::BreakOutsideLoop => BuildErrorView::BreakOutsideLoop,
        }
    }
}

/// The outcome of lowering one statement or one block: the builder state
/// and the new exit node on success, or the builder state at the point a
/// break was found outside every loop.
pub type LowerOutcome = Result<(BuilderView, int), BuilderView>;

/// An edge with no label and no branch descriptor.
pub open spec fn uncond_edge(from: int, to: int) -> EdgeView {
    EdgeView { from, to, cond: Option::None, label: Option::None }
}

/// The builder after one more node of the given kind.
pub open spec fn with_node(b: BuilderView, k: NodeKindView) -> BuilderView {
    BuilderView {
        graph: GraphView { nodes: b.graph.nodes.push(k), edges: b.graph.edges },
        labels: b.labels,
        pending: b.pending,
        loops: b.loops,
    }
}

/// The builder after one more edge insertion.
pub open spec fn with_edge(b: BuilderView, e: EdgeView) -> BuilderView {
    BuilderView {
        graph: GraphView { nodes: b.graph.nodes, edges: add_edge(b.graph.edges, e) },
        labels: b.labels,
        pending: b.pending,
        loops: b.loops,
    }
}

/// The builder after recording a label, shadowing any earlier entry for
/// the same name.
pub open spec fn with_label(b: BuilderView, name: Seq<char>, target: int) -> BuilderView {
    BuilderView {
        graph: b.graph,
        labels: b.labels.push((name, target)),
        pending: b.pending,
        loops: b.loops,
    }
}

/// The builder after queueing a goto for the resolution phase.
pub open spec fn with_pending(b: BuilderView, from: int, label: Seq<char>) -> BuilderView {
    BuilderView {
        graph: b.graph,
        labels: b.labels,
        pending: b.pending.push((from, label)),
        loops: b.loops,
    }
}

/// The builder with the loop-exit stack replaced.
pub open spec fn with_loops(b: BuilderView, loops: Seq<int>) -> BuilderView {
    BuilderView { graph: b.graph, labels: b.labels, pending: b.pending, loops }
}

/// A sequential statement: one `Action` node, linked unconditionally
/// from the entry; the node is the new exit.
pub open spec fn action_step(b: BuilderView, entry: int, text: Seq<char>) -> (BuilderView, int) {
    let n = b.graph.nodes.len() as int;
    (with_edge(with_node(b, NodeKindView::Action(text)), uncond_edge(entry, n)), n)
}

/// A goto: an `Action` node denoting the jump, linked from the entry and
/// queued for resolution against its label in phase two.
pub open spec fn goto_step(b: BuilderView, entry: int, label: Seq<char>) -> (BuilderView, int) {
    let n = b.graph.nodes.len() as int;
    let b1 = with_edge(with_node(b, NodeKindView::Action("goto "@ + label)), uncond_edge(entry, n));
    (with_pending(b1, n, label), n)
}

/// A break: an `Action` node linked from the entry and on to the
/// innermost loop's exit node, the top of the loop-exit stack.
pub open spec fn break_step(b: BuilderView, entry: int) -> (BuilderView, int) {
    let n = b.graph.nodes.len() as int;
    let target = b.loops.last();
    let b1 = with_edge(with_node(b, NodeKindView::Action("break"@)), uncond_edge(entry, n));
    (with_edge(b1, uncond_edge(n, target)), n)
}

/// A stop: an `End` node, always terminal in the eventual machine.
pub open spec fn stop_step(b: BuilderView, entry: int) -> (BuilderView, int) {
    let n = b.graph.nodes.len() as int;
    (with_edge(with_node(b, NodeKindView::End), uncond_edge(entry, n)), n)
}

/// Lowering one statement with the given entry node. `Err` carries the
/// builder state at the point a `Break` was found with an empty
/// loop-exit stack.
pub open spec fn lower_stmt_spec(b: BuilderView, stmt: ASTKind, entry: int) -> LowerOutcome
    decreases stmt,
{
    match stmt {
        ASTKind::SimpleStmt(text) => Result::Ok(action_step(b, entry, text@)),
        ASTKind::ActivityRef(name) => Result::Ok(action_step(b, entry, "call "@ + name@)),
        ASTKind::While(cond) => lower_while_spec(b, cond, entry),
        ASTKind::Case(cases) => lower_case_spec(b, cases@, entry),
        ASTKind::IfElse(block) => lower_ifelse_spec(b, block, entry),
        ASTKind::Label(name) => Result::Ok((with_label(b, name@, entry), entry)),
        ASTKind::Goto(label) => Result::Ok(goto_step(b, entry, label@)),
        ASTKind::Break => if b.loops.len() == 0 {
            Result::Err(b)
        } else {
            Result::Ok(break_step(b, entry))
        },
        ASTKind::Stop => Result::Ok(stop_step(b, entry)),
    }
}

/// Lowering a statement sequence: each statement starts at the previous
/// one's exit.
pub open spec fn lower_block_spec(b: BuilderView, stmts: Seq<ASTKind>, entry: int) -> LowerOutcome
    decreases stmts, 0int,
{
    if stmts.len() == 0 {
        Result::Ok((b, entry))
    } else {
        match lower_stmt_spec(b, stmts[0], entry) {
            Result::Ok((b1, n)) => lower_block_spec(b1, stmts.drop_first(), n),
            Result::Err(st) => Result::Err(st),
        }
    }
}

/// The entry node of a body just lowered with `decision` as its entry:
/// the target of the first edge out of the decision among the edges the
/// lowering added (those at position `lo` or later). A body that adds
/// no such edge (it is empty, or holds only labels) never left the
/// decision, and its exit stands in for its entry.
pub open spec fn body_entry_node(edges: Seq<EdgeView>, decision: int, lo: int, exit: int) -> int {
    match find_edge_from(edges, decision, lo) {
        Option::Some(i) => edges[i].to,
        Option::None => exit,
    }
}

/// Lowering the guarded arms of an if or a case statement, in source
/// order. Each arm's body is lowered with the decision node as its
/// entry; the edge from the decision into the arm's entry carries the
/// arm's condition and ordinal, and the arm's exit links
/// unconditionally to the merge node. `labelled` tells whether the
/// descriptor edge also carries the raw condition text as its label
/// (if arms do, case arms do not).
pub open spec fn lower_arms_spec(
    b: BuilderView,
    arms: Seq<CondBody>,
    ord: int,
    decision: int,
    merge: int,
    labelled: bool,
) -> Result<BuilderView, BuilderView>
    decreases arms, 0int,
{
    if arms.len() == 0 {
        Result::Ok(b)
    } else {
        let lo = b.graph.edges.len() as int;
        match lower_block_spec(b, arms[0].body@, decision) {
            Result::Err(st) => Result::Err(st),
            Result::Ok((b1, arm_exit)) => {
                let arm_entry = body_entry_node(b1.graph.edges, decision, lo, arm_exit);
                let b2 = with_edge(
                    b1,
                    EdgeView {
                        from: decision,
                        to: arm_entry,
                        cond: Option::Some(
                            CondView { ordinal: ord as u64, name: arms[0].cond@ },
                        ),
                        label: if labelled {
                            Option::Some(arms[0].cond@)
                        } else {
                            Option::None
                        },
                    },
                );
                let b3 = with_edge(b2, uncond_edge(arm_exit, merge));
                lower_arms_spec(b3, arms.drop_first(), ord + 1, decision, merge, labelled)
            },
        }
    }
}

/// An if/elseif/else statement: a visible merge node (`"if_end"`), an
/// erased decision node, the guarded arms at ordinals 0, 1, ..., and, if
/// an else body is present, the else arm at ordinal `arm count + 1`.
/// The merge node is the statement's exit.
pub open spec fn lower_ifelse_spec(b: BuilderView, block: IfElseBlock, entry: int) -> LowerOutcome
    decreases block, 0int,
{
    let merge = b.graph.nodes.len() as int;
    let b1 = with_node(b, NodeKindView::Action("if_end"@));
    let decision = b1.graph.nodes.len() as int;
    let b2 = with_node(b1, NodeKindView::Decision("if"@));
    let b3 = with_edge(b2, uncond_edge(entry, decision));
    match lower_arms_spec(b3, block.if_elif@, 0, decision, merge, true) {
        Result::Err(st) => Result::Err(st),
        Result::Ok(b4) => if block.else_@.len() > 0 {
            let lo = b4.graph.edges.len() as int;
            match lower_block_spec(b4, block.else_@, decision) {
                Result::Err(st) => Result::Err(st),
                Result::Ok((b5, else_exit)) => {
                    let else_entry = body_entry_node(b5.graph.edges, decision, lo, else_exit);
                    let b6 = with_edge(
                        b5,
                        EdgeView {
                            from: decision,
                            to: else_entry,
                            cond: Option::Some(
                                CondView {
                                    ordinal: (block.if_elif@.len() + 1) as u64,
                                    name: "else"@,
                                },
                            ),
                            label: Option::None,
                        },
                    );
                    let b7 = with_edge(b6, uncond_edge(else_exit, merge));
                    Result::Ok((b7, merge))
                },
            }
        } else {
            Result::Ok((b4, merge))
        },
    }
}

/// The id of the exit node a while statement creates: the node right
/// after its decision node.
pub open spec fn while_exit_node(b: BuilderView) -> int {
    b.graph.nodes.len() as int + 1
}

/// The builder state in which a while statement lowers its body: the
/// decision and exit nodes exist, the entry links to the decision, and
/// the loop-exit stack carries this loop's own exit node on top.
pub open spec fn while_entry_state(b: BuilderView, cond: CondBody, entry: int) -> BuilderView {
    let decision = b.graph.nodes.len() as int;
    let b1 = with_node(b, NodeKindView::Decision(cond.cond@));
    let b2 = with_node(b1, NodeKindView::Action("while_end"@));
    let b3 = with_edge(b2, uncond_edge(entry, decision));
    with_loops(b3, b3.loops.push(while_exit_node(b)))
}

/// A while loop: an erased decision node named with the loop condition
/// and a visible exit node (`"while_end"`). The loop-exit stack holds
/// the exit node while the body is lowered, so that a break inside the
/// body targets this loop and not an outer one. The decision links to
/// the body's entry under `{0, "true"}` and to the exit node under
/// `{1, "false"}`; the body's exit links back to the decision.
pub open spec fn lower_while_spec(b: BuilderView, cond: CondBody, entry: int) -> LowerOutcome
    decreases cond, 0int,
{
    let decision = b.graph.nodes.len() as int;
    let merge = while_exit_node(b);
    let b4 = while_entry_state(b, cond, entry);
    let lo = b4.graph.edges.len() as int;
    match lower_block_spec(b4, cond.body@, decision) {
        Result::Err(st) => Result::Err(st),
        Result::Ok((b5, body_exit)) => {
            let body_entry = body_entry_node(b5.graph.edges, decision, lo, body_exit);
            let b6 = with_edge(
                b5,
                EdgeView {
                    from: decision,
                    to: body_entry,
                    cond: Option::Some(CondView { ordinal: 0u64, name: "true"@ }),
                    label: Option::None,
                },
            );
            let b7 = with_edge(b6, uncond_edge(body_exit, decision));
            let b8 = with_edge(
                b7,
                EdgeView {
                    from: decision,
                    to: merge,
                    cond: Option::Some(CondView { ordinal: 1u64, name: "false"@ }),
                    label: Option::None,
                },
            );
            let b9 = with_loops(b8, b8.loops.drop_last());
            Result::Ok((b9, merge))
        },
    }
}

/// A case statement: an erased decision node (`"case"`) and a visible
/// merge node (`"case_end"`); each arm is one more guarded branch of the
/// decision, at ordinals 0, 1, ...
pub open spec fn lower_case_spec(b: BuilderView, cases: Seq<CondBody>, entry: int) -> LowerOutcome
    decreases cases, 1int,
{
    let decision = b.graph.nodes.len() as int;
    let b1 = with_node(b, NodeKindView::Decision("case"@));
    let merge = b1.graph.nodes.len() as int;
    let b2 = with_node(b1, NodeKindView::Action("case_end"@));
    let b3 = with_edge(b2, uncond_edge(entry, decision));
    match lower_arms_spec(b3, cases, 0, decision, merge, false) {
        Result::Err(st) => Result::Err(st),
        Result::Ok(b4) => Result::Ok((b4, merge)),
    }
}

/// Machine bound on the statement tree: every if/elseif list is short
/// enough that `arm count + 1`, the else ordinal, still fits in the
/// index type.
pub open spec fn stmt_bounded(stmt: ASTKind) -> bool
    decreases stmt,
{
    match stmt {
        ASTKind::While(cond) => block_bounded(cond.body@),
        ASTKind::Case(cases) => arms_bounded(cases@),
        ASTKind::IfElse(block) => block.if_elif@.len() < usize::MAX && arms_bounded(
            block.if_elif@,
        ) && block_bounded(block.else_@),
        _ => true,
    }
}

/// Machine bound for every statement of a sequence.
pub open spec fn block_bounded(stmts: Seq<ASTKind>) -> bool
    decreases stmts,
{
    stmts.len() == 0 || (stmt_bounded(stmts[0]) && block_bounded(stmts.drop_first()))
}

/// Machine bound for every arm of an if or case statement.
pub open spec fn arms_bounded(arms: Seq<CondBody>) -> bool
    decreases arms,
{
    arms.len() == 0 || (block_bounded(arms[0].body@) && arms_bounded(arms.drop_first()))
}


/// Lowering a statement leaves the loop-exit stack as it found it: every
/// while pops exactly the exit node it pushed, so on the way out of any
/// construct the stack of enclosing loops is restored.
pub proof fn lemma_stmt_keeps_loops(b: BuilderView, stmt: ASTKind, entry: int)
    ensures
        lower_stmt_spec(b, stmt, entry) matches Result::Ok(p) ==> p.0.loops == b.loops,
    decreases stmt, 0int,
{
    match stmt {
        ASTKind::While(cond) => {
            lemma_while_keeps_loops(b, cond, entry);
        },
        ASTKind::Case(cases) => {
            lemma_case_keeps_loops(b, cases@, entry);
        },
        ASTKind::IfElse(block) => {
            lemma_ifelse_keeps_loops(b, block, entry);
        },
        _ => {},
    }
}

proof fn lemma_block_keeps_loops(b: BuilderView, stmts: Seq<ASTKind>, entry: int)
    ensures
        lower_block_spec(b, stmts, entry) matches Result::Ok(p) ==> p.0.loops == b.loops,
    decreases stmts, 0int,
{
    if stmts.len() > 0 {
        lemma_stmt_keeps_loops(b, stmts[0], entry);
        match lower_stmt_spec(b, stmts[0], entry) {
            Result::Ok((b1, n)) => {
                lemma_block_keeps_loops(b1, stmts.drop_first(), n);
            },
            Result::Err(_) => {},
        }
    }
}

proof fn lemma_arms_keep_loops(
    b: BuilderView,
    arms: Seq<CondBody>,
    ord: int,
    decision: int,
    merge: int,
    labelled: bool,
)
    ensures
        lower_arms_spec(b, arms, ord, decision, merge, labelled) matches Result::Ok(b2)
            ==> b2.loops == b.loops,
    decreases arms, 0int,
{
    if arms.len() > 0 {
        let lo = b.graph.edges.len() as int;
        lemma_block_keeps_loops(b, arms[0].body@, decision);
        match lower_block_spec(b, arms[0].body@, decision) {
            Result::Ok((b1, arm_exit)) => {
                let arm_entry = body_entry_node(b1.graph.edges, decision, lo, arm_exit);
                let b2 = with_edge(
                    b1,
                    EdgeView {
                        from: decision,
                        to: arm_entry,
                        cond: Option::Some(
                            CondView { ordinal: ord as u64, name: arms[0].cond@ },
                        ),
                        label: if labelled {
                            Option::Some(arms[0].cond@)
                        } else {
                            Option::None
                        },
                    },
                );
                let b3 = with_edge(b2, uncond_edge(arm_exit, merge));
                lemma_arms_keep_loops(b3, arms.drop_first(), ord + 1, decision, merge, labelled);
            },
            Result::Err(_) => {},
        }
    }
}

proof fn lemma_ifelse_keeps_loops(b: BuilderView, block: IfElseBlock, entry: int)
    ensures
        lower_ifelse_spec(b, block, entry) matches Result::Ok(p) ==> p.0.loops == b.loops,
    decreases block, 0int,
{
    let merge = b.graph.nodes.len() as int;
    let b1 = with_node(b, NodeKindView::Action("if_end"@));
    let decision = b1.graph.nodes.len() as int;
    let b2 = with_node(b1, NodeKindView::Decision("if"@));
    let b3 = with_edge(b2, uncond_edge(entry, decision));
    lemma_arms_keep_loops(b3, block.if_elif@, 0, decision, merge, true);
    match lower_arms_spec(b3, block.if_elif@, 0, decision, merge, true) {
        Result::Ok(b4) => {
            if block.else_@.len() > 0 {
                lemma_block_keeps_loops(b4, block.else_@, decision);
            }
        },
        Result::Err(_) => {},
    }
}

proof fn lemma_while_keeps_loops(b: BuilderView, cond: CondBody, entry: int)
    ensures
        lower_while_spec(b, cond, entry) matches Result::Ok(p) ==> p.0.loops == b.loops,
    decreases cond, 0int,
{
    let decision = b.graph.nodes.len() as int;
    let b1 = with_node(b, NodeKindView::Decision(cond.cond@));
    let merge = b1.graph.nodes.len() as int;
    let b2 = with_node(b1, NodeKindView::Action("while_end"@));
    let b3 = with_edge(b2, uncond_edge(entry, decision));
    let b4 = with_loops(b3, b3.loops.push(merge));
    lemma_block_keeps_loops(b4, cond.body@, decision);
    match lower_block_spec(b4, cond.body@, decision) {
        Result::Ok((b5, _body_exit)) => {
            assert(b5.loops == b.loops.push(merge));
            assert(b5.loops.drop_last() =~= b.loops);
        },
        Result::Err(_) => {},
    }
}

proof fn lemma_case_keeps_loops(b: BuilderView, cases: Seq<CondBody>, entry: int)
    ensures
        lower_case_spec(b, cases, entry) matches Result::Ok(p) ==> p.0.loops == b.loops,
    decreases cases, 1int,
{
    let decision = b.graph.nodes.len() as int;
    let b1 = with_node(b, NodeKindView::Decision("case"@));
    let merge = b1.graph.nodes.len() as int;
    let b2 = with_node(b1, NodeKindView::Action("case_end"@));
    let b3 = with_edge(b2, uncond_edge(entry, decision));
    lemma_arms_keep_loops(b3, cases, 0, decision, merge, false);
}


/// Lowers one statement, linking it from `entry`; returns the new exit
/// node. Fails only when a break appears with no enclosing loop.
pub fn lower_stmt(builder: &mut CfgBuilder, stmt: &ASTKind, entry: NodeId) -> (r: Result<
    NodeId,
    BuildError,
>)
    requires
        stmt_bounded(*stmt),
    ensures
        match r {
            Result::Ok(n) => lower_stmt_spec(old(builder)@, *stmt, entry.0 as int) == Result::<
                (BuilderView, int),
                BuilderView,
            >::Ok((final(builder)@, n.0 as int)),
            Result::Err(e) => lower_stmt_spec(old(builder)@, *stmt, entry.0 as int) == Result::<
                (BuilderView, int),
                BuilderView,
            >::Err(final(builder)@) && e is BreakOutsideLoop,
        },
    decreases *stmt,
{
    match stmt {
        ASTKind::SimpleStmt(text) => {
            let n = builder.new_node(CfgNodeKind::Action(text.clone()));
            builder.edge(CfgEdge::new(entry, n, Option::None, Option::None));
            Result::Ok(n)
        },
        ASTKind::ActivityRef(name) => {
            let mut t = String::from_str("call ");
            t.append(name.as_str());
            let n = builder.new_node(CfgNodeKind::Action(t));
            builder.edge(CfgEdge::new(entry, n, Option::None, Option::None));
            Result::Ok(n)
        },
        ASTKind::While(cond) => lower_while(builder, cond, entry),
        ASTKind::Case(cases) => lower_case(builder, cases, entry),
        ASTKind::IfElse(block) => lower_ifelse(builder, block, entry),
        ASTKind::Label(name) => {
            builder.labels.push((name.clone(), entry));
            proof {
                assert(builder@.labels =~= old(builder)@.labels.push((name@, entry.0 as int)));
            }
            Result::Ok(entry)
        },
        ASTKind::Goto(label) => {
            let mut t = String::from_str("goto ");
            t.append(label.as_str());
            let n = builder.new_node(CfgNodeKind::Action(t));
            builder.edge(CfgEdge::new(entry, n, Option::None, Option::None));
            builder.pending_gotos.push((n, label.clone()));
            proof {
                assert(builder@.pending =~= old(builder)@.pending.push((n.0 as int, label@)));
                assert(builder@ == goto_step(old(builder)@, entry.0 as int, label@).0);
            }
            Result::Ok(n)
        },
        ASTKind::Break => {
            if builder.loop_exit_stack.len() == 0 {
                return Result::Err(BuildError::BreakOutsideLoop);
            }
            let exit = builder.loop_exit_stack[builder.loop_exit_stack.len() - 1];
            proof {
                assert(old(builder)@.loops.last() == exit.0 as int);
            }
            let n = builder.new_node(CfgNodeKind::Action(String::from_str("break")));
            builder.edge(CfgEdge::new(entry, n, Option::None, Option::None));
            builder.edge(CfgEdge::new(n, exit, Option::None, Option::None));
            Result::Ok(n)
        },
        ASTKind::Stop => {
            let n = builder.new_node(CfgNodeKind::End);
            builder.edge(CfgEdge::new(entry, n, Option::None, Option::None));
            Result::Ok(n)
        },
    }
}

/// Lowers a statement sequence in order, threading each statement's exit
/// into the next statement's entry; returns the sequence's exit.
pub fn lower_block(builder: &mut CfgBuilder, block: &Vec<ASTKind>, entry: NodeId) -> (r: Result<
    NodeId,
    BuildError,
>)
    requires
        block_bounded(block@),
    ensures
        match r {
            Result::Ok(n) => lower_block_spec(old(builder)@, block@, entry.0 as int) == Result::<
                (BuilderView, int),
                BuilderView,
            >::Ok((final(builder)@, n.0 as int)),
            Result::Err(e) => lower_block_spec(old(builder)@, block@, entry.0 as int) == Result::<
                (BuilderView, int),
                BuilderView,
            >::Err(final(builder)@) && e is BreakOutsideLoop,
        },
    decreases block@,
{
    let mut current = entry;
    let n = block.len();
    let mut i: usize = 0;
    proof {
        assert(block@.skip(0) =~= block@);
    }
    while i < n
        invariant
            i <= n,
            n == block@.len(),
            block_bounded(block@.skip(i as int)),
            lower_block_spec(old(builder)@, block@, entry.0 as int) == lower_block_spec(
                builder@,
                block@.skip(i as int),
                current.0 as int,
            ),
        decreases n - i,
    {
        let ghost rest = block@.skip(i as int);
        proof {
            assert(rest[0] == block@[i as int]);
            assert(rest.drop_first() =~= block@.skip(i as int + 1));
            assert(stmt_bounded(rest[0]) && block_bounded(rest.drop_first()));
        }
        match lower_stmt(builder, &block[i], current) {
            Result::Ok(next) => {
                current = next;
            },
            Result::Err(e) => {
                return Result::Err(e);
            },
        }
        i += 1;
    }
    proof {
        assert(block@.skip(n as int) =~= Seq::<ASTKind>::empty());
    }
    Result::Ok(current)
}

/// The entry node of a body just lowered with `from` as its entry: the
/// target of the first edge leaving `from` among the edges at position
/// `lo` or later. A body that added no such edge never left `from`;
/// its exit, handed in as `fallback`, stands in for its entry.
fn first_target_from(edges: &Vec<CfgEdge>, from: NodeId, lo: usize, fallback: NodeId) -> (r:
    NodeId)
    ensures
        r.0 as int == body_entry_node(
            edges_view(edges@),
            from.0 as int,
            lo as int,
            fallback.0 as int,
        ),
{
    let n = edges.len();
    if lo >= n {
        return fallback;
    }
    let mut i = lo;
    while i < n && !(edges[i].from == from)
        invariant
            lo <= i <= n,
            n == edges@.len(),
            forall|j: int|
                lo <= j < i ==> (#[trigger] edges_view(edges@)[j]).from != from.0 as int,
        decreases n - i,
    {
        i += 1;
    }
    if i < n {
        proof {
            assert(edges_view(edges@)[i as int].from == from.0 as int);
            lemma_find_edge_from_at(edges_view(edges@), from.0 as int, lo as int, i as int);
        }
        edges[i].to
    } else {
        proof {
            lemma_find_edge_from_none(edges_view(edges@), from.0 as int, lo as int);
        }
        fallback
    }
}

#[verifier::loop_isolation(false)]
fn lower_ifelse(builder: &mut CfgBuilder, block: &IfElseBlock, entry: NodeId) -> (r: Result<
    NodeId,
    BuildError,
>)
    requires
        block.if_elif@.len() < usize::MAX,
        arms_bounded(block.if_elif@),
        block_bounded(block.else_@),
    ensures
        match r {
            Result::Ok(n) => lower_ifelse_spec(old(builder)@, *block, entry.0 as int) == Result::<
                (BuilderView, int),
                BuilderView,
            >::Ok((final(builder)@, n.0 as int)),
            Result::Err(e) => lower_ifelse_spec(old(builder)@, *block, entry.0 as int) == Result::<
                (BuilderView, int),
                BuilderView,
            >::Err(final(builder)@) && e is BreakOutsideLoop,
        },
    decreases *block,
{
    let merge = builder.new_node(CfgNodeKind::Action(String::from_str("if_end")));
    let decision = builder.new_node(CfgNodeKind::Decision(String::from_str("if")));
    builder.edge(CfgEdge::new(entry, decision, Option::None, Option::None));
    let ghost arms = block.if_elif@;
    let ghost b3 = builder@;
    proof {
        assert(arms.skip(0) =~= arms);
        assert(b3 == with_edge(
            with_node(
                with_node(old(builder)@, NodeKindView::Action("if_end"@)),
                NodeKindView::Decision("if"@),
            ),
            uncond_edge(entry.0 as int, decision.0 as int),
        ));
    }
    let k = block.if_elif.len();
    let mut i: usize = 0;
    while i < k
        invariant
            i <= k,
            k == arms.len(),
            arms == block.if_elif@,
            arms_bounded(arms.skip(i as int)),
            merge.0 < decision.0,
            lower_arms_spec(b3, arms, 0, decision.0 as int, merge.0 as int, true)
                == lower_arms_spec(
                builder@,
                arms.skip(i as int),
                i as int,
                decision.0 as int,
                merge.0 as int,
                true,
            ),
        decreases k - i,
    {
        let ghost pre = builder@;
        let ghost rest = arms.skip(i as int);
        proof {
            assert(rest[0] == arms[i as int]);
            assert(rest.drop_first() =~= arms.skip(i as int + 1));
            assert(block_bounded(rest[0].body@) && arms_bounded(rest.drop_first()));
        }
        let lo = builder.cfg.edges.len();
        match lower_block(builder, &block.if_elif[i].body, decision) {
            Result::Ok(arm_exit) => {
                let c = &block.if_elif[i];
                let arm_entry = first_target_from(&builder.cfg.edges, decision, lo, arm_exit);
                builder.edge(
                    CfgEdge::new(
                        decision,
                        arm_entry,
                        Option::Some(c.cond.clone()),
                        Option::Some(CfgCond::new(i as u64, c.cond.clone())),
                    ),
                );
                builder.edge(CfgEdge::new(arm_exit, merge, Option::None, Option::None));
            },
            Result::Err(e) => {
                proof {
                    assert(lower_block_spec(pre, rest[0].body@, decision.0 as int)
                        == Result::<(BuilderView, int), BuilderView>::Err(builder@));
                    assert(lower_arms_spec(
                        pre,
                        rest,
                        i as int,
                        decision.0 as int,
                        merge.0 as int,
                        true,
                    ) == Result::<BuilderView, BuilderView>::Err(builder@));
                }
                return Result::Err(e);
            },
        }
        i += 1;
    }
    proof {
        assert(arms.skip(k as int) =~= Seq::<CondBody>::empty());
    }
    if block.else_.len() > 0 {
        let lo = builder.cfg.edges.len();
        match lower_block(builder, &block.else_, decision) {
            Result::Ok(else_exit) => {
                let else_entry = first_target_from(&builder.cfg.edges, decision, lo, else_exit);
                let ord: u64 = (block.if_elif.len() as u64) + 1;
                proof {
                    assert(arms.len() + 1 <= usize::MAX);
                    assert(ord == (arms.len() + 1) as u64);
                }
                builder.edge(
                    CfgEdge::new(
                        decision,
                        else_entry,
                        Option::None,
                        Option::Some(CfgCond::new(ord, String::from_str("else"))),
                    ),
                );
                builder.edge(CfgEdge::new(else_exit, merge, Option::None, Option::None));
                Result::Ok(merge)
            },
            Result::Err(e) => Result::Err(e),
        }
    } else {
        Result::Ok(merge)
    }
}

fn lower_while(builder: &mut CfgBuilder, cond: &CondBody, entry: NodeId) -> (r: Result<
    NodeId,
    BuildError,
>)
    requires
        block_bounded(cond.body@),
    ensures
        match r {
            Result::Ok(n) => lower_while_spec(old(builder)@, *cond, entry.0 as int) == Result::<
                (BuilderView, int),
                BuilderView,
            >::Ok((final(builder)@, n.0 as int)),
            Result::Err(e) => lower_while_spec(old(builder)@, *cond, entry.0 as int) == Result::<
                (BuilderView, int),
                BuilderView,
            >::Err(final(builder)@) && e is BreakOutsideLoop,
        },
    decreases *cond,
{
    let decision = builder.new_node(CfgNodeKind::Decision(cond.cond.clone()));
    let merge = builder.new_node(CfgNodeKind::Action(String::from_str("while_end")));
    builder.edge(CfgEdge::new(entry, decision, Option::None, Option::None));
    let ghost b3 = builder@;
    builder.loop_exit_stack.push(merge);
    let ghost b4 = builder@;
    proof {
        assert(b4.loops =~= b3.loops.push(merge.0 as int));
        assert(b4 == with_loops(b3, b3.loops.push(merge.0 as int)));
    }
    let lo = builder.cfg.edges.len();
    match lower_block(builder, &cond.body, decision) {
        Result::Ok(body_exit) => {
            let body_entry = first_target_from(&builder.cfg.edges, decision, lo, body_exit);
            builder.edge(
                CfgEdge::new(
                    decision,
                    body_entry,
                    Option::None,
                    Option::Some(CfgCond::new(0, String::from_str("true"))),
                ),
            );
            builder.edge(CfgEdge::new(body_exit, decision, Option::None, Option::None));
            builder.edge(
                CfgEdge::new(
                    decision,
                    merge,
                    Option::None,
                    Option::Some(CfgCond::new(1, String::from_str("false"))),
                ),
            );
            let ghost b8 = builder@;
            proof {
                lemma_block_keeps_loops(b4, cond.body@, decision.0 as int);
                assert(b8.loops == b4.loops);
                assert(builder.loop_exit_stack@.len() > 0);
            }
            let _popped = builder.loop_exit_stack.pop();
            proof {
                assert(builder@.loops =~= b8.loops.drop_last());
                assert(builder@ == with_loops(b8, b8.loops.drop_last()));
            }
            Result::Ok(merge)
        },
        Result::Err(e) => Result::Err(e),
    }
}

#[verifier::loop_isolation(false)]
fn lower_case(builder: &mut CfgBuilder, cases: &Vec<CondBody>, entry: NodeId) -> (r: Result<
    NodeId,
    BuildError,
>)
    requires
        arms_bounded(cases@),
    ensures
        match r {
            Result::Ok(n) => lower_case_spec(old(builder)@, cases@, entry.0 as int) == Result::<
                (BuilderView, int),
                BuilderView,
            >::Ok((final(builder)@, n.0 as int)),
            Result::Err(e) => lower_case_spec(old(builder)@, cases@, entry.0 as int) == Result::<
                (BuilderView, int),
                BuilderView,
            >::Err(final(builder)@) && e is BreakOutsideLoop,
        },
    decreases cases@,
{
    let decision = builder.new_node(CfgNodeKind::Decision(String::from_str("case")));
    let merge = builder.new_node(CfgNodeKind::Action(String::from_str("case_end")));
    builder.edge(CfgEdge::new(entry, decision, Option::None, Option::None));
    let ghost arms = cases@;
    let ghost b3 = builder@;
    proof {
        assert(arms.skip(0) =~= arms);
        assert(b3 == with_edge(
            with_node(
                with_node(old(builder)@, NodeKindView::Decision("case"@)),
                NodeKindView::Action("case_end"@),
            ),
            uncond_edge(entry.0 as int, decision.0 as int),
        ));
    }
    let k = cases.len();
    let mut i: usize = 0;
    while i < k
        invariant
            i <= k,
            k == arms.len(),
            arms == cases@,
            arms_bounded(arms.skip(i as int)),
            lower_arms_spec(b3, arms, 0, decision.0 as int, merge.0 as int, false)
                == lower_arms_spec(
                builder@,
                arms.skip(i as int),
                i as int,
                decision.0 as int,
                merge.0 as int,
                false,
            ),
        decreases k - i,
    {
        let ghost pre = builder@;
        let ghost rest = arms.skip(i as int);
        proof {
            assert(rest[0] == arms[i as int]);
            assert(rest.drop_first() =~= arms.skip(i as int + 1));
            assert(block_bounded(rest[0].body@) && arms_bounded(rest.drop_first()));
        }
        let lo = builder.cfg.edges.len();
        match lower_block(builder, &cases[i].body, decision) {
            Result::Ok(arm_exit) => {
                let arm_entry = first_target_from(&builder.cfg.edges, decision, lo, arm_exit);
                builder.edge(
                    CfgEdge::new(
                        decision,
                        arm_entry,
                        Option::None,
                        Option::Some(CfgCond::new(i as u64, cases[i].cond.clone())),
                    ),
                );
                builder.edge(CfgEdge::new(arm_exit, merge, Option::None, Option::None));
            },
            Result::Err(e) => {
                proof {
                    assert(lower_block_spec(pre, rest[0].body@, decision.0 as int)
                        == Result::<(BuilderView, int), BuilderView>::Err(builder@));
                    assert(lower_arms_spec(
                        pre,
                        rest,
                        i as int,
                        decision.0 as int,
                        merge.0 as int,
                        false,
                    ) == Result::<BuilderView, BuilderView>::Err(builder@));
                }
                return Result::Err(e);
            },
        }
        i += 1;
    }
    proof {
        assert(arms.skip(k as int) =~= Seq::<CondBody>::empty());
    }
    Result::Ok(merge)
}


/// The node a label name points to: the last entry for that name wins.
pub open spec fn lookup_label(labels: Seq<(Seq<char>, int)>, name: Seq<char>) -> Option<int>
    decreases labels.len(),
{
    if labels.len() == 0 {
        Option::None
    } else if labels.last().0 == name {
        Option::Some(labels.last().1)
    } else {
        lookup_label(labels.drop_last(), name)
    }
}

/// Phase two: walking the pending-goto list in order and adding one
/// unconditional edge from each goto node to its label's target. A name
/// with no entry in the label table stops the walk; the error carries
/// that name and the edge list at that point.
pub open spec fn resolve_pending(
    edges: Seq<EdgeView>,
    labels: Seq<(Seq<char>, int)>,
    pending: Seq<(int, Seq<char>)>,
) -> Result<Seq<EdgeView>, (Seq<char>, Seq<EdgeView>)>
    decreases pending.len(),
{
    if pending.len() == 0 {
        Result::Ok(edges)
    } else {
        match lookup_label(labels, pending[0].1) {
            Option::Some(target) => resolve_pending(
                add_edge(edges, uncond_edge(pending[0].0, target)),
                labels,
                pending.drop_first(),
            ),
            Option::None => Result::Err((pending[0].1, edges)),
        }
    }
}

/// Looks a label name up in the table; a later entry shadows an earlier
/// one with the same name.
fn find_label(labels: &Vec<(String, NodeId)>, name: &String) -> (r: Option<NodeId>)
    ensures
        match r {
            Option::Some(t) => lookup_label(labels_view(labels@), name@) == Option::Some(
                t.0 as int,
            ),
            Option::None => lookup_label(labels_view(labels@), name@) is None,
        },
{
    let ghost full = labels_view(labels@);
    let mut i = labels.len();
    proof {
        assert(labels@.take(labels@.len() as int) =~= labels@);
    }
    while i > 0
        invariant
            i <= labels@.len(),
            full == labels_view(labels@),
            lookup_label(full, name@) == lookup_label(
                labels_view(labels@.take(i as int)),
                name@,
            ),
        decreases i,
    {
        i = i - 1;
        let ghost prefix = labels_view(labels@.take(i as int + 1));
        proof {
            assert(prefix.len() == i + 1);
            assert(prefix.last() == (labels@[i as int].0@, labels@[i as int].1.0 as int));
            assert(prefix.drop_last() =~= labels_view(labels@.take(i as int)));
        }
        if labels[i].0 == *name {
            return Option::Some(labels[i].1);
        }
    }
    proof {
        assert(labels_view(labels@.take(0)).len() == 0);
    }
    Option::None
}

/// Phase two of the build: resolves every queued goto against the label
/// table, adding one unconditional edge per goto. Fails with
/// `UndefinedLabel` at the first goto whose label was never defined;
/// the label table, the pending list and the node arena are left
/// untouched either way.
#[verifier::loop_isolation(false)]
pub fn resolve_gotos_step2(builder: &mut CfgBuilder) -> (r: Result<(), BuildError>)
    ensures
        final(builder)@.graph.nodes == old(builder)@.graph.nodes,
        final(builder)@.labels == old(builder)@.labels,
        final(builder)@.pending == old(builder)@.pending,
        final(builder)@.loops == old(builder)@.loops,
        match r {
            Result::Ok(_) => resolve_pending(
                old(builder)@.graph.edges,
                old(builder)@.labels,
                old(builder)@.pending,
            ) == Result::<Seq<EdgeView>, (Seq<char>, Seq<EdgeView>)>::Ok(
                final(builder)@.graph.edges,
            ),
            Result::Err(e) => resolve_pending(
                old(builder)@.graph.edges,
                old(builder)@.labels,
                old(builder)@.pending,
            ) matches Result::Err(p) && e@ == BuildErrorView::UndefinedLabel(p.0)
                && final(builder)@.graph.edges == p.1,
        },
{
    let n = builder.pending_gotos.len();
    let mut i: usize = 0;
    proof {
        assert(builder@.pending.skip(0) =~= builder@.pending);
    }
    while i < n
        invariant
            i <= n,
            n == builder.pending_gotos@.len(),
            builder@.graph.nodes == old(builder)@.graph.nodes,
            builder@.labels == old(builder)@.labels,
            builder@.pending == old(builder)@.pending,
            builder@.loops == old(builder)@.loops,
            resolve_pending(
                old(builder)@.graph.edges,
                old(builder)@.labels,
                old(builder)@.pending,
            ) == resolve_pending(
                builder@.graph.edges,
                builder@.labels,
                builder@.pending.skip(i as int),
            ),
        decreases n - i,
    {
        let ghost rest = builder@.pending.skip(i as int);
        proof {
            assert(rest[0] == builder@.pending[i as int]);
            assert(rest.drop_first() =~= builder@.pending.skip(i as int + 1));
        }
        let from = builder.pending_gotos[i].0;
        let found = find_label(&builder.labels, &builder.pending_gotos[i].1);
        match found {
            Option::Some(target) => {
                builder.edge(CfgEdge::new(from, target, Option::None, Option::None));
            },
            Option::None => {
                let name = builder.pending_gotos[i].1.clone();
                return Result::Err(BuildError::UndefinedLabel(name));
            },
        }
        i += 1;
    }
    proof {
        assert(builder@.pending.skip(n as int) =~= Seq::<(int, Seq<char>)>::empty());
    }
    Result::Ok(())
}


/// Every id the builder has recorded, in an edge, the label table, the
/// pending list or the loop-exit stack, points at a node of the arena.
pub open spec fn builder_wf(b: BuilderView) -> bool {
    let n = b.graph.nodes.len() as int;
    &&& edges_in_range(b.graph)
    &&& edges_unique(b.graph)
    &&& forall|i: int| 0 <= i < b.labels.len() ==> 0 <= (#[trigger] b.labels[i]).1 < n
    &&& forall|i: int| 0 <= i < b.pending.len() ==> 0 <= (#[trigger] b.pending[i]).0 < n
    &&& forall|i: int| 0 <= i < b.loops.len() ==> 0 <= #[trigger] b.loops[i] < n
}

/// `b2`'s arena extends `b`'s: nothing is removed or renumbered.
pub open spec fn arena_extends(b: BuilderView, b2: BuilderView) -> bool {
    &&& b.graph.nodes.len() <= b2.graph.nodes.len()
    &&& forall|i: int|
        0 <= i < b.graph.nodes.len() ==> #[trigger] b2.graph.nodes[i] == b.graph.nodes[i]
}

proof fn lemma_add_edge_in_range(edges: Seq<EdgeView>, e: EdgeView, n: int)
    requires
        forall|i: int| 0 <= i < edges.len() ==> #[trigger] edge_in_range(edges[i], n),
        edge_in_range(e, n),
    ensures
        forall|i: int|
            0 <= i < add_edge(edges, e).len() ==> #[trigger] edge_in_range(add_edge(edges, e)[i], n),
{
    lemma_find_edge_index_some(edges, e.from, e.to);
    match find_edge_index(edges, e.from, e.to) {
        Option::Some(j) => {
            let merged = add_edge(edges, e);
            assert forall|i: int|
                0 <= i < merged.len() implies #[trigger] edge_in_range(merged[i], n) by {
                if i == j {
                    assert(merged[i] == merge_edge(edges[j], e));
                    assert(edge_in_range(edges[j], n));
                } else {
                    assert(merged[i] == edges[i]);
                }
            }
        },
        Option::None => {
            let pushed = add_edge(edges, e);
            assert forall|i: int|
                0 <= i < pushed.len() implies #[trigger] edge_in_range(pushed[i], n) by {
                if i < edges.len() {
                    assert(pushed[i] == edges[i]);
                }
            }
        },
    }
}

proof fn lemma_with_node_wf(b: BuilderView, k: NodeKindView)
    requires
        builder_wf(b),
    ensures
        builder_wf(with_node(b, k)),
        arena_extends(b, with_node(b, k)),
{
    let b2 = with_node(b, k);
    let n = b2.graph.nodes.len() as int;
    assert forall|i: int|
        0 <= i < b2.graph.edges.len() implies #[trigger] edge_in_range(b2.graph.edges[i], n) by {
        assert(edge_in_range(b.graph.edges[i], b.graph.nodes.len() as int));
    }
}

proof fn lemma_with_edge_wf(b: BuilderView, e: EdgeView)
    requires
        builder_wf(b),
        edge_in_range(e, b.graph.nodes.len() as int),
    ensures
        builder_wf(with_edge(b, e)),
        arena_extends(b, with_edge(b, e)),
{
    lemma_add_edge_in_range(b.graph.edges, e, b.graph.nodes.len() as int);
    lemma_add_edge_unique(b.graph.edges, e);
}

proof fn lemma_arena_extends_trans(a: BuilderView, b: BuilderView, c: BuilderView)
    requires
        arena_extends(a, b),
        arena_extends(b, c),
    ensures
        arena_extends(a, c),
{
}

/// Lowering only adds: on success the new builder is well-formed again,
/// the arena is an extension of the old one, and the returned exit node
/// exists in it.
pub proof fn lemma_stmt_wf(b: BuilderView, stmt: ASTKind, entry: int)
    requires
        builder_wf(b),
        0 <= entry < b.graph.nodes.len(),
    ensures
        lower_stmt_spec(b, stmt, entry) matches Result::Ok(p) ==> builder_wf(p.0)
            && arena_extends(b, p.0) && 0 <= p.1 < p.0.graph.nodes.len(),
    decreases stmt, 0int,
{
    let n = b.graph.nodes.len() as int;
    match stmt {
        ASTKind::SimpleStmt(text) => {
            lemma_with_node_wf(b, NodeKindView::Action(text@));
            lemma_with_edge_wf(with_node(b, NodeKindView::Action(text@)), uncond_edge(entry, n));
        },
        ASTKind::ActivityRef(name) => {
            lemma_with_node_wf(b, NodeKindView::Action("call "@ + name@));
            lemma_with_edge_wf(
                with_node(b, NodeKindView::Action("call "@ + name@)),
                uncond_edge(entry, n),
            );
        },
        ASTKind::While(cond) => {
            lemma_while_wf(b, cond, entry);
        },
        ASTKind::Case(cases) => {
            lemma_case_wf(b, cases@, entry);
        },
        ASTKind::IfElse(block) => {
            lemma_ifelse_wf(b, block, entry);
        },
        ASTKind::Label(_) => {
        },
        ASTKind::Goto(label) => {
            lemma_with_node_wf(b, NodeKindView::Action("goto "@ + label@));
            lemma_with_edge_wf(
                with_node(b, NodeKindView::Action("goto "@ + label@)),
                uncond_edge(entry, n),
            );
        },
        ASTKind::Break => {
            if b.loops.len() > 0 {
                assert(0 <= b.loops[b.loops.len() - 1] < n);
                lemma_with_node_wf(b, NodeKindView::Action("break"@));
                let b1 = with_edge(
                    with_node(b, NodeKindView::Action("break"@)),
                    uncond_edge(entry, n),
                );
                lemma_with_edge_wf(with_node(b, NodeKindView::Action("break"@)), uncond_edge(entry, n));
                lemma_with_edge_wf(b1, uncond_edge(n, b.loops.last()));
            }
        },
        ASTKind::Stop => {
            lemma_with_node_wf(b, NodeKindView::End);
            lemma_with_edge_wf(with_node(b, NodeKindView::End), uncond_edge(entry, n));
        },
    }
}

proof fn lemma_block_wf(b: BuilderView, stmts: Seq<ASTKind>, entry: int)
    requires
        builder_wf(b),
        0 <= entry < b.graph.nodes.len(),
    ensures
        lower_block_spec(b, stmts, entry) matches Result::Ok(p) ==> builder_wf(p.0)
            && arena_extends(b, p.0) && 0 <= p.1 < p.0.graph.nodes.len(),
    decreases stmts, 0int,
{
    if stmts.len() > 0 {
        lemma_stmt_wf(b, stmts[0], entry);
        match lower_stmt_spec(b, stmts[0], entry) {
            Result::Ok((b1, m)) => {
                lemma_block_wf(b1, stmts.drop_first(), m);
                match lower_block_spec(b1, stmts.drop_first(), m) {
                    Result::Ok((b2, _)) => {
                        lemma_arena_extends_trans(b, b1, b2);
                    },
                    Result::Err(_) => {},
                }
            },
            Result::Err(_) => {},
        }
    }
}

proof fn lemma_arms_wf(
    b: BuilderView,
    arms: Seq<CondBody>,
    ord: int,
    decision: int,
    merge: int,
    labelled: bool,
)
    requires
        builder_wf(b),
        0 <= decision < b.graph.nodes.len(),
        0 <= merge < b.graph.nodes.len(),
    ensures
        lower_arms_spec(b, arms, ord, decision, merge, labelled) matches Result::Ok(b2)
            ==> builder_wf(b2) && arena_extends(b, b2),
    decreases arms, 0int,
{
    if arms.len() > 0 {
        let lo = b.graph.edges.len() as int;
        lemma_block_wf(b, arms[0].body@, decision);
        match lower_block_spec(b, arms[0].body@, decision) {
            Result::Ok((b1, arm_exit)) => {
                let arm_entry = body_entry_node(b1.graph.edges, decision, lo, arm_exit);
                lemma_find_edge_from_some(b1.graph.edges, decision, lo);
                match find_edge_from(b1.graph.edges, decision, lo) {
                    Option::Some(idx) => {
                        assert(edge_in_range(b1.graph.edges[idx], b1.graph.nodes.len() as int));
                    },
                    Option::None => {},
                }
                assert(0 <= arm_entry < b1.graph.nodes.len());
                let e1 = EdgeView {
                    from: decision,
                    to: arm_entry,
                    cond: Option::Some(CondView { ordinal: ord as u64, name: arms[0].cond@ }),
                    label: if labelled {
                        Option::Some(arms[0].cond@)
                    } else {
                        Option::None
                    },
                };
                lemma_with_edge_wf(b1, e1);
                let b2 = with_edge(b1, e1);
                lemma_with_edge_wf(b2, uncond_edge(arm_exit, merge));
                let b3 = with_edge(b2, uncond_edge(arm_exit, merge));
                lemma_arms_wf(b3, arms.drop_first(), ord + 1, decision, merge, labelled);
                match lower_arms_spec(b3, arms.drop_first(), ord + 1, decision, merge, labelled) {
                    Result::Ok(b4) => {
                        lemma_arena_extends_trans(b, b1, b3);
                        lemma_arena_extends_trans(b, b3, b4);
                    },
                    Result::Err(_) => {},
                }
            },
            Result::Err(_) => {},
        }
    }
}

proof fn lemma_ifelse_wf(b: BuilderView, block: IfElseBlock, entry: int)
    requires
        builder_wf(b),
        0 <= entry < b.graph.nodes.len(),
    ensures
        lower_ifelse_spec(b, block, entry) matches Result::Ok(p) ==> builder_wf(p.0)
            && arena_extends(b, p.0) && 0 <= p.1 < p.0.graph.nodes.len(),
    decreases block, 0int,
{
    let merge = b.graph.nodes.len() as int;
    let b1 = with_node(b, NodeKindView::Action("if_end"@));
    let decision = b1.graph.nodes.len() as int;
    let b2 = with_node(b1, NodeKindView::Decision("if"@));
    let b3 = with_edge(b2, uncond_edge(entry, decision));
    lemma_with_node_wf(b, NodeKindView::Action("if_end"@));
    lemma_with_node_wf(b1, NodeKindView::Decision("if"@));
    lemma_with_edge_wf(b2, uncond_edge(entry, decision));
    lemma_arms_wf(b3, block.if_elif@, 0, decision, merge, true);
    match lower_arms_spec(b3, block.if_elif@, 0, decision, merge, true) {
        Result::Ok(b4) => {
            lemma_arena_extends_trans(b, b3, b4);
            if block.else_@.len() > 0 {
                let lo = b4.graph.edges.len() as int;
                lemma_block_wf(b4, block.else_@, decision);
                match lower_block_spec(b4, block.else_@, decision) {
                    Result::Ok((b5, else_exit)) => {
                        let else_entry = body_entry_node(b5.graph.edges, decision, lo, else_exit);
                        lemma_find_edge_from_some(b5.graph.edges, decision, lo);
                        match find_edge_from(b5.graph.edges, decision, lo) {
                            Option::Some(idx) => {
                                assert(edge_in_range(
                                    b5.graph.edges[idx],
                                    b5.graph.nodes.len() as int,
                                ));
                            },
                            Option::None => {},
                        }
                        assert(0 <= else_entry < b5.graph.nodes.len());
                        let e1 = EdgeView {
                            from: decision,
                            to: else_entry,
                            cond: Option::Some(
                                CondView {
                                    ordinal: (block.if_elif@.len() + 1) as u64,
                                    name: "else"@,
                                },
                            ),
                            label: Option::None,
                        };
                        lemma_with_edge_wf(b5, e1);
                        let b6 = with_edge(b5, e1);
                        lemma_with_edge_wf(b6, uncond_edge(else_exit, merge));
                        lemma_arena_extends_trans(b, b4, b5);
                        lemma_arena_extends_trans(b, b5, with_edge(b6, uncond_edge(else_exit, merge)));
                    },
                    Result::Err(_) => {},
                }
            }
        },
        Result::Err(_) => {},
    }
}

proof fn lemma_while_wf(b: BuilderView, cond: CondBody, entry: int)
    requires
        builder_wf(b),
        0 <= entry < b.graph.nodes.len(),
    ensures
        lower_while_spec(b, cond, entry) matches Result::Ok(p) ==> builder_wf(p.0)
            && arena_extends(b, p.0) && 0 <= p.1 < p.0.graph.nodes.len(),
    decreases cond, 0int,
{
    let decision = b.graph.nodes.len() as int;
    let b1 = with_node(b, NodeKindView::Decision(cond.cond@));
    let merge = b1.graph.nodes.len() as int;
    let b2 = with_node(b1, NodeKindView::Action("while_end"@));
    let b3 = with_edge(b2, uncond_edge(entry, decision));
    let b4 = with_loops(b3, b3.loops.push(merge));
    lemma_with_node_wf(b, NodeKindView::Decision(cond.cond@));
    lemma_with_node_wf(b1, NodeKindView::Action("while_end"@));
    lemma_with_edge_wf(b2, uncond_edge(entry, decision));
    assert(builder_wf(b4));
    let lo = b4.graph.edges.len() as int;
    lemma_block_wf(b4, cond.body@, decision);
    match lower_block_spec(b4, cond.body@, decision) {
        Result::Ok((b5, body_exit)) => {
            let body_entry = body_entry_node(b5.graph.edges, decision, lo, body_exit);
            lemma_find_edge_from_some(b5.graph.edges, decision, lo);
            match find_edge_from(b5.graph.edges, decision, lo) {
                Option::Some(idx) => {
                    assert(edge_in_range(b5.graph.edges[idx], b5.graph.nodes.len() as int));
                },
                Option::None => {},
            }
            assert(0 <= body_entry < b5.graph.nodes.len());
            let e1 = EdgeView {
                from: decision,
                to: body_entry,
                cond: Option::Some(CondView { ordinal: 0u64, name: "true"@ }),
                label: Option::None,
            };
            lemma_with_edge_wf(b5, e1);
            let b6 = with_edge(b5, e1);
            lemma_with_edge_wf(b6, uncond_edge(body_exit, decision));
            let b7 = with_edge(b6, uncond_edge(body_exit, decision));
            let e2 = EdgeView {
                from: decision,
                to: merge,
                cond: Option::Some(CondView { ordinal: 1u64, name: "false"@ }),
                label: Option::None,
            };
            lemma_with_edge_wf(b7, e2);
            let b8 = with_edge(b7, e2);
            lemma_block_keeps_loops(b4, cond.body@, decision);
            assert(b8.loops == b3.loops.push(merge));
            assert(b8.loops.drop_last() =~= b3.loops);
            let b9 = with_loops(b8, b8.loops.drop_last());
            assert(builder_wf(b9));
            lemma_arena_extends_trans(b, b4, b5);
            lemma_arena_extends_trans(b, b5, b8);
        },
        Result::Err(_) => {},
    }
}

proof fn lemma_case_wf(b: BuilderView, cases: Seq<CondBody>, entry: int)
    requires
        builder_wf(b),
        0 <= entry < b.graph.nodes.len(),
    ensures
        lower_case_spec(b, cases, entry) matches Result::Ok(p) ==> builder_wf(p.0)
            && arena_extends(b, p.0) && 0 <= p.1 < p.0.graph.nodes.len(),
    decreases cases, 1int,
{
    let decision = b.graph.nodes.len() as int;
    let b1 = with_node(b, NodeKindView::Decision("case"@));
    let merge = b1.graph.nodes.len() as int;
    let b2 = with_node(b1, NodeKindView::Action("case_end"@));
    let b3 = with_edge(b2, uncond_edge(entry, decision));
    lemma_with_node_wf(b, NodeKindView::Decision("case"@));
    lemma_with_node_wf(b1, NodeKindView::Action("case_end"@));
    lemma_with_edge_wf(b2, uncond_edge(entry, decision));
    lemma_arms_wf(b3, cases, 0, decision, merge, false);
    match lower_arms_spec(b3, cases, 0, decision, merge, false) {
        Result::Ok(b4) => {
            lemma_arena_extends_trans(b, b3, b4);
        },
        Result::Err(_) => {},
    }
}

proof fn lemma_lookup_in_range(labels: Seq<(Seq<char>, int)>, name: Seq<char>, n: int)
    requires
        forall|i: int| 0 <= i < labels.len() ==> 0 <= (#[trigger] labels[i]).1 < n,
    ensures
        lookup_label(labels, name) matches Option::Some(t) ==> 0 <= t < n,
    decreases labels.len(),
{
    if labels.len() > 0 && labels.last().0 != name {
        lemma_lookup_in_range(labels.drop_last(), name, n);
    }
}

proof fn lemma_resolve_in_range(
    edges: Seq<EdgeView>,
    labels: Seq<(Seq<char>, int)>,
    pending: Seq<(int, Seq<char>)>,
    n: int,
)
    requires
        forall|i: int| 0 <= i < edges.len() ==> #[trigger] edge_in_range(edges[i], n),
        forall|i: int| 0 <= i < labels.len() ==> 0 <= (#[trigger] labels[i]).1 < n,
        forall|i: int| 0 <= i < pending.len() ==> 0 <= (#[trigger] pending[i]).0 < n,
        edge_list_unique(edges),
    ensures
        resolve_pending(edges, labels, pending) matches Result::Ok(es) ==> edge_list_unique(es)
            && forall|i: int| 0 <= i < es.len() ==> #[trigger] edge_in_range(es[i], n),
    decreases pending.len(),
{
    if pending.len() > 0 {
        lemma_lookup_in_range(labels, pending[0].1, n);
        match lookup_label(labels, pending[0].1) {
            Option::Some(target) => {
                lemma_add_edge_in_range(edges, uncond_edge(pending[0].0, target), n);
                lemma_add_edge_unique(edges, uncond_edge(pending[0].0, target));
                let edges2 = add_edge(edges, uncond_edge(pending[0].0, target));
                assert forall|i: int|
                    0 <= i < pending.drop_first().len() implies 0 <= (#[trigger] pending.drop_first()[i]).0 < n by {
                    assert(pending.drop_first()[i] == pending[i + 1]);
                }
                lemma_resolve_in_range(edges2, labels, pending.drop_first(), n);
            },
            Option::None => {},
        }
    }
}

/// The whole build as one function of the statement sequence: phase one
/// from a fresh builder whose only node is `Start`, then phase two; the
/// frozen graph keeps phase one's arena and phase two's edge list.
pub open spec fn build_cfg_spec(ast: Seq<ASTKind>) -> Result<GraphView, BuildErrorView> {
    match lower_block_spec(initial_builder(), ast, 0) {
        Result::Err(_) => Result::Err(BuildErrorView::BreakOutsideLoop),
        Result::Ok((b, _exit)) => match resolve_pending(b.graph.edges, b.labels, b.pending) {
            Result::Err(p) => Result::Err(BuildErrorView::UndefinedLabel(p.0)),
            Result::Ok(edges) => Result::Ok(GraphView { nodes: b.graph.nodes, edges }),
        },
    }
}

/// Lowers a statement sequence to a frozen control-flow graph: the full
/// structural pass, then goto resolution. No partially built graph is
/// ever returned: any failure discards the builder.
///
/// On success the graph is well-formed: node `0` is the `Start` node and
/// every edge points at nodes of the arena.
pub fn build_cfg(ast: &Vec<ASTKind>) -> (r: Result<CFGraph, BuildError>)
    requires
        block_bounded(ast@),
    ensures
        match r {
            Result::Ok(g) => build_cfg_spec(ast@) == Result::<GraphView, BuildErrorView>::Ok(g@)
                && edges_in_range(g@) && edges_unique(g@) && g@.nodes.len() > 0 && g@.nodes[0]
                == NodeKindView::Start,
            Result::Err(e) => build_cfg_spec(ast@) == Result::<GraphView, BuildErrorView>::Err(e@),
        },
{
    let (mut builder, start) = CfgBuilder::new();
    match lower_block(&mut builder, ast, start) {
        Result::Err(e) => Result::Err(e),
        Result::Ok(_exit) => {
            proof {
                assert(builder_wf(initial_builder()));
                lemma_block_wf(initial_builder(), ast@, 0);
                assert(builder_wf(builder@));
            }
            let ghost lowered = builder@;
            match resolve_gotos_step2(&mut builder) {
                Result::Err(e) => Result::Err(e),
                Result::Ok(_) => {
                    proof {
                        lemma_resolve_in_range(
                            lowered.graph.edges,
                            lowered.labels,
                            lowered.pending,
                            lowered.graph.nodes.len() as int,
                        );
                        assert(build_cfg_spec(ast@) == Result::<
                            GraphView,
                            BuildErrorView,
                        >::Ok(builder@.graph));
                        assert(edges_in_range(builder@.graph));
                        assert(edges_unique(builder@.graph));
                    }
                    Result::Ok(builder.cfg)
                },
            }
        },
    }
}


/// A while statement lowers its body with its own exit node pushed on
/// the loop-exit stack, so inside the body this loop's exit is the
/// innermost: any break at the body's top level binds to it, and an
/// inner while stacks its own exit above it and pops it again.
pub proof fn lemma_while_body_sees_own_exit(b: BuilderView, cond: CondBody, entry: int)
    ensures
        while_entry_state(b, cond, entry).loops == b.loops.push(while_exit_node(b)),
        while_entry_state(b, cond, entry).loops.last() == while_exit_node(b),
{
}

/// Lowering a break adds an edge from the break's fresh node to the
/// last element of the loop-exit stack: the innermost enclosing loop's
/// exit, never an outer one.
pub proof fn lemma_break_targets_top(b: BuilderView, entry: int)
    requires
        b.loops.len() > 0,
    ensures
        ({
            let n = b.graph.nodes.len() as int;
            lower_stmt_spec(b, ASTKind::Break, entry) matches Result::Ok(p) && p.1 == n
                && p.0.graph.edges == add_edge(
                add_edge(b.graph.edges, uncond_edge(entry, n)),
                uncond_edge(n, b.loops.last()),
            )
        }),
{
}

} // verus!
