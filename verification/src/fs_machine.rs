//! Derivation of the finite state machine from a frozen control-flow
//! graph: decision nodes are erased and their incoming edges are pushed
//! through to their outgoing edges' targets, so that only visible states
//! and direct, condition-labelled transitions remain.

use crate::cf_graph::CFGraph;
use crate::cf_graph::GraphView;
use crate::cf_graph::edge_in_range;
use crate::cf_graph::edges_in_range;
use crate::cfg_cond::EdgeView;
use crate::cfg_cond::edge_condition;
use crate::cfg_node_kind::CfgNodeKind;
use crate::cfg_node_kind::NodeKindView;
use crate::text::dec_of;
use crate::text::usize_to_dec;
use crate::transition::StateId;
use crate::transition::TransView;
use crate::transition::Transition;
use vstd::prelude::*;

verus! {

/// Whether a node kind survives derivation as a state of the machine.
/// `Decision`, `Merge` and `Stop` nodes are erased.
pub open spec fn is_visible(k: NodeKindView) -> bool {
    k is Start || k is Action || k is End
}

/// The state name a visible node contributes: the sentinel `"START"`,
/// the action's text, or the sentinel `"END"`.
pub open spec fn state_name(k: NodeKindView) -> Seq<char> {
    match k {
        NodeKindView::Start => "START"@,
        NodeKindView::Action(t) => t,
        NodeKindView::End => "END"@,
        _ => Seq::empty(),
    }
}

/// How many of these nodes are visible.
pub open spec fn visible_count(nodes: Seq<NodeKindView>) -> int
    decreases nodes.len(),
{
    if nodes.len() == 0 {
        0
    } else {
        visible_count(nodes.drop_last()) + if is_visible(nodes.last()) {
            1int
        } else {
            0int
        }
    }
}

/// The state id of the node at position `node`: states are numbered
/// densely in node-creation order, skipping erased nodes.
pub open spec fn state_of(g: GraphView, node: int) -> int {
    visible_count(g.nodes.take(node))
}

/// The state names of the machine, one per visible node, in node order.
pub open spec fn state_names(nodes: Seq<NodeKindView>) -> Seq<Seq<char>>
    decreases nodes.len(),
{
    if nodes.len() == 0 {
        Seq::empty()
    } else {
        state_names(nodes.drop_last()) + if is_visible(nodes.last()) {
            seq![state_name(nodes.last())]
        } else {
            Seq::empty()
        }
    }
}

/// The terminal states: the state ids of the `End` nodes, in node order.
pub open spec fn terminal_ids(nodes: Seq<NodeKindView>) -> Seq<int>
    decreases nodes.len(),
{
    if nodes.len() == 0 {
        Seq::empty()
    } else {
        terminal_ids(nodes.drop_last()) + if nodes.last() is End {
            seq![visible_count(nodes.drop_last())]
        } else {
            Seq::empty()
        }
    }
}

/// The position of the first state named `"START"`, if any.
pub open spec fn find_start(names: Seq<Seq<char>>) -> Option<int>
    decreases names.len(),
{
    if names.len() == 0 {
        Option::None
    } else if names[0] == "START"@ {
        Option::Some(0int)
    } else {
        match find_start(names.drop_first()) {
            Option::Some(i) => Option::Some(i + 1),
            Option::None => Option::None,
        }
    }
}

/// Whether some node of the graph yields a state named `"START"`.
/// Derivation is defined only for such graphs; the builder marks its
/// entry node so, and its absence is an internal-invariant failure.
pub open spec fn fsm_has_start(g: GraphView) -> bool {
    find_start(state_names(g.nodes)) is Some
}

/// The transitions that the predecessors of an erased decision node
/// contribute for one of its outgoing edges `e`: one transition per
/// edge into the decision whose source is itself visible, from that
/// predecessor's state to `e`'s target state, under `e`'s condition.
pub open spec fn preds_trans(g: GraphView, edges: Seq<EdgeView>, e: EdgeView) -> Seq<TransView>
    decreases edges.len(),
{
    if edges.len() == 0 {
        Seq::empty()
    } else {
        preds_trans(g, edges.drop_last(), e) + if edges.last().to == e.from && is_visible(
            g.nodes[edges.last().from],
        ) {
            seq![
                TransView {
                    from: state_of(g, edges.last().from),
                    to: state_of(g, e.to),
                    cond: edge_condition(e),
                },
            ]
        } else {
            Seq::empty()
        }
    }
}

/// The transitions one edge of the graph contributes.
///
/// An edge between two visible nodes is copied as it stands. An edge
/// out of a decision node into a visible node is replaced by one
/// transition per visible predecessor of the decision: the decision is
/// erased and its incoming flow is connected directly to the target.
/// An edge into a decision node contributes nothing by itself; nor does
/// any edge touching another erased kind.
pub open spec fn edge_trans(g: GraphView, e: EdgeView) -> Seq<TransView> {
    let from_kind = g.nodes[e.from];
    let to_kind = g.nodes[e.to];
    if from_kind is Decision && is_visible(to_kind) {
        preds_trans(g, g.edges, e)
    } else if is_visible(from_kind) && is_visible(to_kind) {
        seq![
            TransView {
                from: state_of(g, e.from),
                to: state_of(g, e.to),
                cond: edge_condition(e),
            },
        ]
    } else {
        Seq::empty()
    }
}

/// The transitions contributed by the first `i` edges, in edge order.
pub open spec fn trans_upto(g: GraphView, i: int) -> Seq<TransView>
    decreases i,
{
    if i <= 0 {
        Seq::empty()
    } else {
        trans_upto(g, i - 1) + edge_trans(g, g.edges[i - 1])
    }
}

/// Mathematical image of a finite state machine.
pub ghost struct FsmView {
    pub states: Seq<Seq<char>>,
    pub transitions: Seq<TransView>,
    pub start: int,
    pub terminals: Seq<int>,
}

/// The machine a graph derives to: the visible nodes as states, the
/// synthesized transitions in edge order, the first state named
/// `"START"`, and the `End` states as terminals.
pub open spec fn fsm_of(g: GraphView) -> FsmView {
    FsmView {
        states: state_names(g.nodes),
        transitions: trans_upto(g, g.edges.len() as int),
        start: find_start(state_names(g.nodes)).unwrap(),
        terminals: terminal_ids(g.nodes),
    }
}

/// The mathematical image of a list of state names.
pub open spec fn strings_view(s: Seq<String>) -> Seq<Seq<char>> {
    s.map_values(|x: String| x@)
}

/// The mathematical image of a list of transitions.
pub open spec fn transitions_view(s: Seq<Transition>) -> Seq<TransView> {
    s.map_values(|t: Transition| t@)
}

/// The mathematical image of a list of state ids.
pub open spec fn ids_view(s: Seq<StateId>) -> Seq<int> {
    s.map_values(|x: StateId| x.0 as int)
}

/// A frozen finite state machine: produced once by derivation and never
/// mutated thereafter. State ids index the name list.
#[derive(Debug)]
pub struct FSMachine {
    states: Vec<String>,
    transitions: Vec<Transition>,
    start: StateId,
    terminals: Vec<StateId>,
}

impl View for FSMachine {
    type V = FsmView;

    closed spec fn view(&self) -> FsmView {
        FsmView {
            states: strings_view(self.states@),
            transitions: transitions_view(self.transitions@),
            start: self.start.0 as int,
            terminals: ids_view(self.terminals@),
        }
    }
}

impl FSMachine {
    /// The state names, indexed by state id.
    pub fn state_map(&self) -> (r: &Vec<String>)
        ensures
            strings_view(r@) == self@.states,
    {
        &self.states
    }

    /// The transition list, in derivation order.
    pub fn transitions(&self) -> (r: &Vec<Transition>)
        ensures
            transitions_view(r@) == self@.transitions,
    {
        &self.transitions
    }

    /// The starting state's id.
    pub fn start_id(&self) -> (r: StateId)
        ensures
            r.0 as int == self@.start,
    {
        self.start
    }

    /// The terminal states' ids.
    pub fn terminals(&self) -> (r: &Vec<StateId>)
        ensures
            ids_view(r@) == self@.terminals,
    {
        &self.terminals
    }
}


proof fn lemma_find_start_at(names: Seq<Seq<char>>, i: int)
    requires
        0 <= i < names.len(),
        names[i] == "START"@,
        forall|j: int| 0 <= j < i ==> (#[trigger] names[j]) != "START"@,
    ensures
        find_start(names) == Option::Some(i),
    decreases names.len(),
{
    if i > 0 {
        assert(names[0] != "START"@);
        let rest = names.drop_first();
        assert forall|j: int| 0 <= j < i - 1 implies (#[trigger] rest[j]) != "START"@ by {
            assert(rest[j] == names[j + 1]);
        }
        assert(rest[i - 1] == names[i]);
        lemma_find_start_at(rest, i - 1);
    }
}

proof fn lemma_find_start_none(names: Seq<Seq<char>>)
    requires
        forall|j: int| 0 <= j < names.len() ==> (#[trigger] names[j]) != "START"@,
    ensures
        find_start(names) is None,
    decreases names.len(),
{
    if names.len() > 0 {
        assert(names[0] != "START"@);
        let rest = names.drop_first();
        assert forall|j: int| 0 <= j < rest.len() implies (#[trigger] rest[j]) != "START"@ by {
            assert(rest[j] == names[j + 1]);
        }
        lemma_find_start_none(rest);
    }
}

fn kind_is_decision(k: &CfgNodeKind) -> (r: bool)
    ensures
        r == (k@ is Decision),
{
    match k {
        CfgNodeKind::Decision(_) => true,
        _ => false,
    }
}

fn kind_is_visible(k: &CfgNodeKind) -> (r: bool)
    ensures
        r == is_visible(k@),
{
    match k {
        CfgNodeKind::Start => true,
        CfgNodeKind::Action(_) => true,
        CfgNodeKind::End => true,
        _ => false,
    }
}

/// Derives the finite state machine of a frozen control-flow graph.
///
/// Visible nodes (`Start`, `Action`, `End`) become states, in node
/// order; `End` nodes become the terminal states; the start state is
/// the first one named `"START"`. Transitions are synthesized from the
/// edge list in insertion order, erasing decision nodes by connecting
/// each decision's visible predecessors directly to its targets, so the
/// result is deterministic for a given graph.
#[verifier::loop_isolation(false)]
pub fn cfg_to_fsm(cfg: &CFGraph) -> (r: FSMachine)
    requires
        edges_in_range(cfg@),
        fsm_has_start(cfg@),
    ensures
        r@ == fsm_of(cfg@),
{
    let ghost g = cfg@;
    let mut states: Vec<String> = Vec::new();
    let mut state_map: Vec<Option<usize>> = Vec::new();
    let mut terminals: Vec<StateId> = Vec::new();
    let n = cfg.nodes.len();
    let mut i: usize = 0;
    proof {
        assert(g.nodes.take(0) =~= Seq::<NodeKindView>::empty());
        assert(strings_view(states@) =~= state_names(g.nodes.take(0)));
        assert(ids_view(terminals@) =~= terminal_ids(g.nodes.take(0)));
    }
    while i < n
        invariant
            i <= n,
            n == cfg.nodes@.len(),
            strings_view(states@) == state_names(g.nodes.take(i as int)),
            states@.len() == visible_count(g.nodes.take(i as int)),
            state_map@.len() == i,
            forall|j: int|
                0 <= j < i ==> match #[trigger] state_map@[j] {
                    Option::Some(sid) => is_visible(g.nodes[j]) && sid as int == state_of(g, j),
                    Option::None => !is_visible(g.nodes[j]),
                },
            ids_view(terminals@) == terminal_ids(g.nodes.take(i as int)),
        decreases n - i,
    {
        proof {
            assert(g.nodes.take(i as int + 1).drop_last() =~= g.nodes.take(i as int));
            assert(g.nodes.take(i as int + 1).last() == g.nodes[i as int]);
        }
        match &cfg.nodes[i] {
            CfgNodeKind::Start => {
                let sid = states.len();
                states.push(String::from_str("START"));
                state_map.push(Option::Some(sid));
            },
            CfgNodeKind::Action(name) => {
                let sid = states.len();
                states.push(name.clone());
                state_map.push(Option::Some(sid));
            },
            CfgNodeKind::End => {
                let sid = states.len();
                states.push(String::from_str("END"));
                terminals.push(StateId(sid));
                state_map.push(Option::Some(sid));
            },
            _ => {
                state_map.push(Option::None);
            },
        }
        proof {
            assert(strings_view(states@) =~= state_names(g.nodes.take(i as int + 1)));
            assert(ids_view(terminals@) =~= terminal_ids(g.nodes.take(i as int + 1)));
        }
        i += 1;
    }
    proof {
        assert(g.nodes.take(n as int) =~= g.nodes);
    }
    let ghost names = state_names(g.nodes);
    // Start resolution: the first state carrying the sentinel name.
    let start_name = String::from_str("START");
    let ns = states.len();
    let mut s: usize = 0;
    let mut start_idx: usize = 0;
    let mut found = false;
    while s < ns
        invariant
            s <= ns,
            ns == states@.len(),
            !found ==> forall|j: int| 0 <= j < s ==> (#[trigger] names[j]) != "START"@,
            found ==> start_idx < ns && names[start_idx as int] == "START"@ && forall|j: int|
                0 <= j < start_idx ==> (#[trigger] names[j]) != "START"@,
        decreases ns - s,
    {
        if !found && states[s] == start_name {
            found = true;
            start_idx = s;
        }
        s += 1;
    }
    if !found {
        proof {
            lemma_find_start_none(names);
            assert(false);
        }
    }
    proof {
        lemma_find_start_at(names, start_idx as int);
    }
    // Transition synthesis: one pass over all edges, in insertion order.
    let m = cfg.edges.len();
    let mut transitions: Vec<Transition> = Vec::new();
    let mut i: usize = 0;
    proof {
        assert(transitions_view(transitions@) =~= trans_upto(g, 0));
    }
    while i < m
        invariant
            i <= m,
            m == cfg.edges@.len(),
            transitions_view(transitions@) == trans_upto(g, i as int),
        decreases m - i,
    {
        let ghost e_v = g.edges[i as int];
        proof {
            assert(edge_in_range(g.edges[i as int], g.nodes.len() as int));
        }
        let ef = cfg.edges[i].from;
        let et = cfg.edges[i].to;
        if kind_is_decision(&cfg.nodes[ef.0]) {
            if kind_is_visible(&cfg.nodes[et.0]) {
                let ts = state_map[et.0].unwrap();
                let mut j: usize = 0;
                proof {
                    assert(g.edges.take(0) =~= Seq::<EdgeView>::empty());
                    assert(transitions_view(transitions@) =~= trans_upto(g, i as int)
                        + preds_trans(g, g.edges.take(0), e_v));
                }
                while j < m
                    invariant
                        j <= m,
                        transitions_view(transitions@) == trans_upto(g, i as int) + preds_trans(
                            g,
                            g.edges.take(j as int),
                            e_v,
                        ),
                    decreases m - j,
                {
                    proof {
                        assert(edge_in_range(g.edges[j as int], g.nodes.len() as int));
                        assert(g.edges.take(j as int + 1).drop_last() =~= g.edges.take(j as int));
                        assert(g.edges.take(j as int + 1).last() == g.edges[j as int]);
                    }
                    let ghost pre_trans = transitions@;
                    let e2f = cfg.edges[j].from;
                    if cfg.edges[j].to == ef {
                        match state_map[e2f.0] {
                            Option::Some(ps) => {
                                proof {
                                    assert(ps as int == state_of(g, g.edges[j as int].from));
                                    assert(ts as int == state_of(g, e_v.to));
                                }
                                let c = cfg.edges[i].condition();
                                proof {
                                    assert(match c {
                                        Option::Some(x) => edge_condition(e_v) == Option::Some(
                                            x@,
                                        ),
                                        Option::None => edge_condition(e_v) is None,
                                    });
                                }
                                transitions.push(
                                    Transition::new(StateId(ps), StateId(ts), c),
                                );
                                proof {
                                    assert(transitions_view(transitions@) =~= transitions_view(
                                        pre_trans,
                                    ).push(
                                        TransView {
                                            from: state_of(g, g.edges[j as int].from),
                                            to: state_of(g, e_v.to),
                                            cond: edge_condition(e_v),
                                        },
                                    ));
                                }
                            },
                            Option::None => {},
                        }
                    }
                    proof {
                        let last = g.edges[j as int];
                        if last.to == e_v.from && is_visible(g.nodes[last.from]) {
                            assert(preds_trans(g, g.edges.take(j as int + 1), e_v)
                                =~= preds_trans(g, g.edges.take(j as int), e_v).push(
                                TransView {
                                    from: state_of(g, last.from),
                                    to: state_of(g, e_v.to),
                                    cond: edge_condition(e_v),
                                },
                            ));
                        } else {
                            assert(preds_trans(g, g.edges.take(j as int + 1), e_v)
                                =~= preds_trans(g, g.edges.take(j as int), e_v));
                        }
                        assert(transitions_view(transitions@) =~= trans_upto(g, i as int)
                            + preds_trans(g, g.edges.take(j as int + 1), e_v));
                    }
                    j += 1;
                }
                proof {
                    assert(g.edges.take(m as int) =~= g.edges);
                }
            }
        } else {
            if kind_is_visible(&cfg.nodes[ef.0]) && kind_is_visible(&cfg.nodes[et.0]) {
                let fs = state_map[ef.0].unwrap();
                let ts = state_map[et.0].unwrap();
                transitions.push(
                    Transition::new(StateId(fs), StateId(ts), cfg.edges[i].condition()),
                );
            }
        }
        proof {
            assert(transitions_view(transitions@) =~= trans_upto(g, i as int + 1));
        }
        i += 1;
    }
    let r = FSMachine { states, transitions, start: StateId(start_idx), terminals };
    proof {
        assert(r@ == fsm_of(g));
    }
    r
}


/// A graph whose first node is the `Start` node derives a machine whose
/// state `0` is named `"START"`, so start resolution succeeds on it.
pub proof fn lemma_start_node_gives_start_state(nodes: Seq<NodeKindView>)
    requires
        nodes.len() > 0,
        nodes[0] is Start,
    ensures
        state_names(nodes).len() > 0,
        state_names(nodes)[0] == "START"@,
        find_start(state_names(nodes)) is Some,
    decreases nodes.len(),
{
    let rest = nodes.drop_last();
    if nodes.len() == 1 {
        assert(state_names(rest) =~= Seq::<Seq<char>>::empty());
        assert(nodes.last() == nodes[0]);
        assert(state_names(nodes) =~= seq!["START"@]);
    } else {
        assert(rest[0] == nodes[0]);
        lemma_start_node_gives_start_state(rest);
        assert(state_names(nodes)[0] == state_names(rest)[0]);
    }
    lemma_find_start_at_zero(state_names(nodes));
}

proof fn lemma_find_start_at_zero(names: Seq<Seq<char>>)
    requires
        names.len() > 0,
        names[0] == "START"@,
    ensures
        find_start(names) == Option::Some(0int),
{
}

/// Deriving the machine twice from the same graph yields identical
/// states, identical transitions in the same order, the same start
/// state and the same terminals: derivation is a pure function of the
/// frozen graph.
pub proof fn lemma_derivation_deterministic(cfg: &CFGraph, a: &FSMachine, b: &FSMachine)
    requires
        a@ == fsm_of(cfg@),
        b@ == fsm_of(cfg@),
    ensures
        a@.states == b@.states,
        a@.transitions == b@.transitions,
        a@.start == b@.start,
        a@.terminals == b@.terminals,
{
}

/// Lowers a statement sequence and derives its machine in one step:
/// the computing core behind building a machine from a diagram text,
/// once a front-end has produced the statement tree.
pub fn build_fsm(ast: &Vec<crate::ast_kind::ASTKind>) -> (r: Result<
    FSMachine,
    crate::lower::BuildError,
>)
    requires
        crate::lower::block_bounded(ast@),
    ensures
        match r {
            Result::Ok(m) => crate::lower::build_cfg_spec(ast@) matches Result::Ok(g) && m@
                == fsm_of(g),
            Result::Err(e) => crate::lower::build_cfg_spec(ast@) == Result::<
                GraphView,
                crate::lower::BuildErrorView,
            >::Err(e@),
        },
{
    match crate::lower::build_cfg(ast) {
        Result::Err(e) => Result::Err(e),
        Result::Ok(cfg) => {
            proof {
                lemma_start_node_gives_start_state(cfg@.nodes);
            }
            Result::Ok(cfg_to_fsm(&cfg))
        },
    }
}


/// A character needing an escape in DOT label text.
pub open spec fn dot_special(c: char) -> bool {
    c == '\\' || c == '"' || c == '\n'
}

/// The escaped form of one character: backslashes and quotes get a
/// leading backslash, a newline becomes backslash-n, all else stands.
pub open spec fn escape_char(c: char) -> Seq<char> {
    if c == '\\' {
        seq!['\\', '\\']
    } else if c == '"' {
        seq!['\\', '"']
    } else if c == '\n' {
        seq!['\\', 'n']
    } else {
        seq![c]
    }
}

/// The text with every character escaped for DOT.
pub open spec fn escape_of(s: Seq<char>) -> Seq<char>
    decreases s.len(),
{
    if s.len() == 0 {
        Seq::empty()
    } else {
        escape_of(s.drop_last()) + escape_char(s.last())
    }
}

proof fn lemma_escape_plain_run(s: Seq<char>, a: int, b: int)
    requires
        0 <= a <= b <= s.len(),
        forall|j: int| a <= j < b ==> !dot_special(#[trigger] s[j]),
    ensures
        escape_of(s.take(b)) == escape_of(s.take(a)) + s.subrange(a, b),
    decreases b - a,
{
    if a == b {
        assert(escape_of(s.take(b)) =~= escape_of(s.take(a)) + s.subrange(a, b));
    } else {
        lemma_escape_plain_run(s, a, b - 1);
        assert(s.take(b).drop_last() =~= s.take(b - 1));
        assert(s.take(b).last() == s[b - 1]);
        assert(!dot_special(s[b - 1]));
        assert(escape_char(s[b - 1]) =~= seq![s[b - 1]]);
        assert(escape_of(s.take(b)) =~= escape_of(s.take(a)) + s.subrange(a, b));
    }
}

/// Escapes backslashes, quotes and newlines for a DOT label.
#[verifier::loop_isolation(false)]
fn escape(s: &str) -> (r: String)
    ensures
        r@ == escape_of(s@),
{
    let n = s.unicode_len();
    let mut out = String::new();
    let mut start: usize = 0;
    let mut i: usize = 0;
    proof {
        assert(s@.take(0) =~= Seq::<char>::empty());
        assert(escape_of(s@.take(0)) =~= Seq::<char>::empty());
    }
    while i < n
        invariant
            start <= i <= n,
            n == s@.len(),
            out@ == escape_of(s@.take(start as int)),
            forall|j: int| start <= j < i ==> !dot_special(#[trigger] s@[j]),
        decreases n - i,
    {
        let c = s.get_char(i);
        if c == '\\' || c == '"' || c == '\n' {
            out.append(s.substring_char(start, i));
            proof {
                lemma_escape_plain_run(s@, start as int, i as int);
            }
            if c == '\\' {
                out.append("\\\\");
            } else if c == '"' {
                out.append("\\\"");
            } else {
                out.append("\\n");
            }
            proof {
                reveal_strlit("\\\\");
                reveal_strlit("\\\"");
                reveal_strlit("\\n");
                assert(s@.take(i as int + 1).drop_last() =~= s@.take(i as int));
                assert(out@ =~= escape_of(s@.take(i as int + 1)));
            }
            start = i + 1;
        }
        i += 1;
    }
    out.append(s.substring_char(start, n));
    proof {
        lemma_escape_plain_run(s@, start as int, n as int);
        assert(s@.take(n as int) =~= s@);
    }
    out
}

/// The DOT line defining state `i` of the machine: start and terminal
/// states are drawn as double circles.
pub open spec fn dot_state_line(f: FsmView, i: int) -> Seq<char> {
    "  S"@ + dec_of(i as nat) + " [label=\""@ + escape_of(f.states[i]) + "\", shape="@ + (if i
        == f.start || f.terminals.contains(i) {
        "doublecircle"@
    } else {
        "circle"@
    }) + "];\n"@
}

/// The DOT lines for the first `i` states.
pub open spec fn dot_state_lines(f: FsmView, i: int) -> Seq<char>
    decreases i,
{
    if i <= 0 {
        Seq::empty()
    } else {
        dot_state_lines(f, i - 1) + dot_state_line(f, i - 1)
    }
}

/// The DOT line for one transition: conditions become edge labels.
pub open spec fn dot_trans_line(t: TransView) -> Seq<char> {
    match t.cond {
        Option::Some(c) => "  S"@ + dec_of(t.from as nat) + " -> S"@ + dec_of(t.to as nat)
            + " [label=\""@ + escape_of(c) + "\"];\n"@,
        Option::None => "  S"@ + dec_of(t.from as nat) + " -> S"@ + dec_of(t.to as nat) + ";\n"@,
    }
}

/// The DOT lines for the first `i` transitions.
pub open spec fn dot_trans_lines(f: FsmView, i: int) -> Seq<char>
    decreases i,
{
    if i <= 0 {
        Seq::empty()
    } else {
        dot_trans_lines(f, i - 1) + dot_trans_line(f.transitions[i - 1])
    }
}

/// The machine rendered in Graphviz DOT form: a left-to-right digraph
/// with one node line per state and one edge line per transition, in
/// the machine's own stable order.
pub open spec fn dot_of(f: FsmView) -> Seq<char> {
    "digraph FSM {\n"@ + "  rankdir=LR;\n"@ + "\n"@ + dot_state_lines(f, f.states.len() as int)
        + "\n"@ + dot_trans_lines(f, f.transitions.len() as int) + "}\n"@
}

fn contains_id(v: &Vec<StateId>, x: StateId) -> (r: bool)
    ensures
        r == ids_view(v@).contains(x.0 as int),
{
    let n = v.len();
    let mut i: usize = 0;
    while i < n
        invariant
            i <= n,
            n == v@.len(),
            forall|j: int| 0 <= j < i ==> (#[trigger] ids_view(v@)[j]) != x.0 as int,
        decreases n - i,
    {
        if v[i] == x {
            proof {
                assert(ids_view(v@)[i as int] == x.0 as int);
            }
            return true;
        }
        proof {
            assert(ids_view(v@)[i as int] == v@[i as int].0 as int);
        }
        i += 1;
    }
    proof {
        assert(forall|j: int|
            0 <= j < ids_view(v@).len() ==> (#[trigger] ids_view(v@)[j]) != x.0 as int);
    }
    false
}

/// Renders the machine in Graphviz DOT form for visualization.
#[verifier::loop_isolation(false)]
#[verifier::rlimit(60)]
pub fn fsm_to_dot(fsm: &FSMachine) -> (r: String)
    ensures
        r@ == dot_of(fsm@),
{
    let mut out = String::new();
    out.append("digraph FSM {\n");
    out.append("  rankdir=LR;\n");
    out.append("\n");
    let ns = fsm.states.len();
    let mut i: usize = 0;
    proof {
        assert(out@ =~= "digraph FSM {\n"@ + "  rankdir=LR;\n"@ + "\n"@ + dot_state_lines(
            fsm@,
            0,
        ));
    }
    while i < ns
        invariant
            i <= ns,
            ns == fsm.states@.len(),
            out@ == "digraph FSM {\n"@ + "  rankdir=LR;\n"@ + "\n"@ + dot_state_lines(
                fsm@,
                i as int,
            ),
        decreases ns - i,
    {
        out.append("  S");
        out.append(usize_to_dec(i).as_str());
        out.append(" [label=\"");
        let esc = escape(fsm.states[i].as_str());
        out.append(esc.as_str());
        out.append("\", shape=");
        if i == fsm.start.0 || contains_id(&fsm.terminals, StateId(i)) {
            out.append("doublecircle");
        } else {
            out.append("circle");
        }
        out.append("];\n");
        proof {
            assert(fsm@.states[i as int] == fsm.states@[i as int]@);
            assert(out@ =~= "digraph FSM {\n"@ + "  rankdir=LR;\n"@ + "\n"@ + dot_state_lines(
                fsm@,
                i as int + 1,
            ));
        }
        i += 1;
    }
    out.append("\n");
    let nt = fsm.transitions.len();
    let mut i: usize = 0;
    proof {
        assert(out@ =~= "digraph FSM {\n"@ + "  rankdir=LR;\n"@ + "\n"@ + dot_state_lines(
            fsm@,
            ns as int,
        ) + "\n"@ + dot_trans_lines(fsm@, 0));
    }
    while i < nt
        invariant
            i <= nt,
            nt == fsm.transitions@.len(),
            out@ == "digraph FSM {\n"@ + "  rankdir=LR;\n"@ + "\n"@ + dot_state_lines(
                fsm@,
                ns as int,
            ) + "\n"@ + dot_trans_lines(fsm@, i as int),
        decreases nt - i,
    {
        let t = &fsm.transitions[i];
        out.append("  S");
        out.append(usize_to_dec(t.from().0).as_str());
        out.append(" -> S");
        out.append(usize_to_dec(t.to().0).as_str());
        match t.condition() {
            Option::Some(cond) => {
                out.append(" [label=\"");
                let esc = escape(cond.as_str());
                out.append(esc.as_str());
                out.append("\"];\n");
            },
            Option::None => {
                out.append(";\n");
            },
        }
        proof {
            assert(fsm@.transitions[i as int] == fsm.transitions@[i as int]@);
            assert(out@ =~= "digraph FSM {\n"@ + "  rankdir=LR;\n"@ + "\n"@ + dot_state_lines(
                fsm@,
                ns as int,
            ) + "\n"@ + dot_trans_lines(fsm@, i as int + 1));
        }
        i += 1;
    }
    out.append("}\n");
    out
}


proof fn lemma_names_len(nodes: Seq<NodeKindView>)
    ensures
        state_names(nodes).len() == visible_count(nodes),
        0 <= visible_count(nodes),
    decreases nodes.len(),
{
    if nodes.len() > 0 {
        lemma_names_len(nodes.drop_last());
    }
}

proof fn lemma_state_of_lt(nodes: Seq<NodeKindView>, j: int)
    requires
        0 <= j < nodes.len(),
        is_visible(nodes[j]),
    ensures
        0 <= visible_count(nodes.take(j)) < visible_count(nodes),
    decreases nodes.len(),
{
    lemma_names_len(nodes.take(j));
    if j == nodes.len() - 1 {
        assert(nodes.take(j) =~= nodes.drop_last());
        assert(nodes.last() == nodes[j]);
    } else {
        let rest = nodes.drop_last();
        assert(rest.take(j) =~= nodes.take(j));
        assert(rest[j] == nodes[j]);
        lemma_state_of_lt(rest, j);
    }
}

proof fn lemma_find_start_some(names: Seq<Seq<char>>)
    ensures
        find_start(names) matches Option::Some(i) ==> 0 <= i < names.len() && names[i]
            == "START"@,
    decreases names.len(),
{
    if names.len() > 0 && names[0] != "START"@ {
        lemma_find_start_some(names.drop_first());
    }
}

proof fn lemma_terminal_entries(nodes: Seq<NodeKindView>)
    ensures
        forall|k: int|
            0 <= k < terminal_ids(nodes).len() ==> 0 <= #[trigger] terminal_ids(nodes)[k]
                < state_names(nodes).len() && state_names(nodes)[terminal_ids(nodes)[k]]
                == "END"@,
    decreases nodes.len(),
{
    if nodes.len() > 0 {
        let rest = nodes.drop_last();
        lemma_terminal_entries(rest);
        lemma_names_len(rest);
        assert forall|k: int|
            0 <= k < terminal_ids(nodes).len() implies 0 <= #[trigger] terminal_ids(nodes)[k]
                < state_names(nodes).len() && state_names(nodes)[terminal_ids(nodes)[k]]
                == "END"@ by {
            if k < terminal_ids(rest).len() {
                assert(terminal_ids(nodes)[k] == terminal_ids(rest)[k]);
                assert(state_names(nodes)[terminal_ids(rest)[k]] == state_names(
                    rest,
                )[terminal_ids(rest)[k]]);
            } else {
                assert(nodes.last() is End);
                assert(terminal_ids(nodes)[k] == visible_count(rest));
                assert(state_names(nodes)[visible_count(rest)] == state_name(nodes.last()));
            }
        }
    }
}

proof fn lemma_preds_trans_wf(g: GraphView, edges: Seq<EdgeView>, e: EdgeView)
    requires
        forall|i: int| 0 <= i < edges.len() ==> #[trigger] edge_in_range(edges[i], g.nodes.len() as int),
        edge_in_range(e, g.nodes.len() as int),
        is_visible(g.nodes[e.to]),
    ensures
        forall|k: int|
            0 <= k < preds_trans(g, edges, e).len() ==> 0 <= (#[trigger] preds_trans(
                g,
                edges,
                e,
            )[k]).from < visible_count(g.nodes) && 0 <= preds_trans(g, edges, e)[k].to
                < visible_count(g.nodes),
    decreases edges.len(),
{
    if edges.len() > 0 {
        let rest = edges.drop_last();
        assert forall|i: int|
            0 <= i < rest.len() implies #[trigger] edge_in_range(rest[i], g.nodes.len() as int) by {
            assert(rest[i] == edges[i]);
        }
        lemma_preds_trans_wf(g, rest, e);
        lemma_state_of_lt(g.nodes, e.to);
        assert(edge_in_range(edges.last(), g.nodes.len() as int));
        if edges.last().to == e.from && is_visible(g.nodes[edges.last().from]) {
            lemma_state_of_lt(g.nodes, edges.last().from);
        }
        assert forall|k: int|
            0 <= k < preds_trans(g, edges, e).len() implies 0 <= (#[trigger] preds_trans(
                g,
                edges,
                e,
            )[k]).from < visible_count(g.nodes) && 0 <= preds_trans(g, edges, e)[k].to
                < visible_count(g.nodes) by {
            if k < preds_trans(g, rest, e).len() {
                assert(preds_trans(g, edges, e)[k] == preds_trans(g, rest, e)[k]);
            }
        }
    }
}

proof fn lemma_trans_upto_wf(g: GraphView, i: int)
    requires
        edges_in_range(g),
        0 <= i <= g.edges.len(),
    ensures
        forall|k: int|
            0 <= k < trans_upto(g, i).len() ==> 0 <= (#[trigger] trans_upto(g, i)[k]).from
                < visible_count(g.nodes) && 0 <= trans_upto(g, i)[k].to < visible_count(g.nodes),
    decreases i,
{
    if i > 0 {
        lemma_trans_upto_wf(g, i - 1);
        let e = g.edges[i - 1];
        assert(edge_in_range(e, g.nodes.len() as int));
        let from_kind = g.nodes[e.from];
        let to_kind = g.nodes[e.to];
        if from_kind is Decision && is_visible(to_kind) {
            lemma_preds_trans_wf(g, g.edges, e);
        } else if is_visible(from_kind) && is_visible(to_kind) {
            lemma_state_of_lt(g.nodes, e.from);
            lemma_state_of_lt(g.nodes, e.to);
        }
        assert forall|k: int|
            0 <= k < trans_upto(g, i).len() implies 0 <= (#[trigger] trans_upto(g, i)[k]).from
                < visible_count(g.nodes) && 0 <= trans_upto(g, i)[k].to < visible_count(
                g.nodes,
            ) by {
            if k < trans_upto(g, i - 1).len() {
                assert(trans_upto(g, i)[k] == trans_upto(g, i - 1)[k]);
            } else {
                assert(trans_upto(g, i)[k] == edge_trans(g, e)[k - trans_upto(g, i - 1).len()]);
            }
        }
    }
}

/// The derived machine is internally consistent: the start state and
/// every terminal are valid indices into the state-name list, the start
/// state is named `"START"`, every terminal state is named `"END"`, and
/// every transition runs between valid states.
pub proof fn lemma_fsm_of_wf(g: GraphView)
    requires
        edges_in_range(g),
        fsm_has_start(g),
    ensures
        ({
            let f = fsm_of(g);
            &&& 0 <= f.start < f.states.len()
            &&& f.states[f.start] == "START"@
            &&& forall|k: int|
                0 <= k < f.terminals.len() ==> 0 <= #[trigger] f.terminals[k] < f.states.len()
                    && f.states[f.terminals[k]] == "END"@
            &&& forall|k: int|
                0 <= k < f.transitions.len() ==> 0 <= (#[trigger] f.transitions[k]).from
                    < f.states.len() && 0 <= f.transitions[k].to < f.states.len()
        }),
{
    lemma_names_len(g.nodes);
    lemma_find_start_some(state_names(g.nodes));
    lemma_terminal_entries(g.nodes);
    lemma_trans_upto_wf(g, g.edges.len() as int);
}

} // verus!
