use ad2fsm::build_cfg;
use ad2fsm::build_fsm;
use ad2fsm::cfg_to_fsm;
use ad2fsm::ASTKind;
use ad2fsm::BuildError;
use ad2fsm::CondBody;
use ad2fsm::FSMachine;
use ad2fsm::IfElseBlock;
use ad2fsm::NodeId;

fn action(text: &str) -> ASTKind {
    ASTKind::SimpleStmt(text.to_string())
}

fn while_loop(cond: &str, body: Vec<ASTKind>) -> ASTKind {
    ASTKind::While(CondBody {
        cond: cond.to_string(),
        body,
    })
}

fn if_else(branches: Vec<(&str, Vec<ASTKind>)>, else_body: Vec<ASTKind>) -> ASTKind {
    ASTKind::IfElse(IfElseBlock {
        if_elif: branches
            .into_iter()
            .map(|(c, body)| CondBody {
                cond: c.to_string(),
                body,
            })
            .collect(),
        else_: else_body,
    })
}

fn transition_triples(fsm: &FSMachine) -> Vec<(usize, usize, Option<String>)> {
    fsm.transitions()
        .iter()
        .map(|t| (t.from().0, t.to().0, t.condition().clone()))
        .collect()
}

fn has_edge(cfg: &ad2fsm::CFGraph, from: usize, to: usize) -> bool {
    cfg.edges
        .iter()
        .any(|e| e.from == NodeId(from) && e.to == NodeId(to))
}

#[test]
fn derivation_is_deterministic() {
    let ast = vec![
        if_else(vec![("x > 0", vec![action("pos")])], vec![action("neg")]),
        ASTKind::Stop,
    ];
    let cfg = build_cfg(&ast).unwrap();
    let a = cfg_to_fsm(&cfg);
    let b = cfg_to_fsm(&cfg);
    assert_eq!(a.state_map(), b.state_map());
    assert_eq!(transition_triples(&a), transition_triples(&b));
    assert_eq!(a.start_id(), b.start_id());
    assert_eq!(a.terminals(), b.terminals());
}

#[test]
fn sequential_and_stop() {
    let ast = vec![action("a"), ASTKind::Stop];
    let fsm = build_fsm(&ast).unwrap();
    assert_eq!(fsm.state_map(), &vec!["START".to_string(), "a".to_string(), "END".to_string()]);
    assert_eq!(
        transition_triples(&fsm),
        vec![(0, 1, None), (1, 2, None)]
    );
    assert_eq!(fsm.start_id().0, 0);
    assert_eq!(fsm.terminals(), &vec![ad2fsm::StateId(2)]);
}

#[test]
fn if_else_convergence() {
    let ast = vec![
        if_else(vec![("x>0", vec![action("pos")])], vec![action("neg")]),
        ASTKind::Stop,
    ];
    let fsm = build_fsm(&ast).unwrap();
    // states in node order: START, if_end, pos, neg, END
    assert_eq!(
        fsm.state_map(),
        &vec![
            "START".to_string(),
            "if_end".to_string(),
            "pos".to_string(),
            "neg".to_string(),
            "END".to_string()
        ]
    );
    let ts = transition_triples(&fsm);
    // two conditioned transitions out of START, one per branch; the else
    // ordinal is branch count + 1, preserving the documented gap
    assert!(ts.contains(&(0, 2, Some("x>0 0 x>0".to_string()))));
    assert!(ts.contains(&(0, 3, Some(" 2 else".to_string()))));
    // both arms converge unconditionally on the merge state
    assert!(ts.contains(&(2, 1, None)));
    assert!(ts.contains(&(3, 1, None)));
    // and the merge state runs on to END unconditionally
    assert!(ts.contains(&(1, 4, None)));
    assert_eq!(ts.len(), 5);
}

#[test]
fn loop_shape() {
    let ast = vec![while_loop("n>0", vec![action("dec")]), ASTKind::Stop];
    let fsm = build_fsm(&ast).unwrap();
    // states in node order: START, while_end, dec, END
    assert_eq!(
        fsm.state_map(),
        &vec![
            "START".to_string(),
            "while_end".to_string(),
            "dec".to_string(),
            "END".to_string()
        ]
    );
    let ts = transition_triples(&fsm);
    // the erased decision has two predecessors, START and dec, and both
    // are pushed through to each of its targets
    assert_eq!(
        ts,
        vec![
            (0, 2, Some(" 0 true".to_string())),
            (2, 2, Some(" 0 true".to_string())),
            (0, 1, Some(" 1 false".to_string())),
            (2, 1, Some(" 1 false".to_string())),
            (1, 3, None),
        ]
    );
}

#[test]
fn forward_goto_resolves() {
    let ast = vec![
        ASTKind::Goto("L".to_string()),
        action("unreachable-marker"),
        ASTKind::Label("L".to_string()),
        action("target"),
        ASTKind::Stop,
    ];
    let cfg = build_cfg(&ast).unwrap();
    // the goto node (1) links directly to the node standing at the
    // label's position (2), and the whole build succeeds
    assert!(has_edge(&cfg, 1, 2));
    let fsm = cfg_to_fsm(&cfg);
    assert_eq!(fsm.start_id().0, 0);
}

#[test]
fn undefined_label_fails_closed() {
    let ast = vec![ASTKind::Goto("missing".to_string())];
    let err = build_cfg(&ast).unwrap_err();
    assert!(matches!(err, BuildError::UndefinedLabel(name) if name == "missing"));
    let err2 = build_fsm(&ast).unwrap_err();
    assert!(matches!(err2, BuildError::UndefinedLabel(name) if name == "missing"));
}

#[test]
fn break_outside_loop_fails_without_crash() {
    let ast = vec![ASTKind::Break];
    let err = build_cfg(&ast).unwrap_err();
    assert!(matches!(err, BuildError::BreakOutsideLoop));
}

#[test]
fn break_inside_if_without_loop_fails() {
    let ast = vec![if_else(vec![("c", vec![ASTKind::Break])], vec![])];
    let err = build_cfg(&ast).unwrap_err();
    assert!(matches!(err, BuildError::BreakOutsideLoop));
}

#[test]
fn nested_break_targets_innermost() {
    let ast = vec![
        while_loop(
            "outer",
            vec![while_loop("inner", vec![action("w"), ASTKind::Break])],
        ),
        ASTKind::Stop,
    ];
    let cfg = build_cfg(&ast).unwrap();
    // nodes: 0 start, 1 outer decision, 2 outer exit, 3 inner decision,
    // 4 inner exit, 5 action "w", 6 break
    assert!(has_edge(&cfg, 6, 4));
    assert!(!has_edge(&cfg, 6, 2));
}

#[test]
fn case_arms_share_merge() {
    let ast = vec![
        ASTKind::Case(vec![
            CondBody {
                cond: "one".to_string(),
                body: vec![action("a")],
            },
            CondBody {
                cond: "two".to_string(),
                body: vec![action("b")],
            },
        ]),
        ASTKind::Stop,
    ];
    let fsm = build_fsm(&ast).unwrap();
    // states in node order: START, case_end, a, b, END
    assert_eq!(
        fsm.state_map(),
        &vec![
            "START".to_string(),
            "case_end".to_string(),
            "a".to_string(),
            "b".to_string(),
            "END".to_string()
        ]
    );
    let ts = transition_triples(&fsm);
    assert!(ts.contains(&(0, 2, Some(" 0 one".to_string()))));
    assert!(ts.contains(&(0, 3, Some(" 1 two".to_string()))));
    assert!(ts.contains(&(2, 1, None)));
    assert!(ts.contains(&(3, 1, None)));
    assert!(ts.contains(&(1, 4, None)));
}

#[test]
fn two_statement_branch_body_conditions_its_entry() {
    let ast = vec![
        if_else(vec![("c", vec![action("a"), action("b")])], vec![]),
        ASTKind::Stop,
    ];
    let fsm = build_fsm(&ast).unwrap();
    // states in node order: START, if_end, a, b, END
    assert_eq!(
        fsm.state_map(),
        &vec![
            "START".to_string(),
            "if_end".to_string(),
            "a".to_string(),
            "b".to_string(),
            "END".to_string()
        ]
    );
    // the branch condition sits on the edge into the body's entry `a`,
    // so the predecessor reaches `a` under the condition and `b` only
    // through `a`; nothing skips to the body's exit
    let ts = transition_triples(&fsm);
    assert_eq!(
        ts,
        vec![
            (0, 2, Some("c 0 c".to_string())),
            (2, 3, None),
            (3, 1, None),
            (1, 4, None),
        ]
    );
}

#[test]
fn two_statement_else_body_conditions_its_entry() {
    let ast = vec![
        if_else(
            vec![("c", vec![action("a")])],
            vec![action("x"), action("y")],
        ),
        ASTKind::Stop,
    ];
    let fsm = build_fsm(&ast).unwrap();
    // states in node order: START, if_end, a, x, y, END
    assert_eq!(
        fsm.state_map(),
        &vec![
            "START".to_string(),
            "if_end".to_string(),
            "a".to_string(),
            "x".to_string(),
            "y".to_string(),
            "END".to_string()
        ]
    );
    // the else descriptor sits on the edge into the else body's entry
    // `x`; `y` is reached only through `x`
    let ts = transition_triples(&fsm);
    assert_eq!(
        ts,
        vec![
            (0, 2, Some("c 0 c".to_string())),
            (2, 1, None),
            (0, 3, Some(" 2 else".to_string())),
            (3, 4, None),
            (4, 1, None),
            (1, 5, None),
        ]
    );
}

#[test]
fn two_statement_while_body_conditions_its_entry() {
    let ast = vec![
        while_loop("w", vec![action("a"), action("b")]),
        ASTKind::Stop,
    ];
    let fsm = build_fsm(&ast).unwrap();
    // states in node order: START, while_end, a, b, END
    assert_eq!(
        fsm.state_map(),
        &vec![
            "START".to_string(),
            "while_end".to_string(),
            "a".to_string(),
            "b".to_string(),
            "END".to_string()
        ]
    );
    // the {0, true} descriptor sits on the edge into the body's entry
    // `a`; the body's exit `b` carries only the back-edge
    let ts = transition_triples(&fsm);
    assert_eq!(
        ts,
        vec![
            (0, 2, Some(" 0 true".to_string())),
            (3, 2, Some(" 0 true".to_string())),
            (2, 3, None),
            (0, 1, Some(" 1 false".to_string())),
            (3, 1, Some(" 1 false".to_string())),
            (1, 4, None),
        ]
    );
}

#[test]
fn two_statement_case_arm_conditions_its_entry() {
    let ast = vec![
        ASTKind::Case(vec![CondBody {
            cond: "k".to_string(),
            body: vec![action("a"), action("b")],
        }]),
        ASTKind::Stop,
    ];
    let fsm = build_fsm(&ast).unwrap();
    assert_eq!(
        fsm.state_map(),
        &vec![
            "START".to_string(),
            "case_end".to_string(),
            "a".to_string(),
            "b".to_string(),
            "END".to_string()
        ]
    );
    let ts = transition_triples(&fsm);
    assert_eq!(
        ts,
        vec![
            (0, 2, Some(" 0 k".to_string())),
            (2, 3, None),
            (3, 1, None),
            (1, 4, None),
        ]
    );
}

#[test]
fn if_without_else_has_no_else_branch() {
    let ast = vec![if_else(vec![("c", vec![action("a")])], vec![]), ASTKind::Stop];
    let fsm = build_fsm(&ast).unwrap();
    assert_eq!(
        fsm.state_map(),
        &vec![
            "START".to_string(),
            "if_end".to_string(),
            "a".to_string(),
            "END".to_string()
        ]
    );
    let ts = transition_triples(&fsm);
    assert_eq!(
        ts,
        vec![
            (0, 2, Some("c 0 c".to_string())),
            (2, 1, None),
            (1, 3, None),
        ]
    );
}

#[test]
fn while_with_empty_body_exits_only() {
    let ast = vec![while_loop("c", vec![]), ASTKind::Stop];
    let fsm = build_fsm(&ast).unwrap();
    // the empty body makes the decision its own exit; the self-edge on
    // the erased decision yields no transition, so only the false
    // branch survives
    assert_eq!(
        fsm.state_map(),
        &vec!["START".to_string(), "while_end".to_string(), "END".to_string()]
    );
    let ts = transition_triples(&fsm);
    assert_eq!(ts, vec![(0, 1, Some(" 1 false".to_string())), (1, 2, None)]);
}

#[test]
fn activity_call_becomes_call_action() {
    let ast = vec![ASTKind::ActivityRef("Validate".to_string()), ASTKind::Stop];
    let fsm = build_fsm(&ast).unwrap();
    assert_eq!(
        fsm.state_map(),
        &vec![
            "START".to_string(),
            "call Validate".to_string(),
            "END".to_string()
        ]
    );
}

#[test]
fn later_label_shadows_earlier() {
    let ast = vec![
        ASTKind::Label("L".to_string()),
        action("x"),
        ASTKind::Label("L".to_string()),
        ASTKind::Goto("L".to_string()),
        ASTKind::Stop,
    ];
    let cfg = build_cfg(&ast).unwrap();
    // the goto node (2) resolves against the later definition, which
    // points at the exit of "x" (node 1), not at the start node
    assert!(has_edge(&cfg, 2, 1));
    assert!(!has_edge(&cfg, 2, 0));
}
