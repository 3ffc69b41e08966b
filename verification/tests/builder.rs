use ad2fsm::build_cfg;
use ad2fsm::cfg_to_fsm;
use ad2fsm::fsm_to_dot;
use ad2fsm::sanitize_enum_name;
use ad2fsm::ASTKind;
use ad2fsm::CondBody;
use ad2fsm::IfElseBlock;

fn action(text: &str) -> ASTKind {
    ASTKind::SimpleStmt(text.to_string())
}

fn while_loop(cond: &str, body: Vec<ASTKind>) -> ASTKind {
    ASTKind::While(CondBody {
        cond: cond.to_string(),
        body,
    })
}

fn if_else(branches: Vec<(&str, Vec<ASTKind>)>, else_body: Vec<ASTKind>) -> ASTKind {
    ASTKind::IfElse(IfElseBlock {
        if_elif: branches
            .into_iter()
            .map(|(c, body)| CondBody {
                cond: c.to_string(),
                body,
            })
            .collect(),
        else_: else_body,
    })
}

/// The statement trees of the sample diagrams: a break inside a while,
/// a forward goto to a label, a goto looping back to a label, if/else,
/// if/elseif/else, a post-tested loop, a plain action sequence, a bare
/// stop, and a while loop.
fn sample_trees() -> Vec<Vec<ASTKind>> {
    vec![
        // break-in-while
        vec![
            while_loop("i < 10", vec![action("work"), ASTKind::Break]),
            ASTKind::Stop,
        ],
        // goto-label
        vec![
            ASTKind::Goto("L".to_string()),
            action("skipped"),
            ASTKind::Label("L".to_string()),
            action("target"),
            ASTKind::Stop,
        ],
        // goto-loop
        vec![
            ASTKind::Label("top".to_string()),
            action("step"),
            ASTKind::Goto("top".to_string()),
            ASTKind::Stop,
        ],
        // if-else
        vec![
            if_else(vec![("x > 0", vec![action("pos")])], vec![action("neg")]),
            ASTKind::Stop,
        ],
        // if-elseif-else
        vec![
            if_else(
                vec![
                    ("x > 0", vec![action("pos")]),
                    ("x < 0", vec![action("neg")]),
                ],
                vec![action("zero")],
            ),
            ASTKind::Stop,
        ],
        // repeat-while
        vec![
            action("body"),
            while_loop("again", vec![action("body")]),
            ASTKind::Stop,
        ],
        // simple
        vec![action("first"), action("second"), ASTKind::Stop],
        // stop
        vec![ASTKind::Stop],
        // while
        vec![while_loop("n > 0", vec![action("dec")]), ASTKind::Stop],
    ]
}

#[test]
fn builder_test_builder() {
    for ast in sample_trees() {
        let cfg = build_cfg(&ast).unwrap();
        let fsm = cfg_to_fsm(&cfg);
        let dot = fsm_to_dot(&fsm);
        println!("{}", dot);
    }
}

#[test]
fn test_csharp_gen_test_builder() {
    let ast = vec![
        if_else(
            vec![
                ("x > 0", vec![action("pos")]),
                ("x < 0", vec![action("neg")]),
            ],
            vec![action("zero")],
        ),
        ASTKind::Stop,
    ];
    let cfg = build_cfg(&ast).unwrap();
    let fsm = cfg_to_fsm(&cfg);
    let dot = fsm_to_dot(&fsm);
    println!("{}", &dot);
    for (id, name) in fsm.state_map().iter().enumerate() {
        let ident = sanitize_enum_name(name, &ad2fsm::StateId(id));
        assert!(!ident.starts_with('_'));
        assert!(!ident.ends_with('_'));
    }
}
