use ad2fsm::build_fsm;
use ad2fsm::escape_string;
use ad2fsm::fsm_to_dot;
use ad2fsm::sanitize_enum_name;
use ad2fsm::sanitize_fn_name;
use ad2fsm::ASTKind;
use ad2fsm::CfgBuilder;
use ad2fsm::CfgCond;
use ad2fsm::CfgEdge;
use ad2fsm::CfgNodeKind;
use ad2fsm::ContextDecl;
use ad2fsm::Name;
use ad2fsm::NodeId;
use ad2fsm::ParseContext;
use ad2fsm::PrimitiveType;
use ad2fsm::QualifiedName;
use ad2fsm::SexpOptions;
use ad2fsm::StateId;
use ad2fsm::Transition;
use ad2fsm::Type;
use ad2fsm::TypeDecl;

#[test]
fn cond_renders_with_ordinal_and_name() {
    let c = CfgCond::new(7, "x > 0".to_string());
    assert_eq!(c.seq(), 7);
    assert_eq!(c.name(), &"x > 0".to_string());
    assert_eq!(c.to_string(), " 7 x > 0");
}

#[test]
fn cond_renders_large_ordinals() {
    let c = CfgCond::new(1234567890123, "k".to_string());
    assert_eq!(c.to_string(), " 1234567890123 k");
}

#[test]
fn edge_condition_concatenates_label_and_descriptor() {
    let both = CfgEdge::new(
        NodeId(0),
        NodeId(1),
        Some("x>0".to_string()),
        Some(CfgCond::new(0, "x>0".to_string())),
    );
    assert_eq!(both.condition(), Some("x>0 0 x>0".to_string()));

    let label_only = CfgEdge::new(NodeId(0), NodeId(1), Some("lbl".to_string()), None);
    assert_eq!(label_only.condition(), Some("lbl".to_string()));

    let cond_only = CfgEdge::new(NodeId(0), NodeId(1), None, Some(CfgCond::new(1, "false".to_string())));
    assert_eq!(cond_only.condition(), Some(" 1 false".to_string()));

    let neither = CfgEdge::new(NodeId(0), NodeId(1), None, None);
    assert_eq!(neither.condition(), None);
}

#[test]
fn builder_merges_duplicate_edges() {
    let (mut builder, start) = CfgBuilder::new();
    let n = builder.new_node(CfgNodeKind::Action("a".to_string()));
    builder.edge(CfgEdge::new(start, n, None, None));
    builder.edge(CfgEdge::new(
        start,
        n,
        Some("c".to_string()),
        Some(CfgCond::new(0, "c".to_string())),
    ));
    assert_eq!(builder.cfg.edges.len(), 1);
    assert_eq!(builder.cfg.edges[0].condition(), Some("c 0 c".to_string()));
}

#[test]
fn builder_keeps_first_set_fields_on_merge() {
    let (mut builder, start) = CfgBuilder::new();
    let n = builder.new_node(CfgNodeKind::Action("a".to_string()));
    builder.edge(CfgEdge::new(start, n, Some("first".to_string()), None));
    builder.edge(CfgEdge::new(start, n, Some("second".to_string()), None));
    assert_eq!(builder.cfg.edges.len(), 1);
    assert_eq!(builder.cfg.edges[0].condition(), Some("first".to_string()));
}

#[test]
fn transition_accessors() {
    let t = Transition::new(StateId(3), StateId(5), Some("c".to_string()));
    assert_eq!(t.from(), StateId(3));
    assert_eq!(t.to(), StateId(5));
    assert_eq!(t.condition(), &Some("c".to_string()));
}

#[test]
fn dot_of_simple_machine() {
    let ast = vec![ASTKind::SimpleStmt("a".to_string()), ASTKind::Stop];
    let fsm = build_fsm(&ast).unwrap();
    let dot = fsm_to_dot(&fsm);
    let expected = "digraph FSM {\n  rankdir=LR;\n\n  S0 [label=\"START\", shape=doublecircle];\n  S1 [label=\"a\", shape=circle];\n  S2 [label=\"END\", shape=doublecircle];\n\n  S0 -> S1;\n  S1 -> S2;\n}\n";
    assert_eq!(dot, expected);
}

#[test]
fn dot_escapes_label_text() {
    let ast = vec![ASTKind::SimpleStmt("say \"hi\"\\now".to_string()), ASTKind::Stop];
    let fsm = build_fsm(&ast).unwrap();
    let dot = fsm_to_dot(&fsm);
    assert!(dot.contains("say \\\"hi\\\"\\\\now"));
}

#[test]
fn sanitize_lowercases_and_spells_operators() {
    assert_eq!(sanitize_fn_name("ABC"), "abc");
    assert_eq!(sanitize_fn_name("X > 0"), "x__gt__0");
    assert_eq!(sanitize_fn_name("a=b"), "a_eq_b");
    assert_eq!(sanitize_fn_name("a<b"), "a_lt_b");
    assert_eq!(sanitize_fn_name("a && b"), "a__and__b");
    assert_eq!(sanitize_fn_name("a || b"), "a__or__b");
    assert_eq!(sanitize_fn_name("a.b"), "a_b");
    assert_eq!(sanitize_fn_name("!abc!"), "abc");
    assert_eq!(sanitize_fn_name("a & b"), "a___b");
}

#[test]
fn sanitize_enum_name_appends_id() {
    assert_eq!(sanitize_enum_name("Run", &StateId(3)), "run_3");
    assert_eq!(sanitize_enum_name("if_end", &StateId(0)), "if_end_0");
}

#[test]
fn name_rejects_empty() {
    let err = Name::new("".to_string()).unwrap_err();
    assert_eq!(err, "empty name");
    let n = Name::new("state".to_string()).unwrap();
    assert_eq!(n.as_str(), "state");
}

#[test]
fn type_decl_requires_a_field() {
    let name = Name::new("T".to_string()).unwrap();
    let err = TypeDecl::new(name, vec![]).unwrap_err();
    assert_eq!(err, "type must have at least one field");

    let name = Name::new("T".to_string()).unwrap();
    let field = Name::new("f".to_string()).unwrap();
    let decl = TypeDecl::new(name, vec![(field, Type::Primitive(PrimitiveType::Int))]).unwrap();
    assert_eq!(decl.name().as_str(), "T");
    assert_eq!(decl.fields().len(), 1);
}

#[test]
fn context_decl_keeps_fields() {
    let name = Name::new("Ctx".to_string()).unwrap();
    let field = Name::new("count".to_string()).unwrap();
    let decl = ContextDecl::new(name, vec![(field, Type::Primitive(PrimitiveType::Bool))]).unwrap();
    assert_eq!(decl.name().as_str(), "Ctx");
    assert_eq!(decl.fields().len(), 1);
}

#[test]
fn qualified_name_paths() {
    let local = QualifiedName::local(Name::new("a".to_string()).unwrap());
    assert_eq!(local.name().as_str(), "a");
    assert_eq!(local.path(), None);

    let with_path = QualifiedName::with_path("pkg".to_string(), Name::new("b".to_string()).unwrap());
    assert_eq!(with_path.name().as_str(), "b");
    assert_eq!(with_path.path(), Some("pkg"));
}

#[test]
fn escape_string_handles_named_and_numbered_escapes() {
    assert_eq!(escape_string("plain text"), "plain text");
    assert_eq!(escape_string("a\"b"), "a\\\"b");
    assert_eq!(escape_string("a\\b"), "a\\\\b");
    assert_eq!(escape_string("a\nb\rc\td"), "a\\nb\\rc\\td");
    assert_eq!(escape_string("a\u{8}b\u{c}c"), "a\\bb\\fc");
    assert_eq!(escape_string("a\u{1}b"), "a\\u0001b");
    assert_eq!(escape_string("a\u{9f}b"), "a\\u009fb");
}

#[test]
fn parse_context_and_sexp_defaults() {
    let _ctx = ParseContext::new("@startuml".to_string());
    let opts = SexpOptions::default();
    assert!(opts.show_text);
    assert!(!opts.show_byte_range);
    assert!(!opts.show_position);
    assert_eq!(opts.max_text_length, Some(100));
}
