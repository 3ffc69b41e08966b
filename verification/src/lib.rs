//! Lowering of structured control flow to a control-flow graph (CFG) and
//! flattening of that graph into a finite state machine (FSM) with only
//! visible states and direct, condition-labelled transitions.

pub mod ast_kind;
pub mod cf_graph;
pub mod cfg_builder;
pub mod cfg_cond;
pub mod cfg_node_kind;
pub mod csharp;
pub mod fs_machine;
pub mod lower;
pub mod parse_context;
pub mod parse_error;
pub mod scl_ast;
pub mod text;
pub mod transition;

pub use ast_kind::ASTKind;
pub use ast_kind::CondBody;
pub use ast_kind::IfElseBlock;
pub use cf_graph::CFGraph;
pub use cfg_builder::CfgBuilder;
pub use cfg_cond::CfgCond;
pub use cfg_cond::CfgEdge;
pub use cfg_node_kind::CfgNodeKind;
pub use cfg_node_kind::NodeId;
pub use csharp::DispatcherTemplate;
pub use csharp::StateEnumTemplate;
pub use csharp::TransitionTemplate;
pub use csharp::TransitionView;
pub use csharp::sanitize_enum_name;
pub use csharp::sanitize_fn_name;
pub use fs_machine::FSMachine;
pub use fs_machine::build_fsm;
pub use fs_machine::lemma_derivation_deterministic;
pub use fs_machine::lemma_fsm_of_wf;
pub use fs_machine::cfg_to_fsm;
pub use fs_machine::fsm_to_dot;
pub use lower::BuildError;
pub use lower::build_cfg;
pub use lower::lower_block;
pub use lower::lower_stmt;
pub use lower::lemma_break_targets_top;
pub use lower::lemma_while_body_sees_own_exit;
pub use lower::resolve_gotos_step2;
pub use parse_context::ParseContext;
pub use parse_error::SexpOptions;
pub use parse_error::escape_string;
pub use scl_ast::BinaryOp;
pub use scl_ast::CompareOp;
pub use scl_ast::ContextDecl;
pub use scl_ast::Name;
pub use scl_ast::PrimitiveType;
pub use scl_ast::QualifiedName;
pub use scl_ast::Type;
pub use scl_ast::TypeDecl;
pub use scl_ast::UseStmt;
pub use transition::StateId;
pub use transition::Transition;
