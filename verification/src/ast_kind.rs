//! The nested statement model: a tagged-variant tree describing
//! structured control flow, produced by a parsing front-end and consumed
//! by the lowering pass.

use vstd::prelude::*;

verus! {

/// One guarded block: a condition (opaque text, never evaluated) and the
/// ordered statement sequence it guards.
#[derive(Debug)]
pub struct CondBody {
    pub cond: String,
    pub body: Vec<ASTKind>,
}

/// An `if`/`elseif`/`else` statement: the guarded arms in source order,
/// and the (possibly empty) else body.
#[derive(Debug)]
pub struct IfElseBlock {
    pub if_elif: Vec<CondBody>,
    pub else_: Vec<ASTKind>,
}

/// A statement of the control-flow language.
///
/// `body` sequences are ordered; order is semantically meaningful.
#[derive(Debug)]
pub enum ASTKind {
    /// A plain action, carrying its text.
    SimpleStmt(String),
    /// A call to a named external activity.
    ActivityRef(String),
    /// A while loop: condition text and body.
    While(CondBody),
    /// A multi-way branch: one arm per condition.
    Case(Vec<CondBody>),
    /// An if/elseif/else statement.
    IfElse(IfElseBlock),
    /// A jump target; defines the name for `Goto`.
    Label(String),
    /// An unconditional jump to a label, possibly a forward reference.
    Goto(String),
    /// A jump to the exit of the innermost enclosing loop.
    Break,
    /// A terminal statement.
    Stop,
}

} // verus!
