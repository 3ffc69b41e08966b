//! Data shapes of a declarative state-transition language: names,
//! types, and the declarations that carry them. These are pure data
//! with validated constructors; no lowering is defined on them.

use vstd::prelude::*;

verus! {

/// A binary operator of the language's expressions.
#[derive(Clone, Copy, Debug, PartialEq, Eq)]
pub enum BinaryOp {
    Eq,
    Neq,
    Lt,
    Le,
    Gt,
    Ge,
    Add,
    Sub,
    Mul,
    Div,
    And,
    Or,
    Implies,
}

/// A comparison operator of the language's conditions.
#[derive(Clone, Copy, Debug, PartialEq, Eq)]
pub enum CompareOp {
    Eq,
    Neq,
    Lt,
    Le,
    Gt,
    Ge,
}

/// A non-empty identifier.
#[derive(Debug, PartialEq, Eq, Hash)]
pub struct Name(String);

impl View for Name {
    type V = Seq<char>;

    closed spec fn view(&self) -> Seq<char> {
        self.0@
    }
}

impl Name {
    /// A name must not be empty.
    pub fn new(s: String) -> (r: Result<Name, String>)
        ensures
            match r {
                Result::Ok(n) => s@.len() > 0 && n@ == s@,
                Result::Err(m) => s@.len() == 0 && m@ == "empty name"@,
            },
    {
        if s.as_str().unicode_len() == 0 {
            return Result::Err(String::from_str("empty name"));
        }
        Result::Ok(Name(s))
    }

    pub fn as_str(&self) -> (r: &str)
        ensures
            r@ == self@,
    {
        self.0.as_str()
    }
}

/// A type of the language: primitive, named, or generic over one
/// parameter.
#[derive(Debug)]
pub enum Type {
    Primitive(PrimitiveType),
    Named(Name),
    Generic { base: Name, param: Box<Type> },
}

/// The built-in primitive types.
#[derive(Debug)]
pub enum PrimitiveType {
    Int,
    Bool,
    String,
    Float,
}

/// A named record type declaration with its fields.
#[derive(Debug)]
pub struct TypeDecl {
    name: Name,
    fields: Vec<(Name, Type)>,
}

impl View for TypeDecl {
    type V = (Seq<char>, Seq<(Name, Type)>);

    closed spec fn view(&self) -> (Seq<char>, Seq<(Name, Type)>) {
        (self.name@, self.fields@)
    }
}

impl TypeDecl {
    /// A record type must have at least one field.
    pub fn new(name: Name, fields: Vec<(Name, Type)>) -> (r: Result<TypeDecl, String>)
        ensures
            match r {
                Result::Ok(d) => fields@.len() > 0 && d@ == (name@, fields@),
                Result::Err(m) => fields@.len() == 0 && m@ == "type must have at least one field"@,
            },
    {
        if fields.len() == 0 {
            return Result::Err(String::from_str("type must have at least one field"));
        }
        Result::Ok(TypeDecl { name, fields })
    }

    pub fn name(&self) -> (r: &Name)
        ensures
            r@ == self@.0,
    {
        &self.name
    }

    pub fn fields(&self) -> (r: &Vec<(Name, Type)>)
        ensures
            r@ == self@.1,
    {
        &self.fields
    }
}

/// A context declaration: a named set of typed fields.
#[derive(Debug)]
pub struct ContextDecl {
    name: Name,
    fields: Vec<(Name, Type)>,
}

impl View for ContextDecl {
    type V = (Seq<char>, Seq<(Name, Type)>);

    closed spec fn view(&self) -> (Seq<char>, Seq<(Name, Type)>) {
        (self.name@, self.fields@)
    }
}

impl ContextDecl {
    pub fn new(name: Name, fields: Vec<(Name, Type)>) -> (r: Result<ContextDecl, String>)
        ensures
            r matches Result::Ok(d) && d@ == (name@, fields@),
    {
        Result::Ok(ContextDecl { name, fields })
    }

    pub fn name(&self) -> (r: &Name)
        ensures
            r@ == self@.0,
    {
        &self.name
    }

    pub fn fields(&self) -> (r: &Vec<(Name, Type)>)
        ensures
            r@ == self@.1,
    {
        &self.fields
    }
}

/// A name, optionally qualified with the path it is imported from.
#[derive(Debug)]
pub struct QualifiedName {
    path: Option<String>,
    name: Name,
}

impl View for QualifiedName {
    type V = (Option<Seq<char>>, Seq<char>);

    closed spec fn view(&self) -> (Option<Seq<char>>, Seq<char>) {
        (
            match self.path {
                Option::Some(p) => Option::Some(p@),
                Option::None => Option::None,
            },
            self.name@,
        )
    }
}

impl QualifiedName {
    /// A name of the current scope, with no path.
    pub fn local(name: Name) -> (r: QualifiedName)
        ensures
            r@ == (Option::None::<Seq<char>>, name@),
    {
        QualifiedName { path: Option::None, name }
    }

    /// A name imported from the given path.
    pub fn with_path(path: String, name: Name) -> (r: QualifiedName)
        ensures
            r@ == (Option::Some(path@), name@),
    {
        QualifiedName { path: Option::Some(path), name }
    }

    pub fn name(&self) -> (r: &Name)
        ensures
            r@ == self@.1,
    {
        &self.name
    }

    pub fn path(&self) -> (r: Option<&str>)
        ensures
            match r {
                Option::Some(p) => self@.0 == Option::Some(p@),
                Option::None => self@.0 is None,
            },
    {
        match &self.path {
            Option::Some(p) => Option::Some(p.as_str()),
            Option::None => Option::None,
        }
    }
}

/// One `use` declaration: importing a state's fields, a context, or a
/// type.
#[derive(Debug)]
pub enum UseStmt {
    State { source: QualifiedName, fields: Vec<(Name, Type)> },
    Context { context: QualifiedName },
    Type { ty: QualifiedName },
}

} // verus!
