//! The parts of a JavaScript syntax tree that the naming of scopes reads.
//!
//! A parser hands the library a tree of its own. What matters of it here are
//! the identifiers with their byte spans, the expressions that can stand on the
//! left of an assignment, and the kinds of the ancestors of a function.

use vstd::prelude::*;

verus! {

/// An identifier in the minified text.
#[derive(Debug)]
pub struct Ident {
    /// The name as it is written.
    pub sym: String,
    /// The byte offset of its first byte.
    pub lo: u32,
    /// The byte offset behind its last byte.
    pub hi: u32,
}

impl Ident {
    pub fn new(sym: &str, lo: u32, hi: u32) -> (ident: Ident)
        ensures
            ident.sym@ == sym@,
            ident.lo == lo,
            ident.hi == hi,
    {
        Ident { sym: sym.to_owned(), lo, hi }
    }

}

impl Clone for Ident {
    fn clone(&self) -> (copy: Ident)
        ensures
            copy == *self,
    {
        Ident { sym: self.sym.clone(), lo: self.lo, hi: self.hi }
    }
}

/// An expression, as far as a name can be read off it.
#[derive(Debug)]
pub enum Expr {
    /// A plain identifier, `a`.
    Ident(Ident),
    /// A member access, `obj.prop` or `obj[..]`; `prop` is its property where
    /// that is an identifier.
    Member { obj: Box<Expr>, prop: Option<Ident> },
    /// `this`.
    This,
    /// Any other expression.
    Other,
}

/// The left-hand side of an assignment.
#[derive(Debug)]
pub enum AssignTarget {
    /// An expression, `a.b = ..`.
    Expr(Expr),
    /// A binding identifier, `a = ..`.
    Ident(Ident),
    /// A destructuring pattern or anything else.
    Other,
}

/// The kind of an ancestor of a node, with the identifier that it contributes.
#[derive(Debug)]
pub enum Parent {
    /// A function body: a scope of its own.
    Function,
    /// An arrow function: a scope of its own.
    ArrowExpr,
    /// A class constructor: a scope of its own.
    Constructor,
    /// A function declaration, `function f() {}`.
    FnDecl(Ident),
    /// A function expression, with its name if it has one.
    FnExpr(Option<Ident>),
    /// A class expression, with its name if it has one.
    ClassExpr(Option<Ident>),
    /// A class declaration, `class C {}`.
    ClassDecl(Ident),
    /// A method of an object literal, with its key where that is an identifier.
    MethodProp(Option<Ident>),
    /// A property of an object literal, with its key where that is an identifier.
    KeyValueProp(Option<Ident>),
    /// A method of a class, with its key where that is an identifier.
    ClassMethod(Option<Ident>),
    /// A private method of a class, `#p() {}`.
    PrivateMethod(Ident),
    /// A variable declarator, with the variable where the binding is an identifier.
    VarDeclarator(Option<Ident>),
    /// An assignment, with its left-hand side.
    AssignExpr(AssignTarget),
    /// Any other node.
    Other,
}

} // verus!
