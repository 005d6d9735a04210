//! Collects the function scopes of a syntax tree and infers a name for each.
//!
//! A function, an arrow function and a class body each open a scope. A scope
//! that has an identifier of its own is named by it. Any other gets its name
//! from the path of its ancestors: in `const name = () => {};` the arrow
//! function has no name, and the declarator above it gives it the name `name`.

use std::ops::Range;
use vstd::prelude::*;
use vstd::string::*;
use crate::ast::{AssignTarget, Expr, Ident, Parent};
use crate::scope_name::{ComponentView, NameComponent, ScopeName};

verus! {

/// The scopes of a text: the byte range of each, and its name where one was found.
pub type Scopes = Vec<(Range<u32>, Option<ScopeName>)>;

/// The mathematical value of a collected scope.
pub struct ScopeView {
    pub start: u32,
    pub end: u32,
    pub name: Option<Seq<ComponentView>>,
}

/// The value of one entry of [`Scopes`].
pub open spec fn scope_view(scope: (Range<u32>, Option<ScopeName>)) -> ScopeView {
    ScopeView {
        start: scope.0.start,
        end: scope.0.end,
        name: match scope.1 {
            Some(name) => Some(name@),
            None => None,
        },
    }
}

/// The values of the entries of `scopes`.
pub open spec fn scopes_view(scopes: Seq<(Range<u32>, Option<ScopeName>)>) -> Seq<ScopeView> {
    Seq::new(scopes.len(), |i: int| scope_view(scopes[i]))
}

/// `name` with a `.` in front, unless it is empty.
pub open spec fn with_separator(name: Seq<ComponentView>) -> Seq<ComponentView> {
    if name.len() > 0 {
        seq![ComponentView::Interpolation("."@)] + name
    } else {
        name
    }
}

/// `name` with the identifier `key` in front, if there is one, and a `.`
/// between the two, unless `name` is empty.
pub open spec fn with_key(key: Option<Ident>, name: Seq<ComponentView>) -> Seq<ComponentView> {
    match key {
        Some(ident) => seq![ComponentView::of_ident(ident)] + with_separator(name),
        None => name,
    }
}

/// The name that `expr` stands for, put in front of `name`: an identifier is
/// the name itself, a member access adds `.` and its property to the name of
/// its object, `this` is named `this`. Any other expression has no name.
pub open spec fn expr_name(expr: Expr, name: Seq<ComponentView>) -> Option<Seq<ComponentView>>
    decreases expr,
{
    match expr {
        Expr::Ident(ident) => Some(seq![ComponentView::of_ident(ident)] + name),
        Expr::Member { obj, prop } => match prop {
            Some(ident) => expr_name(
                *obj,
                seq![ComponentView::Interpolation("."@), ComponentView::of_ident(ident)] + name,
            ),
            None => expr_name(*obj, name),
        },
        Expr::This => Some(seq![ComponentView::Interpolation("this"@)] + name),
        Expr::Other => None,
    }
}

/// The name that the ancestors `path`, outermost first, give to a scope of which
/// the inner part `name` is known already. The walk goes from the nearest
/// ancestor outwards. Every identifier that it puts in front of a name that is
/// not empty is parted from it by a `.`. The walk ends without a name at the
/// border of another scope and with one at a class declaration, a variable
/// declarator or an assignment that names the scope.
pub open spec fn ctx_name(path: Seq<Parent>, name: Seq<ComponentView>) -> Option<
    Seq<ComponentView>,
>
    decreases path.len(),
{
    if path.len() == 0 {
        None
    } else {
        let outer = path.drop_last();
        match path.last() {
            Parent::Function | Parent::ArrowExpr | Parent::Constructor => None,
            Parent::ClassExpr(key) => ctx_name(outer, with_key(key, name)),
            Parent::ClassDecl(ident) => Some(
                seq![ComponentView::of_ident(ident)] + with_separator(name),
            ),
            Parent::MethodProp(key) => ctx_name(outer, with_key(key, name)),
            Parent::KeyValueProp(key) => ctx_name(outer, with_key(key, name)),
            Parent::ClassMethod(key) => ctx_name(outer, with_key(key, name)),
            Parent::PrivateMethod(ident) => ctx_name(
                outer,
                seq![ComponentView::Interpolation("#"@), ComponentView::of_ident(ident)]
                    + with_separator(name),
            ),
            Parent::VarDeclarator(Some(ident)) => Some(
                seq![ComponentView::of_ident(ident)] + with_separator(name),
            ),
            Parent::AssignExpr(AssignTarget::Expr(left)) => match expr_name(left, Seq::empty()) {
                Some(front) => Some(front + with_separator(name)),
                None => ctx_name(outer, name),
            },
            Parent::AssignExpr(AssignTarget::Ident(ident)) => Some(
                seq![ComponentView::of_ident(ident)] + with_separator(name),
            ),
            _ => ctx_name(outer, name),
        }
    }
}

/// The identifier that the nearest ancestor gives to a function node.
pub open spec fn function_ident(path: Seq<Parent>) -> Option<Ident> {
    if path.len() == 0 {
        None
    } else {
        match path.last() {
            Parent::FnDecl(ident) => Some(ident),
            Parent::FnExpr(ident) => ident,
            _ => None,
        }
    }
}

/// The identifier that the nearest ancestor gives to a class node.
pub open spec fn class_ident(path: Seq<Parent>) -> Option<Ident> {
    if path.len() == 0 {
        None
    } else {
        match path.last() {
            Parent::ClassDecl(ident) => Some(ident),
            Parent::ClassExpr(ident) => ident,
            _ => None,
        }
    }
}

/// The name of a scope with the identifier `ident`, or, without one, the name
/// that its ancestors give it.
pub open spec fn ident_or_ctx_name(ident: Option<Ident>, path: Seq<Parent>) -> Option<
    Seq<ComponentView>,
> {
    match ident {
        Some(ident) => Some(seq![ComponentView::of_ident(ident)]),
        None => ctx_name(path, Seq::empty()),
    }
}

/// The name of a class scope: that of `ident_or_ctx_name` with `new ` in front.
pub open spec fn class_name(path: Seq<Parent>) -> Option<Seq<ComponentView>> {
    match ident_or_ctx_name(class_ident(path), path) {
        Some(name) => Some(seq![ComponentView::Interpolation("new "@)] + name),
        None => None,
    }
}

/// `computed` is the name `expected`, or neither is a name.
pub open spec fn is_name(computed: Option<ScopeName>, expected: Option<Seq<ComponentView>>) -> bool {
    match computed {
        Some(name) => expected == Some(name@),
        None => expected is None,
    }
}

/// Puts a `.` in front of `name`, unless it is empty.
fn push_sep(name: &mut ScopeName)
    ensures
        final(name)@ == with_separator(old(name)@),
{
    if name.components.len() > 0 {
        name.push_front(NameComponent::interp("."));
    }
}

/// Puts the identifier `key` in front of `name`, if there is one, with a `.`
/// between the two, unless `name` is empty.
fn push_key(name: &mut ScopeName, key: &Option<Ident>)
    ensures
        final(name)@ == with_key(*key, old(name)@),
{
    if let Some(ident) = key {
        push_sep(name);
        name.push_front(NameComponent::ident(ident.clone()));
    }
}

/// Returns a [`ScopeName`] corresponding to the given [`Expr`].
///
/// This is only possible if the expression is an identifier, a member
/// expression or `this`.
pub fn infer_name_from_expr(expr: &Expr) -> (name: Option<ScopeName>)
    ensures
        is_name(name, expr_name(*expr, Seq::empty())),
{
    let mut scope_name = ScopeName::new();
    let mut rest = expr;
    loop
        invariant
            expr_name(*rest, scope_name@) == expr_name(*expr, Seq::empty()),
        decreases *rest,
    {
        match rest {
            Expr::Ident(ident) => {
                scope_name.push_front(NameComponent::ident(ident.clone()));
                return Some(scope_name);
            },
            Expr::Member { obj, prop } => {
                if let Some(ident) = prop {
                    let ghost inner = scope_name@;
                    scope_name.push_front(NameComponent::ident(ident.clone()));
                    scope_name.push_front(NameComponent::interp("."));
                    assert(scope_name@ =~= seq![
                        ComponentView::Interpolation("."@),
                        ComponentView::of_ident(*ident),
                    ] + inner);
                }
                rest = &**obj;
            },
            Expr::This => {
                scope_name.push_front(NameComponent::interp("this"));
                return Some(scope_name);
            },
            Expr::Other => {
                return None;
            },
        }
    }
}

/// Tries to infer a name by walking up the path of ancestors, which `path`
/// holds outermost first.
pub fn infer_name_from_ctx(path: &[Parent]) -> (name: Option<ScopeName>)
    ensures
        is_name(name, ctx_name(path@, Seq::empty())),
{
    let mut scope_name = ScopeName::new();
    let mut i: usize = path.len();
    assert(path@.take(i as int) =~= path@);
    while i > 0
        invariant
            0 <= i <= path@.len(),
            ctx_name(path@.take(i as int), scope_name@) == ctx_name(path@, Seq::empty()),
        decreases i,
    {
        proof {
            assert(path@.take(i as int).drop_last() =~= path@.take(i - 1));
            assert(path@.take(i as int).last() == path@[i - 1]);
        }
        i -= 1;
        match &path[i] {
            // These create a new scope. Having reached one of them, none of the
            // other ancestors gave a name.
            Parent::Function | Parent::ArrowExpr | Parent::Constructor => {
                return None;
            },
            // A class which is the parent of a method for which we already
            // have part of the name.
            Parent::ClassExpr(key) => {
                push_key(&mut scope_name, key);
            },
            Parent::ClassDecl(ident) => {
                push_sep(&mut scope_name);
                scope_name.push_front(NameComponent::ident(ident.clone()));
                return Some(scope_name);
            },
            // An object literal member: `{ $name() ... }`
            Parent::MethodProp(key) => {
                push_key(&mut scope_name, key);
            },
            // An object literal property: `{ $name: ... }`
            Parent::KeyValueProp(key) => {
                push_key(&mut scope_name, key);
            },
            // A class method: `class { $name() ... }`
            Parent::ClassMethod(key) => {
                push_key(&mut scope_name, key);
            },
            // A private class method: `class { #$name() ... }`
            Parent::PrivateMethod(ident) => {
                push_sep(&mut scope_name);
                let ghost inner = scope_name@;
                scope_name.push_front(NameComponent::ident(ident.clone()));
                scope_name.push_front(NameComponent::interp("#"));
                assert(scope_name@ =~= seq![
                    ComponentView::Interpolation("#"@),
                    ComponentView::of_ident(*ident),
                ] + inner);
            },
            // A variable declaration with a name: `var $name = ...`
            Parent::VarDeclarator(Some(ident)) => {
                push_sep(&mut scope_name);
                scope_name.push_front(NameComponent::ident(ident.clone()));
                return Some(scope_name);
            },
            // An assignment expression with a usable name on the left hand side:
            // `$name = ...`
            Parent::AssignExpr(AssignTarget::Expr(left)) => {
                if let Some(front) = infer_name_from_expr(left) {
                    push_sep(&mut scope_name);
                    scope_name.prepend(front);
                    return Some(scope_name);
                }
            },
            Parent::AssignExpr(AssignTarget::Ident(ident)) => {
                push_sep(&mut scope_name);
                scope_name.push_front(NameComponent::ident(ident.clone()));
                return Some(scope_name);
            },
            _ => {},
        }
    }
    assert(path@.take(0).len() == 0);
    None
}

/// Uses either the provided [`Ident`] or infers the name from the `path`.
pub fn name_from_ident_or_ctx(ident: Option<Ident>, path: &[Parent]) -> (name: Option<ScopeName>)
    ensures
        is_name(name, ident_or_ctx_name(ident, path@)),
{
    match ident {
        Some(ident) => {
            let mut name = ScopeName::new();
            name.push_back(NameComponent::ident(ident));
            assert(name@ =~= seq![ComponentView::of_ident(ident)]);
            Some(name)
        },
        None => infer_name_from_ctx(path),
    }
}

/// Collects function scopes and computes their names.
///
/// Whoever walks the syntax tree calls the method that belongs to each
/// function-like node it meets, with the byte span of the node and the path of
/// its ancestors, outermost first. From there, the node either has a name
/// itself, or its name is inferred from the path.
pub struct ScopeCollector {
    scopes: Scopes,
}

impl View for ScopeCollector {
    type V = Seq<ScopeView>;

    closed spec fn view(&self) -> Seq<ScopeView> {
        scopes_view(self.scopes@)
    }
}

impl ScopeCollector {
    /// A collector that has seen no scope yet.
    pub fn new() -> (collector: ScopeCollector)
        ensures
            collector@ == Seq::<ScopeView>::empty(),
    {
        let collector = ScopeCollector { scopes: Vec::new() };
        assert(collector@ =~= Seq::<ScopeView>::empty());
        collector
    }

    /// The scopes collected, in the order in which they were met.
    pub fn into_scopes(self) -> (scopes: Scopes)
        ensures
            scopes_view(scopes@) == self@,
    {
        self.scopes
    }

    fn push(&mut self, span: Range<u32>, name: Option<ScopeName>)
        ensures
            final(self)@ == old(self)@.push(scope_view((span, name))),
    {
        self.scopes.push((span, name));
        assert(self@ =~= old(self)@.push(scope_view((span, name))));
    }

    /// Records the scope of an arrow function. An arrow function has no name of
    /// its own, so its ancestors name it.
    pub fn visit_arrow_expr(&mut self, span: Range<u32>, path: &[Parent])
        ensures
            final(self)@ == old(self)@.push(
                ScopeView { start: span.start, end: span.end, name: ctx_name(path@, Seq::empty()) },
            ),
    {
        let name = infer_name_from_ctx(path);
        self.push(span, name);
    }

    /// Records the scope of a function, named by the declaration or expression
    /// right above it, or else by its ancestors.
    pub fn visit_function(&mut self, span: Range<u32>, path: &[Parent])
        ensures
            final(self)@ == old(self)@.push(
                ScopeView {
                    start: span.start,
                    end: span.end,
                    name: ident_or_ctx_name(function_ident(path@), path@),
                },
            ),
    {
        let ident = if path.len() == 0 {
            None
        } else {
            match &path[path.len() - 1] {
                Parent::FnDecl(ident) => Some(ident.clone()),
                Parent::FnExpr(Some(ident)) => Some(ident.clone()),
                _ => None,
            }
        };
        let name = name_from_ident_or_ctx(ident, path);
        self.push(span, name);
    }

    /// Records the scope of a class: the whole class body, not the constructor
    /// alone, since the definitions of class properties run as part of the
    /// construction. The name reads `new ` and the name of the class.
    pub fn visit_class(&mut self, span: Range<u32>, path: &[Parent])
        ensures
            final(self)@ == old(self)@.push(
                ScopeView { start: span.start, end: span.end, name: class_name(path@) },
            ),
    {
        let ident = if path.len() == 0 {
            None
        } else {
            match &path[path.len() - 1] {
                Parent::ClassDecl(ident) => Some(ident.clone()),
                Parent::ClassExpr(Some(ident)) => Some(ident.clone()),
                _ => None,
            }
        };
        let mut name = name_from_ident_or_ctx(ident, path);
        if let Some(name) = &mut name {
            name.push_front(NameComponent::interp("new "));
        }
        self.push(span, name);
    }
}

} // verus!
