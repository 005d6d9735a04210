use js_source_scopes::ast::{AssignTarget, Expr, Ident, Parent};
use js_source_scopes::scope_name::{NameComponent, ScopeName, SyntaxToken};
use js_source_scopes::scopes::{
    infer_name_from_ctx, infer_name_from_expr, name_from_ident_or_ctx, ScopeCollector,
};

fn id(sym: &str, lo: u32) -> Ident {
    Ident::new(sym, lo, lo + sym.len() as u32)
}

fn rendered(name: Option<ScopeName>) -> Option<String> {
    name.map(|n| n.to_string())
}

#[test]
fn arrow_function_named_by_declarator() {
    // const name = () => {};
    let path = vec![
        Parent::Other,
        Parent::Other,
        Parent::VarDeclarator(Some(id("name", 6))),
    ];
    let name = infer_name_from_ctx(&path).unwrap();
    assert_eq!(name.components().len(), 1);
    assert_eq!(name.components()[0].text(), "name");
    assert_eq!(name.components()[0].range(), Some(6..10));
    assert_eq!(name.to_string(), "name");
}

#[test]
fn method_named_by_class_and_key() {
    // class C { m() { ... } }
    let path = vec![
        Parent::ClassDecl(id("C", 6)),
        Parent::Other,
        Parent::ClassMethod(Some(id("m", 10))),
    ];
    assert_eq!(rendered(infer_name_from_ctx(&path)), Some("C.m".to_string()));
}

#[test]
fn function_inside_method_has_no_name() {
    // The body of the method is a scope of its own: nothing beyond it names
    // a function that stands in it.
    let path = vec![
        Parent::ClassDecl(id("C", 6)),
        Parent::Other,
        Parent::ClassMethod(Some(id("m", 10))),
        Parent::Function,
        Parent::Other,
        Parent::FnExpr(None),
    ];
    assert!(infer_name_from_ctx(&path).is_none());
}

#[test]
fn private_method_name() {
    // class C { #p() {} }
    let path = vec![
        Parent::ClassDecl(id("C", 6)),
        Parent::Other,
        Parent::PrivateMethod(id("p", 11)),
    ];
    let name = infer_name_from_ctx(&path).unwrap();
    let texts: Vec<&str> = name.components().iter().map(|c| c.text()).collect();
    assert_eq!(texts, vec!["C", ".", "#", "p"]);
    assert_eq!(name.to_string(), "C.#p");
}

#[test]
fn class_scope_reads_new() {
    // class Foo {}
    let mut collector = ScopeCollector::new();
    collector.visit_class(0..12, &[Parent::ClassDecl(id("Foo", 6))]);
    let scopes = collector.into_scopes();
    assert_eq!(scopes.len(), 1);
    assert_eq!(scopes[0].0, 0..12);
    assert_eq!(scopes[0].1.as_ref().unwrap().to_string(), "new Foo");
}

#[test]
fn anonymous_class_expression_named_by_context() {
    // var A = class {};
    let mut collector = ScopeCollector::new();
    collector.visit_class(
        8..16,
        &[Parent::VarDeclarator(Some(id("A", 4))), Parent::ClassExpr(None)],
    );
    let scopes = collector.into_scopes();
    assert_eq!(scopes[0].1.as_ref().unwrap().to_string(), "new A");
    // a class without any name around it
    let mut collector = ScopeCollector::new();
    collector.visit_class(0..8, &[Parent::Other, Parent::ClassExpr(None)]);
    assert!(collector.into_scopes()[0].1.is_none());
}

#[test]
fn assignment_to_member_names_function() {
    // obj.k = function() {}
    let left = Expr::Member {
        obj: Box::new(Expr::Ident(id("obj", 0))),
        prop: Some(id("k", 4)),
    };
    let path = vec![
        Parent::Other,
        Parent::AssignExpr(AssignTarget::Expr(left)),
        Parent::FnExpr(None),
    ];
    let mut collector = ScopeCollector::new();
    collector.visit_function(8..21, &path);
    let scopes = collector.into_scopes();
    assert_eq!(scopes[0].0, 8..21);
    assert_eq!(scopes[0].1.as_ref().unwrap().to_string(), "obj.k");
}

#[test]
fn assignment_to_identifier_and_object_keys() {
    // a = { b: { c() { } } }  -- the method c
    let path = vec![
        Parent::AssignExpr(AssignTarget::Ident(id("a", 0))),
        Parent::Other,
        Parent::KeyValueProp(Some(id("b", 6))),
        Parent::Other,
        Parent::MethodProp(Some(id("c", 11))),
    ];
    // every outer identifier is parted from the name by a dot
    assert_eq!(rendered(infer_name_from_ctx(&path)), Some("a.b.c".to_string()));
    // an assignment to a pattern gives no name and the walk goes on
    let path = vec![
        Parent::VarDeclarator(Some(id("v", 4))),
        Parent::AssignExpr(AssignTarget::Other),
    ];
    assert_eq!(rendered(infer_name_from_ctx(&path)), Some("v".to_string()));
}

#[test]
fn scope_borders_end_the_walk() {
    for border in [Parent::Function, Parent::ArrowExpr, Parent::Constructor] {
        let path = vec![Parent::VarDeclarator(Some(id("x", 4))), border];
        assert!(infer_name_from_ctx(&path).is_none());
    }
    assert!(infer_name_from_ctx(&[]).is_none());
    assert!(infer_name_from_ctx(&[Parent::Other, Parent::VarDeclarator(None)]).is_none());
}

#[test]
fn class_expression_name_is_put_in_front() {
    // x = class A { m() {} }
    let path = vec![
        Parent::AssignExpr(AssignTarget::Ident(id("x", 0))),
        Parent::ClassExpr(Some(id("A", 10))),
        Parent::Other,
        Parent::ClassMethod(Some(id("m", 14))),
    ];
    assert_eq!(rendered(infer_name_from_ctx(&path)), Some("x.A.m".to_string()));
}

#[test]
fn names_from_expressions() {
    assert_eq!(
        rendered(infer_name_from_expr(&Expr::Ident(id("a", 0)))),
        Some("a".to_string())
    );
    assert_eq!(rendered(infer_name_from_expr(&Expr::This)), Some("this".to_string()));
    assert!(infer_name_from_expr(&Expr::Other).is_none());
    // this.foo
    let e = Expr::Member { obj: Box::new(Expr::This), prop: Some(id("foo", 5)) };
    assert_eq!(rendered(infer_name_from_expr(&e)), Some("this.foo".to_string()));
    // a.b.c
    let e = Expr::Member {
        obj: Box::new(Expr::Member {
            obj: Box::new(Expr::Ident(id("a", 0))),
            prop: Some(id("b", 2)),
        }),
        prop: Some(id("c", 4)),
    };
    assert_eq!(rendered(infer_name_from_expr(&e)), Some("a.b.c".to_string()));
    // a[0].c: the computed property adds nothing
    let e = Expr::Member {
        obj: Box::new(Expr::Member { obj: Box::new(Expr::Ident(id("a", 0))), prop: None }),
        prop: Some(id("c", 5)),
    };
    assert_eq!(rendered(infer_name_from_expr(&e)), Some("a.c".to_string()));
    // f().c has no name
    let e = Expr::Member { obj: Box::new(Expr::Other), prop: Some(id("c", 4)) };
    assert!(infer_name_from_expr(&e).is_none());
}

#[test]
fn own_identifier_wins_over_context() {
    let path = vec![Parent::VarDeclarator(Some(id("outer", 4))), Parent::FnExpr(Some(id("inner", 21)))];
    let name = name_from_ident_or_ctx(Some(id("inner", 21)), &path);
    assert_eq!(rendered(name), Some("inner".to_string()));
    let mut collector = ScopeCollector::new();
    collector.visit_function(12..30, &path);
    collector.visit_function(0..9, &[Parent::FnDecl(id("f", 9))]);
    collector.visit_arrow_expr(40..50, &path[..1]);
    let scopes = collector.into_scopes();
    assert_eq!(scopes.len(), 3);
    assert_eq!(scopes[0].1.as_ref().unwrap().to_string(), "inner");
    assert_eq!(scopes[1].1.as_ref().unwrap().to_string(), "f");
    assert_eq!(scopes[2].0, 40..50);
    assert_eq!(scopes[2].1.as_ref().unwrap().to_string(), "outer");
}

#[test]
fn rendering_joins_component_texts() {
    let mut name = ScopeName::new();
    name.push_back(NameComponent::ident(id("a", 3)));
    name.push_back(NameComponent::punct(SyntaxToken));
    name.push_back(NameComponent::interp("."));
    name.push_back(NameComponent::ident(id("b", 5)));
    name.push_front(NameComponent::interp("new "));
    let joined: String = name.components().iter().map(|c| c.text()).collect();
    assert_eq!(name.to_string(), joined);
    assert_eq!(name.to_string(), "new a.b");
    let ranges: Vec<_> = name.components().iter().map(|c| c.range()).collect();
    assert_eq!(ranges, vec![None, Some(3..4), None, None, Some(5..6)]);
    assert_eq!(ScopeName::new().to_string(), "");
    let mut front = ScopeName::new();
    front.push_back(NameComponent::interp("x"));
    front.push_back(NameComponent::interp("."));
    name.prepend(front);
    assert_eq!(name.to_string(), "x.new a.b");
}

#[test]
fn function_under_nested_object_keys() {
    // var o = { a: { b: function() {} } };
    let path = vec![
        Parent::Other,
        Parent::VarDeclarator(Some(id("o", 4))),
        Parent::Other,
        Parent::KeyValueProp(Some(id("a", 10))),
        Parent::Other,
        Parent::KeyValueProp(Some(id("b", 15))),
        Parent::FnExpr(None),
    ];
    let mut collector = ScopeCollector::new();
    collector.visit_function(18..31, &path);
    let scopes = collector.into_scopes();
    assert_eq!(scopes.len(), 1);
    let name = scopes[0].1.as_ref().unwrap();
    assert_eq!(name.to_string(), "o.a.b");
    let texts: Vec<&str> = name.components().iter().map(|c| c.text()).collect();
    assert_eq!(texts, vec!["o", ".", "a", ".", "b"]);
    // a key that is no identifier adds nothing, and no dot either
    let path = vec![
        Parent::VarDeclarator(Some(id("o", 4))),
        Parent::KeyValueProp(None),
        Parent::MethodProp(Some(id("m", 20))),
    ];
    assert_eq!(rendered(infer_name_from_ctx(&path)), Some("o.m".to_string()));
}

#[test]
fn private_method_under_class_expression() {
    // x = class A { #p() { return { k() {} } } } -- the private method
    let path = vec![
        Parent::AssignExpr(AssignTarget::Ident(id("x", 0))),
        Parent::ClassExpr(Some(id("A", 10))),
        Parent::Other,
        Parent::PrivateMethod(id("p", 15)),
    ];
    assert_eq!(rendered(infer_name_from_ctx(&path)), Some("x.A.#p".to_string()));
    // a method of an object in a private method of a class that is declared
    let path = vec![
        Parent::ClassDecl(id("C", 6)),
        Parent::PrivateMethod(id("p", 11)),
        Parent::MethodProp(Some(id("k", 30))),
    ];
    let name = infer_name_from_ctx(&path).unwrap();
    let texts: Vec<&str> = name.components().iter().map(|c| c.text()).collect();
    assert_eq!(texts, vec!["C", ".", "#", "p", ".", "k"]);
}
