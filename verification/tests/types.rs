use sfl::language::ast::Ast;
use sfl::language::token::{Position, Token, TokenKind};
use sfl::language::types::{
    has_name, merge_into, remove_name, Context, FreeVar, Substitutable, Substitution, TType,
    TypeFunc, TypeMap,
};
use sfl::phase::type_checker::TypeChecker;

fn var(name: &str) -> TType {
    TType::Variable(String::from(name))
}

fn integer() -> TType {
    TType::Application(TypeFunc::Int)
}

fn boolean() -> TType {
    TType::Application(TypeFunc::Bool)
}

fn func(input: TType, output: TType) -> TType {
    TType::Application(TypeFunc::Func { input: Box::new(input), output: Box::new(output) })
}

fn quantified(variable: &str, inner: TType) -> TType {
    TType::Quantifier { variable: String::from(variable), inner: Box::new(inner) }
}

fn subst(pairs: Vec<(&str, TType)>) -> Substitution {
    Substitution::from(pairs.into_iter().map(|(k, v)| (String::from(k), v)).collect())
}

fn names(v: &[&str]) -> Vec<String> {
    v.iter().map(|s| String::from(*s)).collect()
}

fn here() -> Ast {
    Ast::Literal(Token {
        source_path: String::from("./main.sfl"),
        kind: TokenKind::LiteralInt(0),
        position: Position { line: 2, column: 3, begin: 10, end: 11 },
    })
}

fn checker() -> TypeChecker {
    TypeChecker::new(&String::from("./main.sfl"))
}

#[test]
fn type_text() {
    assert_eq!(integer().text(), "int");
    assert_eq!(boolean().text(), "bool");
    assert_eq!(var("t0").text(), "t0");
    assert_eq!(func(integer(), func(boolean(), var("a"))).text(), "int -> bool -> a");
    assert_eq!(quantified("a", func(var("a"), var("a"))).text(), "\u{2200}a a -> a");
    assert_eq!(TypeFunc::Bool.text(), "bool");
}

#[test]
fn contains_looks_for_a_variable() {
    let t = func(var("a"), quantified("b", var("b")));
    assert!(t.contains(&var("a")));
    assert!(t.contains(&var("b")));
    assert!(!t.contains(&var("c")));
    assert!(!t.contains(&integer()));
    assert!(!t.contains(&t.clone()));
    assert!(var("a").contains(&var("a")));
    assert!(!integer().contains(&var("a")));
}

#[test]
fn free_variables_in_order_of_first_occurrence() {
    let t = func(var("b"), func(var("a"), var("b")));
    assert_eq!(t.free_variables(), names(&["b", "a"]));
    let t = quantified("a", func(var("a"), var("c")));
    assert_eq!(t.free_variables(), names(&["c"]));
    assert_eq!(integer().free_variables(), names(&[]));
    let t = func(quantified("a", var("a")), var("a"));
    assert_eq!(t.free_variables(), names(&["a"]));
}

#[test]
fn name_lists() {
    let mut acc = names(&["a", "b"]);
    merge_into(&mut acc, &names(&["b", "c", "a", "d", "c"]));
    assert_eq!(acc, names(&["a", "b", "c", "d"]));
    assert_eq!(remove_name(&names(&["a", "b", "a", "c"]), "a"), names(&["b", "c"]));
    assert!(has_name(&acc, "c"));
    assert!(!has_name(&acc, "e"));
}

#[test]
fn substitution_replaces_variables() {
    let s = subst(vec![("a", integer()), ("b", func(var("a"), var("c")))]);
    let t = func(var("a"), func(var("b"), var("d")));
    assert_eq!(s.apply(&t), func(integer(), func(func(var("a"), var("c")), var("d"))));
    assert_eq!(s.apply(&quantified("a", var("a"))), quantified("a", integer()));
    assert_eq!(Substitution::new().apply(&t), t);
}

#[test]
fn substitution_insert_and_get() {
    let mut s = Substitution::new();
    assert_eq!(s.get("a"), None);
    assert_eq!(s.insert(String::from("a"), integer()), None);
    assert_eq!(s.get("a"), Some(&integer()));
    assert_eq!(s.insert(String::from("a"), boolean()), Some(integer()));
    assert_eq!(s.get("a"), Some(&boolean()));
    assert_eq!(s.apply(&var("a")), boolean());
    let s = subst(vec![("a", integer()), ("a", boolean())]);
    assert_eq!(s.get("a"), Some(&boolean()));
}

#[test]
fn composition_applies_the_inner_first() {
    let inner = subst(vec![("a", func(var("b"), var("c")))]);
    let outer = subst(vec![("b", integer()), ("a", boolean())]);
    // `apply` on a substitution composes: first `self`, then the argument.
    let both = inner.apply(&outer);
    for t in [
        var("a"),
        var("b"),
        var("c"),
        func(var("a"), var("b")),
        quantified("a", func(var("a"), var("b"))),
        integer(),
    ] {
        assert_eq!(both.apply(&t), outer.apply(&inner.apply(&t)));
    }
    assert_eq!(both.apply(&var("a")), func(integer(), var("c")));
}

#[test]
fn context_holds_the_last_type_of_a_name() {
    let mut ctx: Context = TypeMap::new();
    assert_eq!(ctx.get("x"), None);
    ctx.insert(String::from("x"), var("a"));
    ctx.insert(String::from("y"), quantified("b", func(var("b"), var("c"))));
    ctx.insert(String::from("x"), integer());
    assert_eq!(ctx.get("x"), Some(&integer()));
    assert!(!ctx.has_free("a"));
    assert!(!ctx.has_free("b"));
    assert!(ctx.has_free("c"));
    assert_eq!(ctx.free_variables(), names(&["c"]));
    let s = subst(vec![("c", boolean())]);
    let after = s.apply(&ctx);
    assert_eq!(after.get("y"), Some(&quantified("b", func(var("b"), boolean()))));
    assert_eq!(after.get("x"), Some(&integer()));
    assert!(!after.has_free("c"));
    assert_eq!(ctx.clone().get("y"), ctx.get("y"));
}

#[test]
fn unify_binds_a_variable() {
    let mut c = checker();
    let s = c.unify(&here(), &var("a"), &integer()).expect("a variable unifies with int");
    assert_eq!(s.apply(&var("a")), integer());
    let s = c.unify(&here(), &integer(), &var("a")).expect("int unifies with a variable");
    assert_eq!(s.apply(&var("a")), integer());
    let s = c.unify(&here(), &var("a"), &var("a")).expect("a variable unifies with itself");
    assert_eq!(s.apply(&var("a")), var("a"));
    let s = c.unify(&here(), &var("a"), &var("b")).expect("two variables unify");
    assert_eq!(s.apply(&var("a")), var("b"));
    assert_eq!(s.apply(&var("b")), var("b"));
    assert!(c.errors.is_empty());
}

#[test]
fn unify_function_types() {
    let mut c = checker();
    let a = func(var("a"), func(var("b"), var("a")));
    let b = func(integer(), func(boolean(), var("c")));
    let s = c.unify(&here(), &a, &b).expect("the two function types unify");
    assert_eq!(s.apply(&a), s.apply(&b));
    assert_eq!(s.apply(&a), func(integer(), func(boolean(), integer())));
    assert!(c.errors.is_empty());
    assert!(c.unify(&here(), &integer(), &integer()).is_ok());
    assert!(c.unify(&here(), &boolean(), &boolean()).is_ok());
}

#[test]
fn unify_is_symmetric_up_to_renaming() {
    let mut c = checker();
    let a = func(var("a"), func(var("b"), var("a")));
    let b = func(var("c"), func(integer(), var("d")));
    let ab = c.unify(&here(), &a, &b).expect("unifies");
    let ba = c.unify(&here(), &b, &a).expect("unifies the other way round");
    assert_eq!(ab.apply(&a), ab.apply(&b));
    assert_eq!(ba.apply(&a), ba.apply(&b));
    assert_eq!(ab.apply(&a), func(var("d"), func(integer(), var("d"))));
    assert_eq!(ba.apply(&a), func(var("a"), func(integer(), var("a"))));
    let rename = subst(vec![("d", var("a"))]);
    assert_eq!(rename.apply(&ab.apply(&a)), ba.apply(&a));
    assert!(c.unify(&here(), &integer(), &boolean()).is_err());
    assert!(c.unify(&here(), &boolean(), &integer()).is_err());
}

#[test]
fn unify_reports_a_mismatch() {
    let mut c = checker();
    assert!(c.unify(&here(), &integer(), &boolean()).is_err());
    assert_eq!(c.errors.len(), 1);
    assert_eq!(c.errors[0].content.message, "expected int, found bool");
    assert_eq!(c.errors[0].content.indicator_message, Some(String::from(" here")));
    assert_eq!(c.errors[0].position, Position { line: 2, column: 3, begin: 10, end: 11 });
    assert_eq!(c.errors[0].source_path, "./main.sfl");
    assert!(c.unify(&here(), &func(integer(), integer()), &integer()).is_err());
    assert_eq!(c.errors[1].content.message, "expected int -> int, found int");
    assert!(c.unify(&here(), &func(integer(), integer()), &func(integer(), boolean())).is_err());
    assert_eq!(c.errors[2].content.message, "expected int, found bool");
    let q = quantified("a", var("a"));
    assert!(c.unify(&here(), &q, &q).is_err());
    assert_eq!(c.errors.len(), 4);
}

#[test]
fn unify_checks_for_occurrence() {
    let mut c = checker();
    assert!(c.unify(&here(), &var("a"), &func(var("a"), integer())).is_err());
    assert_eq!(c.errors.len(), 1);
    assert_eq!(c.errors[0].content.message, "infinite type detected");
    assert!(c.unify(&here(), &func(integer(), var("a")), &var("a")).is_err());
    assert_eq!(c.errors.len(), 2);
    // A variable that is bound in the type does not occur in it.
    assert!(c.unify(&here(), &var("a"), &quantified("a", var("a"))).is_ok());
    assert_eq!(c.errors.len(), 2);
}

#[test]
fn fresh_variables_are_numbered() {
    let mut c = checker();
    assert_eq!(c.variable(), Some(var("t0")));
    assert_eq!(c.variable(), Some(var("t1")));
    c.variable_counter = 41;
    assert_eq!(c.variable(), Some(var("t41")));
    assert_eq!(c.variable_counter, 42);
    c.variable_counter = u64::MAX;
    assert_eq!(c.variable(), None);
    assert_eq!(c.variable_counter, u64::MAX);
}

#[test]
fn instantiate_takes_the_quantifiers_off() {
    let mut c = checker();
    let scheme = quantified("a", quantified("b", func(var("a"), func(var("b"), var("c")))));
    assert_eq!(
        c.instantiate(&scheme, None),
        Some(func(var("t0"), func(var("t1"), var("c"))))
    );
    assert_eq!(c.variable_counter, 2);
    assert_eq!(c.instantiate(&integer(), None), Some(integer()));
    assert_eq!(
        c.instantiate(&var("c"), Some(subst(vec![("c", boolean())]))),
        Some(boolean())
    );
    c.variable_counter = u64::MAX;
    assert_eq!(c.instantiate(&scheme, None), None);
}

#[test]
fn generalize_binds_what_the_context_leaves_free() {
    let mut c = checker();
    let mut ctx: Context = TypeMap::new();
    ctx.insert(String::from("x"), var("b"));
    let t = func(var("a"), func(var("b"), var("c")));
    assert_eq!(c.generalize(&ctx, &t), quantified("a", quantified("c", t.clone())));
    assert_eq!(
        c.generalize(&TypeMap::new(), &t),
        quantified("a", quantified("b", quantified("c", t.clone())))
    );
    assert_eq!(c.generalize(&ctx, &integer()), integer());
}

#[test]
fn built_in_operators() {
    let plus = Token {
        source_path: String::from("p"),
        kind: TokenKind::Plus,
        position: Position { line: 0, column: 0, begin: 0, end: 1 },
    };
    let minus = Token { kind: TokenKind::Minus, ..plus.clone() };
    let other = Token { kind: TokenKind::Comma, ..plus.clone() };
    let expected = func(integer(), func(integer(), integer()));
    assert_eq!(TypeChecker::built_in(&plus), Some(expected.clone()));
    assert_eq!(TypeChecker::built_in(&minus), Some(expected));
    assert_eq!(TypeChecker::built_in(&other), None);
}

#[test]
fn a_unifier_is_idempotent_and_most_general() {
    let mut c = checker();
    let a = func(var("a"), func(var("b"), var("a")));
    let b = func(func(var("c"), var("d")), func(var("c"), var("e")));
    let s = c.unify(&here(), &a, &b).expect("unifies");
    assert_eq!(s.apply(&a), s.apply(&b));
    // Applying the unifier twice is applying it once.
    for t in [a.clone(), b.clone(), var("a"), var("e"), func(var("b"), var("d"))] {
        assert_eq!(s.apply(&s.apply(&t)), s.apply(&t));
    }
    // Another unifier is an instance of it.
    let other = subst(vec![
        ("a", func(integer(), boolean())),
        ("b", integer()),
        ("c", integer()),
        ("d", boolean()),
        ("e", func(integer(), boolean())),
    ]);
    assert_eq!(other.apply(&a), other.apply(&b));
    for t in [a.clone(), b.clone(), var("a"), var("b"), var("c"), var("d"), var("e")] {
        assert_eq!(other.apply(&s.apply(&t)), other.apply(&t));
    }
}

#[test]
fn unification_is_not_symmetric_under_quantifiers() {
    let mut c = checker();
    let a = func(var("x"), var("x"));
    let b = func(var("v"), quantified("v", var("x")));
    assert!(c.unify(&here(), &a, &b).is_ok());
    assert!(c.unify(&here(), &b, &a).is_err());
    assert_eq!(c.errors.len(), 1);
    assert_eq!(c.errors[0].content.message, "infinite type detected");
}
