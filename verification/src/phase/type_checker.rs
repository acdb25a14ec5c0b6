//! Type inference: Algorithm W with let-polymorphism.

use vstd::prelude::*;
use vstd::string::*;
use vstd::set_lib::*;
use crate::language::ast::{Ast, AstView};
use crate::language::token::{Position, Token, TokenKind, TokenKindView, TokenView};
use crate::language::types::{
    apply_context, compose, context_free_vars, lemma_apply_compose, lemma_apply_empty,
    lemma_free_var_list, names_of, Context, FreeVar, Substitutable, Substitution, TType, TypeFunc,
    TypeMap, TypeView,
};
use crate::config::Config;
use crate::message::{
    append_messages, message_views, Content, ContentView, Message, MessageView, Severity,
};
use crate::phase::phase::{Phase, PhaseResult};
use crate::text::{decimal, decimal_string, lemma_decimal_injective};

verus! {

/// Why two types have no unifier.
pub enum UnifyError {
    /// A variable would have to stand for a type that holds it.
    InfiniteType,
    /// Two different constructors met: the type expected, and the one found.
    Mismatch(TypeView, TypeView),
}

impl TypeView {
    /// The variables of the type that stand under no quantifier.
    pub open spec fn visible(self) -> Set<Seq<char>>
        decreases self,
    {
        match self {
            TypeView::Var(n) => set![n],
            TypeView::Func(i, o) => i.visible().union(o.visible()),
            _ => Set::empty(),
        }
    }

    /// Number of nodes of the type, a quantified type counting as one.
    pub open spec fn visible_size(self) -> nat
        decreases self,
    {
        match self {
            TypeView::Func(i, o) => 1 + i.visible_size() + o.visible_size(),
            _ => 1,
        }
    }
}

/// The variables that unifying `a` with `b` has to deal with.
pub open spec fn unify_vars(a: TypeView, b: TypeView) -> Set<Seq<char>> {
    a.visible().union(b.visible())
}

/// Whether unifying `a2` with `b2` is a smaller task than unifying `a` with
/// `b`: fewer variables, or as many and smaller types.
pub open spec fn unify_smaller(a2: TypeView, b2: TypeView, a: TypeView, b: TypeView) -> bool {
    let n2 = unify_vars(a2, b2).len();
    let n = unify_vars(a, b).len();
    n2 < n || (n2 == n && a2.visible_size() + b2.visible_size() < a.visible_size()
        + b.visible_size())
}

/// Binding the variable `x` to the type `t`.
pub open spec fn bind_spec(x: Seq<char>, t: TypeView) -> Result<
    Map<Seq<char>, TypeView>,
    UnifyError,
> {
    if t.free_vars().contains(x) {
        Err(UnifyError::InfiniteType)
    } else {
        Ok(map![x => t])
    }
}

/// The most general unifier of `a` and `b`, or why there is none.
///
/// Two function types are unified argument first; the substitution found is
/// applied to the results before they are unified in turn. The test
/// `unify_smaller` before that second step always succeeds (see
/// `lemma_unify_progress` and `lemma_unify_function_types`): it stands
/// here so that the definition is well-founded.
pub open spec fn unify_spec(a: TypeView, b: TypeView) -> Result<
    Map<Seq<char>, TypeView>,
    UnifyError,
>
    decreases unify_vars(a, b).len(), a.visible_size() + b.visible_size(),
    via unify_spec_decreases
{
    match (a, b) {
        (TypeView::Var(x), TypeView::Var(y)) => if x == y {
            Ok(Map::empty())
        } else {
            bind_spec(x, b)
        },
        (TypeView::Var(x), _) => bind_spec(x, b),
        (_, TypeView::Var(y)) => bind_spec(y, a),
        (TypeView::Func(i1, o1), TypeView::Func(i2, o2)) => match unify_spec(*i1, *i2) {
            Err(e) => Err(e),
            Ok(s1) => if unify_smaller(o1.apply(s1), o2.apply(s1), a, b) {
                match unify_spec(o1.apply(s1), o2.apply(s1)) {
                    Err(e) => Err(e),
                    Ok(s2) => Ok(compose(s2, s1)),
                }
            } else {
                Err(UnifyError::InfiniteType)
            },
        },
        (TypeView::Bool, TypeView::Bool) => Ok(Map::empty()),
        (TypeView::Int, TypeView::Int) => Ok(Map::empty()),
        _ => Err(UnifyError::Mismatch(a, b)),
    }
}

#[via_fn]
proof fn unify_spec_decreases(a: TypeView, b: TypeView) {
    match (a, b) {
        (TypeView::Func(i1, o1), TypeView::Func(i2, o2)) => {
            lemma_visible(a);
            lemma_visible(b);
            assert(unify_vars(*i1, *i2).subset_of(unify_vars(a, b)));
            lemma_len_subset(unify_vars(*i1, *i2), unify_vars(a, b));
        },
        _ => {},
    }
}

/// The substitution brings no visible variable into a type but those of `vs`.
pub open spec fn adds_only(s: Map<Seq<char>, TypeView>, vs: Set<Seq<char>>) -> bool {
    forall|t: TypeView| #[trigger] t.apply(s).visible().subset_of(t.visible().union(vs))
}

/// The substitution changes no type.
pub open spec fn is_identity(s: Map<Seq<char>, TypeView>) -> bool {
    forall|t: TypeView| #[trigger] t.apply(s) == t
}

/// After the substitution the variable `x` is visible in no type.
pub open spec fn eliminates(s: Map<Seq<char>, TypeView>, x: Seq<char>) -> bool {
    forall|t: TypeView| !(#[trigger] t.apply(s)).visible().contains(x)
}

/// The visible variables of a type are finitely many, and free.
pub proof fn lemma_visible(t: TypeView)
    ensures
        t.visible().finite(),
        t.visible().subset_of(t.free_vars()),
    decreases t,
{
    match t {
        TypeView::Func(i, o) => {
            lemma_visible(*i);
            lemma_visible(*o);
        },
        _ => {},
    }
}

/// A one-variable substitution trades the variable for the visible variables
/// of its type.
pub proof fn lemma_apply_binding(x: Seq<char>, to: TypeView, t: TypeView)
    ensures
        t.apply(map![x => to]).visible().subset_of(t.visible().remove(x).union(to.visible())),
    decreases t,
{
    match t {
        TypeView::Func(i, o) => {
            lemma_apply_binding(x, to, *i);
            lemma_apply_binding(x, to, *o);
        },
        _ => {},
    }
}

/// A set that lacks one element of a finite set that holds it is smaller.
pub proof fn lemma_len_without(sub: Set<Seq<char>>, all: Set<Seq<char>>, x: Seq<char>)
    requires
        all.finite(),
        sub.subset_of(all),
        all.contains(x),
        !sub.contains(x),
    ensures
        sub.len() < all.len(),
{
    assert(sub.subset_of(all.remove(x)));
    lemma_len_subset(sub, all.remove(x));
}

/// What a unifier does to the variables, from which the definition of
/// `unify_spec` is seen to be well-founded: a unifier brings in no variable
/// that the two types did not have, and either changes nothing or does away
/// with one of their variables. So the results of two function types, after
/// the unifier of their arguments, are a smaller task.
pub proof fn lemma_unify_progress(a: TypeView, b: TypeView)
    ensures
        unify_spec(a, b) matches Ok(s) ==> adds_only(s, unify_vars(a, b)) && (is_identity(s)
            || exists|x: Seq<char>| unify_vars(a, b).contains(x) && eliminates(s, x)),
        a matches TypeView::Func(i1, o1) ==> (b matches TypeView::Func(i2, o2) ==> (unify_spec(
            *i1,
            *i2,
        ) matches Ok(s1) ==> unify_smaller(o1.apply(s1), o2.apply(s1), a, b))),
    decreases unify_vars(a, b).len(), a.visible_size() + b.visible_size(),
{
    let vars = unify_vars(a, b);
    lemma_visible(a);
    lemma_visible(b);
    match (a, b) {
        (TypeView::Var(x), TypeView::Var(y)) => {
            if x == y {
                lemma_identity_empty();
            } else {
                lemma_bind_progress(x, b, a);
            }
        },
        (TypeView::Var(x), _) => {
            lemma_bind_progress(x, b, a);
        },
        (_, TypeView::Var(y)) => {
            lemma_bind_progress(y, a, b);
            assert(unify_vars(b, a) =~= unify_vars(a, b));
        },
        (TypeView::Func(i1, o1), TypeView::Func(i2, o2)) => {
            lemma_visible(*i1);
            lemma_visible(*i2);
            lemma_visible(*o1);
            lemma_visible(*o2);
            let w1 = unify_vars(*i1, *i2);
            assert(w1.subset_of(vars));
            lemma_len_subset(w1, vars);
            lemma_unify_progress(*i1, *i2);
            match unify_spec(*i1, *i2) {
                Err(_) => {},
                Ok(s1) => {
                    let a2 = o1.apply(s1);
                    let b2 = o2.apply(s1);
                    let v2 = unify_vars(a2, b2);
                    lemma_visible(a2);
                    lemma_visible(b2);
                    assert(a2.visible().subset_of(o1.visible().union(w1)));
                    assert(b2.visible().subset_of(o2.visible().union(w1)));
                    assert(v2.subset_of(vars));
                    lemma_len_subset(v2, vars);
                    if is_identity(s1) {
                        assert(o1.apply(s1) == *o1);
                        assert(o2.apply(s1) == *o2);
                    } else {
                        let x = choose|x: Seq<char>| w1.contains(x) && eliminates(s1, x);
                        assert(!a2.visible().contains(x));
                        assert(!b2.visible().contains(x));
                        lemma_len_without(v2, vars, x);
                    }
                    assert(unify_smaller(a2, b2, a, b));
                    lemma_unify_progress(a2, b2);
                    match unify_spec(a2, b2) {
                        Err(_) => {},
                        Ok(s2) => {
                            let s = compose(s2, s1);
                            assert forall|t: TypeView| #[trigger]
                                t.apply(s).visible().subset_of(t.visible().union(vars)) by {
                                lemma_apply_compose(s2, s1, t);
                                let mid = t.apply(s1);
                                assert(mid.apply(s2).visible().subset_of(mid.visible().union(v2)));
                                assert(mid.visible().subset_of(t.visible().union(w1)));
                            }
                            if is_identity(s1) && is_identity(s2) {
                                assert forall|t: TypeView| #[trigger] t.apply(s) == t by {
                                    lemma_apply_compose(s2, s1, t);
                                    assert(t.apply(s1) == t);
                                    assert(t.apply(s2) == t);
                                }
                            } else if !is_identity(s2) {
                                let x = choose|x: Seq<char>| v2.contains(x) && eliminates(s2, x);
                                assert forall|t: TypeView|
                                    !(#[trigger] t.apply(s)).visible().contains(x) by {
                                    lemma_apply_compose(s2, s1, t);
                                    let mid = t.apply(s1);
                                    assert(!mid.apply(s2).visible().contains(x));
                                }
                                assert(vars.contains(x) && eliminates(s, x));
                            } else {
                                let x = choose|x: Seq<char>| w1.contains(x) && eliminates(s1, x);
                                assert forall|t: TypeView|
                                    !(#[trigger] t.apply(s)).visible().contains(x) by {
                                    lemma_apply_compose(s2, s1, t);
                                    let mid = t.apply(s1);
                                    assert(mid.apply(s2) == mid);
                                    assert(!t.apply(s1).visible().contains(x));
                                }
                                assert(vars.contains(x) && eliminates(s, x));
                            }
                        },
                    }
                },
            }
        },
        (TypeView::Bool, TypeView::Bool) => {
            lemma_identity_empty();
        },
        (TypeView::Int, TypeView::Int) => {
            lemma_identity_empty();
        },
        _ => {},
    }
}

/// How two function types are unified, without the test that the
/// definition of `unify_spec` needs: the arguments first, then the results
/// after the unifier of the arguments; the unifier is the composition.
pub proof fn lemma_unify_function_types(i1: TypeView, o1: TypeView, i2: TypeView, o2: TypeView)
    ensures
        unify_spec(
            TypeView::Func(Box::new(i1), Box::new(o1)),
            TypeView::Func(Box::new(i2), Box::new(o2)),
        ) == match unify_spec(i1, i2) {
            Err(e) => Err(e),
            Ok(s1) => match unify_spec(o1.apply(s1), o2.apply(s1)) {
                Err(e) => Err(e),
                Ok(s2) => Ok(compose(s2, s1)),
            },
        },
{
    lemma_unify_progress(
        TypeView::Func(Box::new(i1), Box::new(o1)),
        TypeView::Func(Box::new(i2), Box::new(o2)),
    );
}

/// The empty substitution changes nothing.
pub proof fn lemma_identity_empty()
    ensures
        is_identity(Map::empty()),
        forall|vs: Set<Seq<char>>| adds_only(Map::empty(), vs),
{
    assert forall|t: TypeView| #[trigger] t.apply(Map::empty()) == t by {
        lemma_apply_empty(t);
    }
    assert forall|vs: Set<Seq<char>>| adds_only(Map::empty(), vs) by {
        assert forall|t: TypeView| #[trigger]
            t.apply(Map::empty()).visible().subset_of(t.visible().union(vs)) by {
            lemma_apply_empty(t);
        }
    }
}

/// A binding that passes the occurs check does away with its variable.
pub proof fn lemma_bind_progress(x: Seq<char>, to: TypeView, other: TypeView)
    requires
        other == TypeView::Var(x),
    ensures
        bind_spec(x, to) matches Ok(s) ==> adds_only(s, unify_vars(other, to)) && unify_vars(
            other,
            to,
        ).contains(x) && eliminates(s, x),
{
    lemma_visible(to);
    if !to.free_vars().contains(x) {
        let s = map![x => to];
        assert forall|t: TypeView| #[trigger]
            t.apply(s).visible().subset_of(t.visible().union(unify_vars(other, to))) by {
            lemma_apply_binding(x, to, t);
        }
        assert forall|t: TypeView| !(#[trigger] t.apply(s)).visible().contains(x) by {
            lemma_apply_binding(x, to, t);
        }
    }
}

/// The diagnostic for a failed unification, found while checking the
/// expression at `position` in the source `path`.
pub open spec fn unify_message(e: UnifyError, position: Position, path: Seq<char>) -> MessageView {
    MessageView {
        severity: Severity::Error,
        position,
        content: ContentView {
            message: match e {
                UnifyError::InfiniteType => "infinite type detected"@,
                UnifyError::Mismatch(expected, found) => "expected "@ + expected.text()
                    + ", found "@ + found.text(),
            },
            indicator_message: Some(" here"@),
            fix_hint: None,
        },
        source_path: path,
    }
}

/// The name of the fresh type variable with the number `n`.
pub open spec fn fresh_name(n: nat) -> Seq<char> {
    "t"@ + decimal(n)
}

/// The fresh type variable with the number `n`.
pub open spec fn fresh_var(n: nat) -> TypeView {
    TypeView::Var(fresh_name(n))
}

/// The type of a built-in operator: both `+` and `-` map two integers to an
/// integer.
pub open spec fn builtin_type(k: TokenKindView) -> Option<TypeView> {
    match k {
        TokenKindView::Plus | TokenKindView::Minus => Some(
            TypeView::Func(
                Box::new(TypeView::Int),
                Box::new(TypeView::Func(Box::new(TypeView::Int), Box::new(TypeView::Int))),
            ),
        ),
        _ => None,
    }
}

/// An instance of the type scheme `t`: its leading quantifiers are taken
/// off, outermost first, and each bound variable gives way to a fresh one,
/// counted from `c`. The result comes with the number of the next fresh
/// variable; there is none where the numbers run out.
pub open spec fn instantiate_spec(t: TypeView, m: Map<Seq<char>, TypeView>, c: nat) -> Option<
    (TypeView, nat),
>
    decreases t,
{
    match t {
        TypeView::Forall(v, inner) => if c < u64::MAX {
            instantiate_spec(*inner, m.insert(v, fresh_var(c)), c + 1)
        } else {
            None
        },
        _ => Some((t.apply(m), c)),
    }
}

/// The names of `names` that are not in `bound`, in their order.
pub open spec fn unbound_names(names: Seq<Seq<char>>, bound: Set<Seq<char>>) -> Seq<Seq<char>>
    decreases names.len(),
{
    if names.len() == 0 {
        names
    } else {
        let front = unbound_names(names.drop_last(), bound);
        if bound.contains(names.last()) {
            front
        } else {
            front.push(names.last())
        }
    }
}

/// `t` under a quantifier for each of `names`, the first name outermost.
pub open spec fn quantify(names: Seq<Seq<char>>, t: TypeView) -> TypeView
    decreases names.len(),
{
    if names.len() == 0 {
        t
    } else {
        quantify(names.drop_last(), TypeView::Forall(names.last(), Box::new(t)))
    }
}

/// The generalization of `t` in the context `ctx`: a quantifier for each
/// variable that is free in `t` and not free in `ctx`, in the order in which
/// they first occur in `t`.
pub open spec fn generalize_spec(ctx: Map<Seq<char>, TypeView>, t: TypeView) -> TypeView {
    quantify(unbound_names(t.free_var_list(), context_free_vars(ctx)), t)
}

/// Why an expression has no type.
pub enum TypeIssue {
    /// The expression holds what the parser could not read. Nothing more is
    /// reported: the parser has done so.
    IllFormed,
    /// The name of this token is not in scope.
    Undefined(TokenView),
    /// A function does not fit its argument, which stands at the position.
    Unify(UnifyError, Position),
    /// The fresh type variables ran out at the position.
    OutOfVariables(Position),
}

/// What inference finds for an expression.
pub struct Typing {
    /// What the type variables of the context have to stand for.
    pub subst: Map<Seq<char>, TypeView>,
    /// The type of the expression.
    pub ty: TypeView,
    /// Number of the next fresh type variable.
    pub next: nat,
}

/// Algorithm W: the typing of the expression `e` in the context `ctx`, with
/// fresh type variables counted from `c`.
pub open spec fn w_spec(ctx: Map<Seq<char>, TypeView>, e: AstView, c: nat) -> Result<
    Typing,
    TypeIssue,
>
    decreases e.size(),
{
    match e {
        AstView::Error => Err(TypeIssue::IllFormed),
        AstView::Expr(inner) => w_spec(ctx, *inner, c),
        AstView::Literal(l) => match l.kind {
            TokenKindView::LiteralInt(_) => Ok(
                Typing { subst: Map::empty(), ty: TypeView::Int, next: c },
            ),
            TokenKindView::LiteralBool(_) => Ok(
                Typing { subst: Map::empty(), ty: TypeView::Bool, next: c },
            ),
            _ => Err(TypeIssue::IllFormed),
        },
        AstView::Name(n) => {
            let scheme = if ctx.dom().contains(n.text()) {
                Some(ctx[n.text()])
            } else {
                builtin_type(n.kind)
            };
            match scheme {
                None => Err(TypeIssue::Undefined(n)),
                Some(t) => match instantiate_spec(t, Map::empty(), c) {
                    None => Err(TypeIssue::OutOfVariables(n.position)),
                    Some((ty, next)) => Ok(Typing { subst: Map::empty(), ty, next }),
                },
            }
        },
        AstView::Abstraction(n, body) => if c < u64::MAX {
            let var = fresh_var(c);
            match w_spec(ctx.insert(n.text(), var), *body, c + 1) {
                Err(issue) => Err(issue),
                Ok(t) => Ok(
                    Typing {
                        subst: t.subst,
                        ty: TypeView::Func(Box::new(var), Box::new(t.ty)).apply(t.subst),
                        next: t.next,
                    },
                ),
            }
        } else {
            Err(TypeIssue::OutOfVariables(n.position))
        },
        AstView::Application(f, a) => match w_spec(ctx, *f, c) {
            Err(issue) => Err(issue),
            Ok(t1) => match w_spec(apply_context(ctx, t1.subst), *a, t1.next) {
                Err(issue) => Err(issue),
                Ok(t2) => if t2.next < u64::MAX {
                    let var = fresh_var(t2.next);
                    match unify_spec(
                        t1.ty.apply(t2.subst),
                        TypeView::Func(Box::new(t2.ty), Box::new(var)),
                    ) {
                        Err(u) => Err(TypeIssue::Unify(u, a.position())),
                        Ok(s3) => Ok(
                            Typing {
                                subst: compose(s3, compose(t2.subst, t1.subst)),
                                ty: var.apply(s3),
                                next: t2.next + 1,
                            },
                        ),
                    }
                } else {
                    Err(TypeIssue::OutOfVariables(a.position()))
                },
            },
        },
        AstView::Let(n, bound, body) => match w_spec(ctx, *bound, c) {
            Err(issue) => Err(issue),
            Ok(t1) => {
                let inner = apply_context(ctx, t1.subst);
                match w_spec(
                    inner.insert(n.text(), generalize_spec(inner, t1.ty)),
                    *body,
                    t1.next,
                ) {
                    Err(issue) => Err(issue),
                    Ok(t2) => Ok(
                        Typing { subst: compose(t2.subst, t1.subst), ty: t2.ty, next: t2.next },
                    ),
                }
            },
        },
        AstView::BinaryOp(op, l, r) => {
            proof {
                reveal_with_fuel(AstView::size, 4);
            }
            w_spec(ctx, e.desugared(), c)
        },
    }
}

/// The occurs check: in every context an abstraction that applies its
/// parameter to itself has no type, because the type of the parameter would
/// have to hold itself. (Two fresh variables must be left to come that far.)
pub proof fn lemma_self_application_has_no_type(
    ctx: Map<Seq<char>, TypeView>,
    x: TokenView,
    c: nat,
)
    requires
        c + 1 < u64::MAX,
    ensures
        w_spec(
            ctx,
            AstView::Abstraction(
                x,
                Box::new(
                    AstView::Application(Box::new(AstView::Name(x)), Box::new(AstView::Name(x))),
                ),
            ),
            c,
        ) == Err::<Typing, TypeIssue>(TypeIssue::Unify(UnifyError::InfiniteType, x.position)),
{
    let var = fresh_var(c);
    let inner = ctx.insert(x.text(), var);
    let name = AstView::Name(x);
    let body = AstView::Application(Box::new(name), Box::new(name));
    let empty = Map::<Seq<char>, TypeView>::empty();
    let first = Typing { subst: empty, ty: var, next: c + 1 };
    assert(instantiate_spec(var, empty, c + 1) == Some((var, c + 1)));
    assert(w_spec(inner, name, c + 1) == Ok::<Typing, TypeIssue>(first));
    assert(apply_context(inner, empty)[x.text()] == var);
    assert(w_spec(apply_context(inner, empty), name, c + 1) == Ok::<Typing, TypeIssue>(first));
    let result = TypeView::Func(Box::new(var), Box::new(fresh_var(c + 1)));
    assert(result.free_vars().contains(fresh_name(c)));
    assert(unify_spec(var.apply(empty), result) == Err::<Map<Seq<char>, TypeView>, UnifyError>(
        UnifyError::InfiniteType,
    ));
    assert(name.position() == x.position);
    assert(w_spec(inner, body, c + 1) == Err::<Typing, TypeIssue>(
        TypeIssue::Unify(UnifyError::InfiniteType, x.position),
    ));
}

/// Fresh type variables with different numbers have different names.
pub proof fn lemma_fresh_names_distinct(a: nat, b: nat)
    requires
        fresh_name(a) == fresh_name(b),
    ensures
        a == b,
{
    let prefix = "t"@;
    assert(decimal(a) =~= fresh_name(a).subrange(prefix.len() as int, fresh_name(a).len() as int));
    assert(decimal(b) =~= fresh_name(b).subrange(prefix.len() as int, fresh_name(b).len() as int));
    lemma_decimal_injective(a, b);
}

/// A type under quantifiers for `names` has the free variables of the type
/// but `names`.
pub proof fn lemma_quantify_free_vars(names: Seq<Seq<char>>, t: TypeView, n: Seq<char>)
    ensures
        quantify(names, t).free_vars().contains(n) == (t.free_vars().contains(n)
            && !names.contains(n)),
    decreases names.len(),
{
    if names.len() > 0 {
        let front = names.drop_last();
        let inner = TypeView::Forall(names.last(), Box::new(t));
        lemma_quantify_free_vars(front, inner, n);
        if names.contains(n) {
            let i = choose|i: int| 0 <= i < names.len() && names[i] == n;
            if i < names.len() - 1 {
                assert(front[i] == n);
            }
        }
        if front.contains(n) {
            let i = choose|i: int| 0 <= i < front.len() && front[i] == n;
            assert(names[i] == n);
        }
        if names.last() == n {
            assert(names[names.len() - 1] == n);
        }
    }
}

/// Where the context binds nothing, every name is unbound.
pub proof fn lemma_unbound_in_empty(names: Seq<Seq<char>>)
    ensures
        unbound_names(names, context_free_vars(Map::empty())) == names,
    decreases names.len(),
{
    if names.len() > 0 {
        lemma_unbound_in_empty(names.drop_last());
        assert(names.drop_last().push(names.last()) =~= names);
    }
}

/// The type that the checker reports for a whole expression is closed: no
/// type variable is free in it.
pub proof fn lemma_inferred_type_closed(e: AstView, c: nat, n: Seq<char>)
    ensures
        infer_spec(e, c) matches Ok(t) ==> !t.free_vars().contains(n),
{
    match w_spec(Map::empty(), e, c) {
        Ok(typing) => {
            let names = typing.ty.free_var_list();
            lemma_unbound_in_empty(names);
            lemma_free_var_list(typing.ty);
            lemma_quantify_free_vars(names, typing.ty, n);
        },
        Err(_) => {},
    }
}

/// The diagnostic for a name that is not in scope.
pub open spec fn undefined_message(n: TokenView) -> MessageView {
    MessageView {
        severity: Severity::Error,
        position: n.position,
        content: ContentView {
            message: "'"@ + n.text() + "' is not defined here"@,
            indicator_message: None,
            fix_hint: None,
        },
        source_path: n.source_path,
    }
}

/// The diagnostic for fresh type variables that ran out.
pub open spec fn exhausted_message(position: Position, path: Seq<char>) -> MessageView {
    MessageView {
        severity: Severity::Error,
        position,
        content: ContentView {
            message: "too many type variables"@,
            indicator_message: Some(" here"@),
            fix_hint: None,
        },
        source_path: path,
    }
}

/// What is reported for an expression without a type, in the source `path`.
pub open spec fn issue_messages(issue: TypeIssue, path: Seq<char>) -> Seq<MessageView> {
    match issue {
        TypeIssue::IllFormed => seq![],
        TypeIssue::Undefined(n) => seq![undefined_message(n)],
        TypeIssue::Unify(u, position) => seq![unify_message(u, position, path)],
        TypeIssue::OutOfVariables(position) => seq![exhausted_message(position, path)],
    }
}

/// The type that the checker reports for a whole expression: the type found
/// by `w_spec` in the empty context, with fresh type variables counted
/// from `c`, generalized.
pub open spec fn infer_spec(e: AstView, c: nat) -> Result<TypeView, TypeIssue> {
    match w_spec(Map::empty(), e, c) {
        Ok(t) => Ok(generalize_spec(Map::empty(), t.ty)),
        Err(issue) => Err(issue),
    }
}

/// The state of one run of the inferencer over one source.
pub struct TypeChecker {
    /// Path of the source that is checked.
    pub source_path: String,
    /// The diagnostics so far.
    pub errors: Vec<Message>,
    /// Number of the next fresh type variable.
    pub variable_counter: u64,
}

impl TypeChecker {
    /// A checker for the source at `path`, with no diagnostics and all
    /// variables fresh.
    pub fn new(path: &String) -> (checker: Self)
        ensures
            checker.source_path@ == path@,
            checker.errors@.len() == 0,
            checker.variable_counter == 0,
    {
        Self { source_path: path.clone(), errors: Vec::new(), variable_counter: 0 }
    }

    fn report(&mut self, position: Position, message: String)
        ensures
            final(self).source_path == old(self).source_path,
            final(self).variable_counter == old(self).variable_counter,
            message_views(final(self).errors@) == message_views(old(self).errors@).push(
                MessageView {
                    severity: Severity::Error,
                    position,
                    content: ContentView {
                        message: message@,
                        indicator_message: Some(" here"@),
                        fix_hint: None,
                    },
                    source_path: old(self).source_path@,
                },
            ),
    {
        let m = Message {
            severity: Severity::Error,
            position,
            content: Content {
                message,
                indicator_message: Some(String::from_str(" here")),
                fix_hint: None,
            },
            source_path: self.source_path.clone(),
        };
        crate::message::push_message(&mut self.errors, m);
    }

    fn mismatch(&mut self, expr: &Ast, a: &TType, b: &TType) -> (r: Result<Substitution, ()>)
        ensures
            r is Err,
            final(self).source_path == old(self).source_path,
            final(self).variable_counter == old(self).variable_counter,
            message_views(final(self).errors@) == message_views(old(self).errors@).push(
                unify_message(
                    UnifyError::Mismatch(a@, b@),
                    expr@.position(),
                    old(self).source_path@,
                ),
            ),
    {
        let mut text = String::from_str("expected ");
        text.append(a.text().as_str());
        text.append(", found ");
        text.append(b.text().as_str());
        self.report(expr.position(), text);
        Err(())
    }

    fn bind(&mut self, expr: &Ast, x: &String, t: &TType) -> (r: Result<Substitution, ()>)
        ensures
            final(self).source_path == old(self).source_path,
            final(self).variable_counter == old(self).variable_counter,
            match bind_spec(x@, t@) {
                Ok(s) => r is Ok && r->Ok_0@ == s && final(self).errors == old(self).errors,
                Err(e) => r is Err && message_views(final(self).errors@) == message_views(
                    old(self).errors@,
                ).push(unify_message(e, expr@.position(), old(self).source_path@)),
            },
    {
        let free = t.free_variables();
        proof {
            lemma_free_var_list(t@);
        }
        if crate::language::types::has_name(&free, x.as_str()) {
            self.report(expr.position(), String::from_str("infinite type detected"));
            Err(())
        } else {
            let mut s = Substitution::new();
            s.insert(x.clone(), t.clone());
            Ok(s)
        }
    }

    /// The type of a built-in operator.
    pub fn built_in(token: &Token) -> (r: Option<TType>)
        ensures
            match builtin_type(token@.kind) {
                Some(t) => r is Some && r->Some_0@ == t,
                None => r is None,
            },
    {
        proof {
            reveal_with_fuel(crate::language::types::ttype_view, 4);
        }
        match token.kind {
            TokenKind::Plus | TokenKind::Minus => Some(
                TType::Application(
                    TypeFunc::Func {
                        input: Box::new(TType::Application(TypeFunc::Int)),
                        output: Box::new(
                            TType::Application(
                                TypeFunc::Func {
                                    input: Box::new(TType::Application(TypeFunc::Int)),
                                    output: Box::new(TType::Application(TypeFunc::Int)),
                                },
                            ),
                        ),
                    },
                ),
            ),
            _ => None,
        }
    }

    /// A fresh type variable, or `None` where the numbers have run out.
    pub fn variable(&mut self) -> (r: Option<TType>)
        ensures
            final(self).source_path == old(self).source_path,
            final(self).errors == old(self).errors,
            old(self).variable_counter < u64::MAX ==> r is Some && r->Some_0@ == fresh_var(
                old(self).variable_counter as nat,
            ) && final(self).variable_counter == old(self).variable_counter + 1,
            old(self).variable_counter == u64::MAX ==> r is None && final(self).variable_counter
                == old(self).variable_counter,
    {
        if self.variable_counter == u64::MAX {
            return None;
        }
        let mut v = String::from_str("t");
        v.append(decimal_string(self.variable_counter as u128).as_str());
        self.variable_counter += 1;
        Some(TType::Variable(v))
    }

    /// An instance of the type scheme `p`, with the bound variables that
    /// `mappings` already replaces.
    pub fn instantiate(&mut self, p: &TType, mappings: Option<Substitution>) -> (r: Option<TType>)
        ensures
            final(self).source_path == old(self).source_path,
            final(self).errors == old(self).errors,
            match instantiate_spec(
                p@,
                match mappings {
                    Some(m) => m@,
                    None => Map::empty(),
                },
                old(self).variable_counter as nat,
            ) {
                Some((t, next)) => r is Some && r->Some_0@ == t && final(self).variable_counter
                    == next,
                None => r is None,
            },
        decreases p,
    {
        let mut m = match mappings {
            Some(m) => m,
            None => Substitution::new(),
        };
        match p {
            TType::Quantifier { variable, inner } => {
                match self.variable() {
                    Some(var) => {
                        m.insert(variable.clone(), var);
                        self.instantiate(inner, Some(m))
                    },
                    None => None,
                }
            },
            x => Some(x.apply(&m)),
        }
    }

    /// The generalization of `p` in the context `ctx`.
    pub fn generalize(&mut self, ctx: &Context, p: &TType) -> (r: TType)
        ensures
            *final(self) == *old(self),
            r@ == generalize_spec(ctx@, p@),
    {
        let free = p.free_variables();
        let mut r = p.clone();
        let mut i: usize = free.len();
        let ghost names = p@.free_var_list();
        let ghost bound = context_free_vars(ctx@);
        proof {
            assert(names.take(i as int) == names);
        }
        while i > 0
            invariant
                i <= free.len(),
                names == names_of(free@),
                bound == context_free_vars(ctx@),
                quantify(unbound_names(names, bound), p@) == quantify(
                    unbound_names(names.take(i as int), bound),
                    r@,
                ),
            decreases i,
        {
            proof {
                assert(names.take(i as int).drop_last() == names.take(i - 1));
                assert(names.take(i as int).last() == free@[i - 1]@);
            }
            i -= 1;
            if !ctx.has_free(free[i].as_str()) {
                proof {
                    let kept = unbound_names(names.take(i + 1), bound);
                    assert(kept.drop_last() == unbound_names(names.take(i as int), bound));
                    assert(kept.last() == free@[i as int]@);
                }
                r = TType::Quantifier { variable: free[i].clone(), inner: Box::new(r) };
            }
        }
        r
    }

    fn undefined(&mut self, n: &Token)
        ensures
            final(self).source_path == old(self).source_path,
            final(self).variable_counter == old(self).variable_counter,
            message_views(final(self).errors@) == message_views(old(self).errors@).push(
                undefined_message(n@),
            ),
    {
        let mut text = String::from_str("'");
        text.append(n.text().as_str());
        text.append("' is not defined here");
        let m = Message {
            severity: Severity::Error,
            position: n.position,
            content: Content { message: text, indicator_message: None, fix_hint: None },
            source_path: n.source_path.clone(),
        };
        crate::message::push_message(&mut self.errors, m);
    }

    fn exhausted(&mut self, position: Position)
        ensures
            final(self).source_path == old(self).source_path,
            final(self).variable_counter == old(self).variable_counter,
            message_views(final(self).errors@) == message_views(old(self).errors@).push(
                exhausted_message(position, old(self).source_path@),
            ),
    {
        self.report(position, String::from_str("too many type variables"));
    }

    /// The most general unifier of `a` and `b`. Where there is none, a
    /// diagnostic that points at `expr` is put behind the others.
    pub fn unify(&mut self, expr: &Ast, a: &TType, b: &TType) -> (r: Result<Substitution, ()>)
        ensures
            final(self).source_path == old(self).source_path,
            final(self).variable_counter == old(self).variable_counter,
            match unify_spec(a@, b@) {
                Ok(s) => r is Ok && r->Ok_0@ == s && final(self).errors == old(self).errors,
                Err(e) => r is Err && message_views(final(self).errors@) == message_views(
                    old(self).errors@,
                ).push(unify_message(e, expr@.position(), old(self).source_path@)),
            },
        decreases unify_vars(a@, b@).len(), a@.visible_size() + b@.visible_size(),
    {
        match a {
            TType::Variable(x) => {
                match b {
                    TType::Variable(y) => {
                        if *x == *y {
                            return Ok(Substitution::new());
                        }
                    },
                    _ => {},
                }
                self.bind(expr, x, b)
            },
            TType::Application(fa) => match b {
                TType::Variable(y) => self.bind(expr, y, a),
                TType::Application(fb) => match fa {
                    TypeFunc::Func { input: i1, output: o1 } => match fb {
                        TypeFunc::Func { input: i2, output: o2 } => {
                            proof {
                                lemma_unify_progress(a@, b@);
                                lemma_visible(a@);
                                lemma_visible(b@);
                                assert(unify_vars(i1@, i2@).subset_of(unify_vars(a@, b@)));
                                lemma_len_subset(unify_vars(i1@, i2@), unify_vars(a@, b@));
                            }
                            let s1 = match self.unify(expr, i1, i2) {
                                Ok(s1) => s1,
                                Err(_) => {
                                    return Err(());
                                },
                            };
                            let a2 = s1.apply(&**o1);
                            let b2 = s1.apply(&**o2);
                            let s2 = match self.unify(expr, &a2, &b2) {
                                Ok(s2) => s2,
                                Err(_) => {
                                    return Err(());
                                },
                            };
                            Ok(s1.apply(&s2))
                        },
                        _ => self.mismatch(expr, a, b),
                    },
                    TypeFunc::Bool => match fb {
                        TypeFunc::Bool => Ok(Substitution::new()),
                        _ => self.mismatch(expr, a, b),
                    },
                    TypeFunc::Int => match fb {
                        TypeFunc::Int => Ok(Substitution::new()),
                        _ => self.mismatch(expr, a, b),
                    },
                },
                _ => self.mismatch(expr, a, b),
            },
            TType::Quantifier { .. } => match b {
                TType::Variable(y) => self.bind(expr, y, a),
                _ => self.mismatch(expr, a, b),
            },
        }
    }

    /// Algorithm W: the substitution and the type of `expr` in the context
    /// `ctx`. Where the expression has no type, the reason is put behind the
    /// diagnostics.
    pub fn w(&mut self, ctx: &Context, expr: &Ast) -> (r: Result<(Substitution, TType), ()>)
        ensures
            final(self).source_path == old(self).source_path,
            match w_spec(ctx@, expr@, old(self).variable_counter as nat) {
                Ok(t) => r is Ok && r->Ok_0.0@ == t.subst && r->Ok_0.1@ == t.ty
                    && final(self).variable_counter == t.next
                    && final(self).errors == old(self).errors,
                Err(issue) => r is Err && message_views(final(self).errors@) == message_views(
                    old(self).errors@,
                ) + issue_messages(issue, old(self).source_path@),
            },
        decreases expr@.size(),
    {
        let ghost before = message_views(self.errors@);
        let ghost path = self.source_path@;
        proof {
            assert(before + Seq::<MessageView>::empty() =~= before);
            assert forall|m: MessageView| before + seq![m] =~= before.push(m) by {}
        }
        match expr {
            Ast::Error => Err(()),
            Ast::Expr(e) => self.w(ctx, e),
            Ast::Literal(l) => match l.kind {
                TokenKind::LiteralInt(_) => Ok(
                    (Substitution::new(), TType::Application(TypeFunc::Int)),
                ),
                TokenKind::LiteralBool(_) => Ok(
                    (Substitution::new(), TType::Application(TypeFunc::Bool)),
                ),
                _ => Err(()),
            },
            Ast::Name(n) => {
                let key = n.text();
                let instance = match ctx.get(key.as_str()) {
                    Some(t) => self.instantiate(t, None),
                    None => match TypeChecker::built_in(n) {
                        Some(t) => self.instantiate(&t, None),
                        None => {
                            self.undefined(n);
                            return Err(());
                        },
                    },
                };
                match instance {
                    Some(t) => Ok((Substitution::new(), t)),
                    None => {
                        self.exhausted(n.position);
                        Err(())
                    },
                }
            },
            Ast::Abstraction(n, e) => {
                let var = match self.variable() {
                    Some(var) => var,
                    None => {
                        self.exhausted(n.position);
                        return Err(());
                    },
                };
                let mut ctx_with_var = ctx.clone();
                ctx_with_var.insert(n.text(), var.clone());
                let (s, e_t) = match self.w(&ctx_with_var, e) {
                    Ok(found) => found,
                    Err(_) => {
                        return Err(());
                    },
                };
                let t = s.apply(
                    &TType::Application(
                        TypeFunc::Func { input: Box::new(var), output: Box::new(e_t) },
                    ),
                );
                Ok((s, t))
            },
            Ast::Application(e1, e2) => {
                let (s1, e1_t) = match self.w(ctx, e1) {
                    Ok(found) => found,
                    Err(_) => {
                        return Err(());
                    },
                };
                let (s2, e2_t) = match self.w(&s1.apply(ctx), e2) {
                    Ok(found) => found,
                    Err(_) => {
                        return Err(());
                    },
                };
                let var = match self.variable() {
                    Some(var) => var,
                    None => {
                        self.exhausted(e2.position());
                        return Err(());
                    },
                };
                let s3 = match self.unify(
                    e2,
                    &s2.apply(&e1_t),
                    &TType::Application(
                        TypeFunc::Func { input: Box::new(e2_t), output: Box::new(var.clone()) },
                    ),
                ) {
                    Ok(s3) => s3,
                    Err(_) => {
                        return Err(());
                    },
                };
                Ok((s1.apply(&s2).apply(&s3), s3.apply(&var)))
            },
            Ast::Let(n, e1, e2) => {
                let (s1, e1_t) = match self.w(ctx, e1) {
                    Ok(found) => found,
                    Err(_) => {
                        return Err(());
                    },
                };
                let mut new_ctx = s1.apply(ctx);
                let scheme = self.generalize(&new_ctx, &e1_t);
                new_ctx.insert(n.text(), scheme);
                let (s2, e2_t) = match self.w(&new_ctx, e2) {
                    Ok(found) => found,
                    Err(_) => {
                        return Err(());
                    },
                };
                Ok((s1.apply(&s2), e2_t))
            },
            Ast::BinaryOp(t, e1, e2) => {
                // `l op r` is checked as the application `(op l) r`.
                let ast = Ast::Application(
                    Box::new(
                        Ast::Application(Box::new(Ast::Name(t.clone())), Box::new((**e1).clone())),
                    ),
                    Box::new((**e2).clone()),
                );
                proof {
                    reveal_with_fuel(crate::language::ast::ast_view, 4);
                    reveal_with_fuel(AstView::size, 4);
                    assert(ast@ == expr@.desugared());
                }
                self.w(ctx, &ast)
            },
        }
    }

    /// The type of a whole expression: what `w` finds in the empty context,
    /// generalized.
    pub fn infer(&mut self, expr: &Ast) -> (r: Result<TType, ()>)
        ensures
            final(self).source_path == old(self).source_path,
            match infer_spec(expr@, old(self).variable_counter as nat) {
                Ok(t) => r is Ok && r->Ok_0@ == t && final(self).errors == old(self).errors,
                Err(issue) => r is Err && message_views(final(self).errors@) == message_views(
                    old(self).errors@,
                ) + issue_messages(issue, old(self).source_path@),
            },
    {
        let empty = TypeMap::new();
        match self.w(&empty, expr) {
            Ok((_, t)) => Ok(self.generalize(&empty, &t)),
            Err(_) => Err(()),
        }
    }
}

/// What the checker reads: paths with their expressions.
pub type Input = crate::phase::ast_builder::Output;

/// What the checker makes of them: paths with the types of their expressions.
pub type Output = Vec<(String, TType)>;

/// The models of a list of paths with types.
pub open spec fn type_views(output: Seq<(String, TType)>) -> Seq<(Seq<char>, TypeView)> {
    output.map_values(|entry: (String, TType)| (entry.0@, entry.1@))
}

/// The paths of the expressions that have a type, with their types, in order.
pub open spec fn typed(input: Seq<(String, Ast)>) -> Seq<(Seq<char>, TypeView)>
    decreases input.len(),
{
    if input.len() == 0 {
        seq![]
    } else {
        let front = typed(input.drop_last());
        match infer_spec(input.last().1@, 0) {
            Ok(t) => front.push((input.last().0@, t)),
            Err(_) => front,
        }
    }
}

/// What is reported for the expressions that have no type, in order.
pub open spec fn type_errors(input: Seq<(String, Ast)>) -> Seq<MessageView>
    decreases input.len(),
{
    if input.len() == 0 {
        seq![]
    } else {
        let front = type_errors(input.drop_last());
        match infer_spec(input.last().1@, 0) {
            Ok(_) => front,
            Err(issue) => front + issue_messages(issue, input.last().0@),
        }
    }
}

/// Whether every expression has a type.
pub open spec fn all_typed(input: Seq<(String, Ast)>) -> bool {
    forall|i: int| 0 <= i < input.len() ==> infer_spec((#[trigger] input[i]).1@, 0) is Ok
}

impl Phase<Input, Output> for TypeChecker {
    /// A fresh checker is for a source without a path: no diagnostic so
    /// far, and all type variables fresh.
    open spec fn fresh(&self) -> bool {
        &&& self.source_path@ == Seq::<char>::empty()
        &&& self.errors@ == Seq::<Message>::empty()
        &&& self.variable_counter == 0
    }

    /// A checker for a source without a path.
    fn new() -> Self {
        let checker = TypeChecker::new(&String::new());
        assert(checker.source_path@ =~= Seq::<char>::empty());
        assert(checker.errors@ =~= Seq::<Message>::empty());
        checker
    }

    /// Infers the type of the expression of every source. If each has one,
    /// the output holds them; if one has none, the phase fails with what is
    /// reported for those that have none.
    fn run(&mut self, _config: &Config, input: &Input) -> (r: PhaseResult<Output>)
        ensures
            all_typed(input@) ==> r is Success && type_views(r.output()->Some_0@) == typed(input@),
            !all_typed(input@) ==> r is Failure && r.errors() == type_errors(input@),
    {
        let mut out: Output = Vec::new();
        let mut errs: Vec<Message> = Vec::new();
        let mut failed = false;
        let mut i: usize = 0;
        assert(input@.take(0) =~= Seq::<(String, Ast)>::empty());
        assert(message_views(errs@) =~= type_errors(input@.take(0)));
        assert(type_views(out@) =~= typed(input@.take(0)));
        while i < input.len()
            invariant
                i <= input.len(),
                failed == !all_typed(input@.take(i as int)),
                type_views(out@) == typed(input@.take(i as int)),
                message_views(errs@) == type_errors(input@.take(i as int)),
            decreases input.len() - i,
        {
            *self = TypeChecker::new(&input[i].0);
            let ghost before = input@.take(i as int);
            let ghost now = input@.take(i + 1);
            proof {
                assert(now.drop_last() =~= before);
                assert(now.last() == input@[i as int]);
                assert(message_views(self.errors@) =~= Seq::<MessageView>::empty());
            }
            match self.infer(&input[i].1) {
                Ok(t) => {
                    let ghost old_out = type_views(out@);
                    out.push((input[i].0.clone(), t));
                    proof {
                        assert(type_views(out@) =~= old_out.push((input@[i as int].0@, t@)));
                        if all_typed(before) {
                            assert forall|j: int| 0 <= j < now.len() implies infer_spec(
                                (#[trigger] now[j]).1@,
                                0,
                            ) is Ok by {
                                if j < i {
                                    assert(now[j] == before[j]);
                                }
                            }
                        } else {
                            let j = choose|j: int|
                                0 <= j < before.len() && !(infer_spec(
                                    (#[trigger] before[j]).1@,
                                    0,
                                ) is Ok);
                            assert(now[j] == before[j]);
                        }
                    }
                },
                Err(_) => {
                    failed = true;
                    proof {
                        assert(now[i as int] == input@[i as int]);
                        let issue = infer_spec(input@[i as int].1@, 0)->Err_0;
                        assert(message_views(self.errors@) =~= issue_messages(
                            issue,
                            input@[i as int].0@,
                        ));
                    }
                    append_messages(&mut errs, &self.errors);
                },
            }
            i += 1;
        }
        proof {
            assert(input@.take(input.len() as int) =~= input@);
        }
        if failed {
            PhaseResult::Failure(errs)
        } else {
            PhaseResult::Success(out)
        }
    }
}

} // verus!
