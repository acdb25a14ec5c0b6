//! What holds of unification: a unifier unifies, it is the most general
//! one, it changes nothing when applied twice, and the order of the two
//! types matters for the names of the variables only.

use vstd::prelude::*;
use vstd::set_lib::*;
use crate::language::types::{compose, lemma_apply_compose, lemma_apply_empty, TypeView};
use crate::phase::type_checker::{
    adds_only, bind_spec, eliminates, lemma_apply_binding, lemma_unify_progress, lemma_visible,
    unify_spec, unify_vars, UnifyError,
};

verus! {

/// A renaming of type variables, with the renaming that undoes it.
pub struct Renaming {
    pub to: spec_fn(Seq<char>) -> Seq<char>,
    pub back: spec_fn(Seq<char>) -> Seq<char>,
}

impl Renaming {
    /// Each of the two renamings undoes the other: no two variables get
    /// one name, and every name is taken.
    pub open spec fn is_bijection(self) -> bool {
        &&& forall|n: Seq<char>| #[trigger] (self.back)((self.to)(n)) == n
        &&& forall|n: Seq<char>| #[trigger] (self.to)((self.back)(n)) == n
    }

    /// The renaming that changes nothing.
    pub open spec fn identity() -> Renaming {
        Renaming { to: |n: Seq<char>| n, back: |n: Seq<char>| n }
    }

    /// The renaming that trades `x` for `y`.
    pub open spec fn swap(x: Seq<char>, y: Seq<char>) -> Renaming {
        let f = |n: Seq<char>|
            if n == x {
                y
            } else if n == y {
                x
            } else {
                n
            };
        Renaming { to: f, back: f }
    }

    /// First `inner`, then `self`.
    pub open spec fn after(self, inner: Renaming) -> Renaming {
        Renaming {
            to: |n: Seq<char>| (self.to)((inner.to)(n)),
            back: |n: Seq<char>| (inner.back)((self.back)(n)),
        }
    }
}

impl TypeView {
    /// Whether the type is free of quantifiers.
    pub open spec fn is_mono(self) -> bool
        decreases self,
    {
        match self {
            TypeView::Func(i, o) => i.is_mono() && o.is_mono(),
            TypeView::Forall(_, _) => false,
            _ => true,
        }
    }

    /// The type with its variables renamed.
    pub open spec fn renamed(self, r: Renaming) -> TypeView
        decreases self,
    {
        match self {
            TypeView::Var(n) => TypeView::Var((r.to)(n)),
            TypeView::Func(i, o) => TypeView::Func(Box::new(i.renamed(r)), Box::new(o.renamed(r))),
            TypeView::Forall(v, inner) => TypeView::Forall(v, Box::new(inner.renamed(r))),
            _ => self,
        }
    }
}

/// The substitution `s` seen through the renaming `r`: where `s` maps `x`
/// to a type, the result maps the new name of `x` to that type renamed.
pub open spec fn renamed_subst(s: Map<Seq<char>, TypeView>, r: Renaming) -> Map<
    Seq<char>,
    TypeView,
> {
    Map::new(|k: Seq<char>| s.dom().contains((r.back)(k)), |k: Seq<char>| s[(r.back)(k)].renamed(r))
}

/// Whether every type that the substitution maps to is free of quantifiers.
pub open spec fn maps_to_mono(s: Map<Seq<char>, TypeView>) -> bool {
    forall|k: Seq<char>| s.dom().contains(k) ==> (#[trigger] s[k]).is_mono()
}

/// Whether two failures of unification are of one sort.
pub open spec fn same_sort(a: UnifyError, b: UnifyError) -> bool {
    (a is InfiniteType) == (b is InfiniteType)
}

/// Whether two results of unification are alike but for the names of the
/// variables: both fail, for one sort of reason, or both succeed, and then
/// one unifier is the other followed by a renaming that can be undone.
pub open spec fn alike(
    one: Result<Map<Seq<char>, TypeView>, UnifyError>,
    other: Result<Map<Seq<char>, TypeView>, UnifyError>,
) -> bool {
    match (one, other) {
        (Ok(s), Ok(t)) => renames_into(s, t),
        (Err(a), Err(b)) => same_sort(a, b),
        _ => false,
    }
}

/// Whether the substitution `t` is `s` followed by a renaming of variables
/// that can be undone.
pub open spec fn renames_into(s: Map<Seq<char>, TypeView>, t: Map<Seq<char>, TypeView>) -> bool {
    exists|r: Renaming| r.is_bijection() && #[trigger] follows_by(s, t, r)
}

/// Whether the substitution `t` does to every type what `s` followed by the
/// renaming `r` does.
pub open spec fn follows_by(
    s: Map<Seq<char>, TypeView>,
    t: Map<Seq<char>, TypeView>,
    r: Renaming,
) -> bool {
    forall|ty: TypeView| #[trigger] ty.apply(t) == ty.apply(s).renamed(r)
}

/// Renaming after a substitution is the renamed substitution after renaming.
pub proof fn lemma_renamed_apply(t: TypeView, s: Map<Seq<char>, TypeView>, r: Renaming)
    requires
        r.is_bijection(),
    ensures
        t.apply(s).renamed(r) == t.renamed(r).apply(renamed_subst(s, r)),
    decreases t,
{
    match t {
        TypeView::Var(n) => {
            assert((r.back)((r.to)(n)) == n);
        },
        TypeView::Func(i, o) => {
            lemma_renamed_apply(*i, s, r);
            lemma_renamed_apply(*o, s, r);
        },
        TypeView::Forall(_, inner) => {
            lemma_renamed_apply(*inner, s, r);
        },
        _ => {},
    }
}

/// The renamed composition is the composition of the renamed substitutions.
pub proof fn lemma_renamed_compose(
    outer: Map<Seq<char>, TypeView>,
    inner: Map<Seq<char>, TypeView>,
    r: Renaming,
)
    requires
        r.is_bijection(),
    ensures
        renamed_subst(compose(outer, inner), r) == compose(
            renamed_subst(outer, r),
            renamed_subst(inner, r),
        ),
{
    let left = renamed_subst(compose(outer, inner), r);
    let right = compose(renamed_subst(outer, r), renamed_subst(inner, r));
    assert forall|k: Seq<char>| left.dom().contains(k) == right.dom().contains(k) by {}
    assert forall|k: Seq<char>| left.dom().contains(k) implies left[k] == right[k] by {
        let n = (r.back)(k);
        if inner.dom().contains(n) {
            lemma_renamed_apply(inner[n], outer, r);
        }
    }
    assert(left =~= right);
}

/// Renaming keeps a type free of quantifiers, and renames its free variables.
pub proof fn lemma_renamed_mono(t: TypeView, r: Renaming, x: Seq<char>)
    requires
        r.is_bijection(),
        t.is_mono(),
    ensures
        t.renamed(r).is_mono(),
        t.renamed(r).free_vars().contains((r.to)(x)) == t.free_vars().contains(x),
        t.renamed(r).visible_size() == t.visible_size(),
    decreases t,
{
    match t {
        TypeView::Var(n) => {
            assert((r.back)((r.to)(n)) == n);
            assert((r.back)((r.to)(x)) == x);
        },
        TypeView::Func(i, o) => {
            lemma_renamed_mono(*i, r, x);
            lemma_renamed_mono(*o, r, x);
        },
        _ => {},
    }
}

/// A substitution that maps to types free of quantifiers keeps a type free
/// of quantifiers.
pub proof fn lemma_apply_mono(t: TypeView, s: Map<Seq<char>, TypeView>)
    requires
        t.is_mono(),
        maps_to_mono(s),
    ensures
        t.apply(s).is_mono(),
    decreases t,
{
    match t {
        TypeView::Func(i, o) => {
            lemma_apply_mono(*i, s);
            lemma_apply_mono(*o, s);
        },
        _ => {},
    }
}

/// The unifier of two types free of quantifiers maps to such types only.
pub proof fn lemma_unifier_mono(a: TypeView, b: TypeView)
    requires
        a.is_mono(),
        b.is_mono(),
    ensures
        unify_spec(a, b) matches Ok(s) ==> maps_to_mono(s),
    decreases unify_vars(a, b).len(), a.visible_size() + b.visible_size(),
{
    match (a, b) {
        (TypeView::Func(i1, o1), TypeView::Func(i2, o2)) => {
            lemma_smaller_arguments(a, b);
            lemma_unify_progress(a, b);
            lemma_unifier_mono(*i1, *i2);
            match unify_spec(*i1, *i2) {
                Ok(s1) => {
                    lemma_apply_mono(*o1, s1);
                    lemma_apply_mono(*o2, s1);
                    lemma_unifier_mono(o1.apply(s1), o2.apply(s1));
                    match unify_spec(o1.apply(s1), o2.apply(s1)) {
                        Ok(s2) => {
                            let s = compose(s2, s1);
                            assert forall|k: Seq<char>| s.dom().contains(k) implies (#[trigger] s[k]).is_mono() by {
                                if s1.dom().contains(k) {
                                    lemma_apply_mono(s1[k], s2);
                                }
                            }
                        },
                        Err(_) => {},
                    }
                },
                Err(_) => {},
            }
        },
        _ => {},
    }
}

/// Unifying the arguments of two function types is a smaller task than
/// unifying the function types.
pub proof fn lemma_smaller_arguments(a: TypeView, b: TypeView)
    ensures
        a matches TypeView::Func(i1, o1) ==> (b matches TypeView::Func(i2, o2) ==> unify_vars(
            *i1,
            *i2,
        ).len() <= unify_vars(a, b).len()),
{
    match (a, b) {
        (TypeView::Func(i1, o1), TypeView::Func(i2, o2)) => {
            lemma_visible(a);
            lemma_visible(b);
            assert(unify_vars(*i1, *i2).subset_of(unify_vars(a, b)));
            lemma_len_subset(unify_vars(*i1, *i2), unify_vars(a, b));
        },
        _ => {},
    }
}

/// A substitution leaves a type alone if it maps none of its variables.
pub proof fn lemma_apply_unmentioned(t: TypeView, x: Seq<char>, to: TypeView)
    requires
        !t.mentions(x),
    ensures
        t.apply(map![x => to]) == t,
    decreases t,
{
    match t {
        TypeView::Func(i, o) => {
            lemma_apply_unmentioned(*i, x, to);
            lemma_apply_unmentioned(*o, x, to);
        },
        TypeView::Forall(_, inner) => {
            lemma_apply_unmentioned(*inner, x, to);
        },
        _ => {},
    }
}

/// In a type free of quantifiers every variable that stands in it is free.
pub proof fn lemma_mono_mentions(t: TypeView, x: Seq<char>)
    requires
        t.is_mono(),
    ensures
        t.mentions(x) == t.free_vars().contains(x),
    decreases t,
{
    match t {
        TypeView::Func(i, o) => {
            lemma_mono_mentions(*i, x);
            lemma_mono_mentions(*o, x);
        },
        _ => {},
    }
}

/// A unifier unifies: it makes the two types, if free of quantifiers, one type.
pub proof fn lemma_unifier_unifies(a: TypeView, b: TypeView)
    requires
        a.is_mono(),
        b.is_mono(),
    ensures
        unify_spec(a, b) matches Ok(s) ==> a.apply(s) == b.apply(s),
    decreases unify_vars(a, b).len(), a.visible_size() + b.visible_size(),
{
    match (a, b) {
        (TypeView::Var(x), TypeView::Var(y)) => {},
        (TypeView::Var(x), _) => {
            lemma_mono_mentions(b, x);
            if !b.free_vars().contains(x) {
                lemma_apply_unmentioned(b, x, b);
            }
        },
        (_, TypeView::Var(y)) => {
            lemma_mono_mentions(a, y);
            if !a.free_vars().contains(y) {
                lemma_apply_unmentioned(a, y, a);
            }
        },
        (TypeView::Func(i1, o1), TypeView::Func(i2, o2)) => {
            lemma_smaller_arguments(a, b);
            lemma_unify_progress(a, b);
            lemma_unifier_unifies(*i1, *i2);
            lemma_unifier_mono(*i1, *i2);
            match unify_spec(*i1, *i2) {
                Ok(s1) => {
                    lemma_apply_mono(*o1, s1);
                    lemma_apply_mono(*o2, s1);
                    lemma_unifier_unifies(o1.apply(s1), o2.apply(s1));
                    match unify_spec(o1.apply(s1), o2.apply(s1)) {
                        Ok(s2) => {
                            lemma_apply_compose(s2, s1, *i1);
                            lemma_apply_compose(s2, s1, *i2);
                            lemma_apply_compose(s2, s1, *o1);
                            lemma_apply_compose(s2, s1, *o2);
                        },
                        Err(_) => {},
                    }
                },
                Err(_) => {},
            }
        },
        _ => {},
    }
}

/// A type that holds a variable is, after a substitution, at least as large
/// as what the variable gives way to, and larger if it is a function type.
pub proof fn lemma_size_of_instance(t: TypeView, x: Seq<char>, theta: Map<Seq<char>, TypeView>)
    requires
        t.is_mono(),
        t.mentions(x),
    ensures
        t.apply(theta).visible_size() >= TypeView::Var(x).apply(theta).visible_size(),
        t is Func ==> t.apply(theta).visible_size() > TypeView::Var(x).apply(theta).visible_size(),
    decreases t,
{
    match t {
        TypeView::Func(i, o) => {
            if i.mentions(x) {
                lemma_size_of_instance(*i, x, theta);
            } else {
                lemma_size_of_instance(*o, x, theta);
            }
        },
        _ => {},
    }
}

/// A substitution that makes a variable and a type equal takes the binding
/// of the one to the other in: applying the binding first changes nothing.
pub proof fn lemma_binding_absorbed(
    x: Seq<char>,
    to: TypeView,
    theta: Map<Seq<char>, TypeView>,
    t: TypeView,
)
    requires
        TypeView::Var(x).apply(theta) == to.apply(theta),
    ensures
        t.apply(map![x => to]).apply(theta) == t.apply(theta),
    decreases t,
{
    match t {
        TypeView::Func(i, o) => {
            lemma_binding_absorbed(x, to, theta, *i);
            lemma_binding_absorbed(x, to, theta, *o);
        },
        TypeView::Forall(_, inner) => {
            lemma_binding_absorbed(x, to, theta, *inner);
        },
        _ => {},
    }
}

/// Whether the substitution `theta` is `s` followed by `theta`: whatever
/// `theta` does can be done after `s`.
pub open spec fn is_instance_of(theta: Map<Seq<char>, TypeView>, s: Map<Seq<char>, TypeView>) -> bool {
    forall|t: TypeView| #[trigger] t.apply(s).apply(theta) == t.apply(theta)
}

/// Binding a variable to a type that a substitution makes equal to it
/// succeeds, and the substitution is an instance of the binding.
pub proof fn lemma_bind_most_general(x: Seq<char>, to: TypeView, theta: Map<Seq<char>, TypeView>)
    requires
        to.is_mono(),
        to != TypeView::Var(x),
        TypeView::Var(x).apply(theta) == to.apply(theta),
    ensures
        bind_spec(x, to) matches Ok(s) && is_instance_of(theta, s),
{
    lemma_mono_mentions(to, x);
    if to.mentions(x) {
        lemma_size_of_instance(to, x, theta);
    }
    assert forall|t: TypeView| #[trigger]
        t.apply(map![x => to]).apply(theta) == t.apply(theta) by {
        lemma_binding_absorbed(x, to, theta, t);
    }
}

/// The unifier is the most general one: if any substitution makes two
/// types free of quantifiers equal, unification finds a unifier, and the
/// substitution is an instance of it.
pub proof fn lemma_unifier_most_general(a: TypeView, b: TypeView, theta: Map<Seq<char>, TypeView>)
    requires
        a.is_mono(),
        b.is_mono(),
        a.apply(theta) == b.apply(theta),
    ensures
        unify_spec(a, b) matches Ok(s) && is_instance_of(theta, s),
    decreases unify_vars(a, b).len(), a.visible_size() + b.visible_size(),
{
    let empty = Map::<Seq<char>, TypeView>::empty();
    assert forall|t: TypeView| #[trigger] t.apply(empty).apply(theta) == t.apply(theta) by {
        lemma_apply_empty(t);
    }
    match (a, b) {
        (TypeView::Var(x), TypeView::Var(y)) => {
            if x != y {
                lemma_bind_most_general(x, b, theta);
            }
        },
        (TypeView::Var(x), _) => {
            lemma_bind_most_general(x, b, theta);
        },
        (_, TypeView::Var(y)) => {
            lemma_bind_most_general(y, a, theta);
        },
        (TypeView::Func(i1, o1), TypeView::Func(i2, o2)) => {
            lemma_smaller_arguments(a, b);
            lemma_unify_progress(a, b);
            lemma_unifier_most_general(*i1, *i2, theta);
            lemma_unifier_mono(*i1, *i2);
            let s1 = unify_spec(*i1, *i2)->Ok_0;
            let a2 = o1.apply(s1);
            let b2 = o2.apply(s1);
            lemma_apply_mono(*o1, s1);
            lemma_apply_mono(*o2, s1);
            assert(a2.apply(theta) == o1.apply(theta));
            assert(b2.apply(theta) == o2.apply(theta));
            lemma_unifier_most_general(a2, b2, theta);
            let s2 = unify_spec(a2, b2)->Ok_0;
            let s = compose(s2, s1);
            assert forall|t: TypeView| #[trigger] t.apply(s).apply(theta) == t.apply(theta) by {
                lemma_apply_compose(s2, s1, t);
                let mid = t.apply(s1);
                assert(mid.apply(s2).apply(theta) == mid.apply(theta));
            }
        },
        _ => {},
    }
}

/// Whether the substitution does away with every variable that it maps.
pub open spec fn eliminates_domain(s: Map<Seq<char>, TypeView>) -> bool {
    forall|x: Seq<char>| s.dom().contains(x) ==> #[trigger] eliminates(s, x)
}

/// A substitution leaves a type free of quantifiers alone if it maps none
/// of its variables.
pub proof fn lemma_apply_outside_domain(t: TypeView, s: Map<Seq<char>, TypeView>)
    requires
        t.is_mono(),
        forall|x: Seq<char>| s.dom().contains(x) ==> !t.visible().contains(x),
    ensures
        t.apply(s) == t,
    decreases t,
{
    match t {
        TypeView::Func(i, o) => {
            lemma_apply_outside_domain(*i, s);
            lemma_apply_outside_domain(*o, s);
        },
        _ => {},
    }
}

/// The unifier of two types free of quantifiers does away with every
/// variable that it maps.
pub proof fn lemma_unifier_eliminates(a: TypeView, b: TypeView)
    requires
        a.is_mono(),
        b.is_mono(),
    ensures
        unify_spec(a, b) matches Ok(s) ==> eliminates_domain(s),
    decreases unify_vars(a, b).len(), a.visible_size() + b.visible_size(),
{
    match (a, b) {
        (TypeView::Var(x), TypeView::Var(y)) => {
            if x != y {
                lemma_binding_eliminates(x, b);
            }
        },
        (TypeView::Var(x), _) => {
            lemma_binding_eliminates(x, b);
        },
        (_, TypeView::Var(y)) => {
            lemma_binding_eliminates(y, a);
        },
        (TypeView::Func(i1, o1), TypeView::Func(i2, o2)) => {
            lemma_smaller_arguments(a, b);
            lemma_unify_progress(a, b);
            lemma_unifier_eliminates(*i1, *i2);
            lemma_unifier_mono(*i1, *i2);
            match unify_spec(*i1, *i2) {
                Ok(s1) => {
                    let a2 = o1.apply(s1);
                    let b2 = o2.apply(s1);
                    lemma_apply_mono(*o1, s1);
                    lemma_apply_mono(*o2, s1);
                    lemma_unifier_eliminates(a2, b2);
                    lemma_unify_progress(a2, b2);
                    match unify_spec(a2, b2) {
                        Ok(s2) => {
                            let s = compose(s2, s1);
                            assert forall|x: Seq<char>| s.dom().contains(x) implies #[trigger] eliminates(
                                s,
                                x,
                            ) by {
                                assert forall|t: TypeView|
                                    !(#[trigger] t.apply(s)).visible().contains(x) by {
                                    lemma_apply_compose(s2, s1, t);
                                    let mid = t.apply(s1);
                                    if s2.dom().contains(x) {
                                        assert(eliminates(s2, x));
                                        assert(!mid.apply(s2).visible().contains(x));
                                    } else {
                                        assert(s1.dom().contains(x));
                                        assert(eliminates(s1, x));
                                        assert(!mid.visible().contains(x));
                                        assert(!a2.visible().contains(x));
                                        assert(!b2.visible().contains(x));
                                        assert(mid.apply(s2).visible().subset_of(
                                            mid.visible().union(unify_vars(a2, b2)),
                                        ));
                                    }
                                }
                            }
                        },
                        Err(_) => {},
                    }
                },
                Err(_) => {},
            }
        },
        _ => {},
    }
}

/// A binding that passes the occurs check does away with its variable.
pub proof fn lemma_binding_eliminates(x: Seq<char>, to: TypeView)
    requires
        to.is_mono(),
    ensures
        bind_spec(x, to) matches Ok(s) ==> eliminates_domain(s),
{
    lemma_visible(to);
    if !to.free_vars().contains(x) {
        let s = map![x => to];
        assert forall|t: TypeView| !(#[trigger] t.apply(s)).visible().contains(x) by {
            lemma_apply_binding(x, to, t);
        }
        assert(eliminates(s, x));
    }
}

/// A unifier is idempotent: for two types free of quantifiers, the unifier
/// composed with itself is the unifier.
pub proof fn lemma_unifier_idempotent(a: TypeView, b: TypeView)
    requires
        a.is_mono(),
        b.is_mono(),
    ensures
        unify_spec(a, b) matches Ok(s) ==> compose(s, s) == s,
{
    lemma_unifier_eliminates(a, b);
    lemma_unifier_mono(a, b);
    match unify_spec(a, b) {
        Ok(s) => {
            assert forall|k: Seq<char>| s.dom().contains(k) implies (#[trigger] s[k]).apply(s)
                == s[k] by {
                assert forall|x: Seq<char>| s.dom().contains(x) implies !s[k].visible().contains(
                    x,
                ) by {
                    assert(eliminates(s, x));
                    assert(TypeView::Var(k).apply(s) == s[k]);
                }
                lemma_apply_outside_domain(s[k], s);
            }
            assert(compose(s, s) =~= s);
        },
        Err(_) => {},
    }
}

/// The result of a unification seen through the renaming `r`.
pub open spec fn renamed_result(
    result: Result<Map<Seq<char>, TypeView>, UnifyError>,
    r: Renaming,
) -> Result<Map<Seq<char>, TypeView>, UnifyError> {
    match result {
        Ok(s) => Ok(renamed_subst(s, r)),
        Err(UnifyError::InfiniteType) => Err(UnifyError::InfiniteType),
        Err(UnifyError::Mismatch(x, y)) => Err(UnifyError::Mismatch(x.renamed(r), y.renamed(r))),
    }
}

/// Binding a renamed variable to a renamed type gives the renamed binding.
pub proof fn lemma_renamed_bind(x: Seq<char>, t: TypeView, r: Renaming)
    requires
        r.is_bijection(),
        t.is_mono(),
    ensures
        bind_spec((r.to)(x), t.renamed(r)) == renamed_result(bind_spec(x, t), r),
{
    lemma_renamed_mono(t, r, x);
    if !t.free_vars().contains(x) {
        let left = map![(r.to)(x) => t.renamed(r)];
        let right = renamed_subst(map![x => t], r);
        assert forall|k: Seq<char>| left.dom().contains(k) == right.dom().contains(k) by {
            assert((r.to)((r.back)(k)) == k);
            assert((r.back)((r.to)(x)) == x);
        }
        assert(left =~= right) by {
            assert((r.back)((r.to)(x)) == x);
        }
    }
}

/// Unification goes along with renaming: the unifier of two renamed types
/// is the renamed unifier of the types.
pub proof fn lemma_unify_renamed(a: TypeView, b: TypeView, r: Renaming)
    requires
        r.is_bijection(),
        a.is_mono(),
        b.is_mono(),
    ensures
        unify_spec(a.renamed(r), b.renamed(r)) == renamed_result(unify_spec(a, b), r),
    decreases unify_vars(a, b).len(), a.visible_size() + b.visible_size(),
{
    let empty = Map::<Seq<char>, TypeView>::empty();
    assert(renamed_subst(empty, r) =~= empty);
    match (a, b) {
        (TypeView::Var(x), TypeView::Var(y)) => {
            assert((r.back)((r.to)(x)) == x);
            assert((r.back)((r.to)(y)) == y);
            if x != y {
                lemma_renamed_bind(x, b, r);
            }
        },
        (TypeView::Var(x), _) => {
            lemma_renamed_bind(x, b, r);
        },
        (_, TypeView::Var(y)) => {
            lemma_renamed_bind(y, a, r);
        },
        (TypeView::Func(i1, o1), TypeView::Func(i2, o2)) => {
            lemma_smaller_arguments(a, b);
            lemma_unify_progress(a, b);
            lemma_unify_progress(a.renamed(r), b.renamed(r));
            lemma_unify_renamed(*i1, *i2, r);
            lemma_unifier_mono(*i1, *i2);
            match unify_spec(*i1, *i2) {
                Ok(s1) => {
                    let a2 = o1.apply(s1);
                    let b2 = o2.apply(s1);
                    lemma_apply_mono(*o1, s1);
                    lemma_apply_mono(*o2, s1);
                    lemma_renamed_apply(*o1, s1, r);
                    lemma_renamed_apply(*o2, s1, r);
                    lemma_unify_renamed(a2, b2, r);
                    match unify_spec(a2, b2) {
                        Ok(s2) => {
                            lemma_renamed_compose(s2, s1, r);
                        },
                        Err(_) => {},
                    }
                },
                Err(_) => {},
            }
        },
        _ => {},
    }
}

/// Trading two variables: binding `y` to `x` is binding `x` to `y` and
/// then trading the two.
pub proof fn lemma_swap(x: Seq<char>, y: Seq<char>, t: TypeView)
    requires
        x != y,
    ensures
        t.apply(map![y => TypeView::Var(x)]) == t.apply(map![x => TypeView::Var(y)]).renamed(
            Renaming::swap(x, y),
        ),
    decreases t,
{
    match t {
        TypeView::Func(i, o) => {
            lemma_swap(x, y, *i);
            lemma_swap(x, y, *o);
        },
        TypeView::Forall(_, inner) => {
            lemma_swap(x, y, *inner);
        },
        _ => {},
    }
}

/// Renaming by the identity changes nothing, and two renamings in a row
/// are one.
pub proof fn lemma_renamed_twice(t: TypeView, outer: Renaming, inner: Renaming)
    ensures
        t.renamed(Renaming::identity()) == t,
        t.renamed(inner).renamed(outer) == t.renamed(outer.after(inner)),
    decreases t,
{
    match t {
        TypeView::Func(i, o) => {
            lemma_renamed_twice(*i, outer, inner);
            lemma_renamed_twice(*o, outer, inner);
        },
        TypeView::Forall(_, body) => {
            lemma_renamed_twice(*body, outer, inner);
        },
        _ => {},
    }
}

/// Unification is symmetric but for the names of the variables: for two
/// types free of quantifiers, unifying them in one order fails exactly if
/// unifying them in the other order fails, and for the same sort of
/// reason; and where there are unifiers, one is the other followed by a
/// renaming of variables that can be undone.
pub proof fn lemma_unify_symmetric(a: TypeView, b: TypeView)
    requires
        a.is_mono(),
        b.is_mono(),
    ensures
        alike(unify_spec(a, b), unify_spec(b, a)),
    decreases unify_vars(a, b).len(), a.visible_size() + b.visible_size(),
{
    let id = Renaming::identity();
    assert(id.is_bijection());
    match (a, b) {
        (TypeView::Var(x), TypeView::Var(y)) => {
            if x == y {
                lemma_same_unifier(unify_spec(a, b));
            } else {
                let r = Renaming::swap(x, y);
                assert(r.is_bijection());
                assert forall|ty: TypeView| #[trigger]
                    ty.apply(map![y => TypeView::Var(x)]) == ty.apply(
                        map![x => TypeView::Var(y)],
                    ).renamed(r) by {
                    lemma_swap(x, y, ty);
                }
                let s = map![x => TypeView::Var(y)];
                let t = map![y => TypeView::Var(x)];
                assert(follows_by(s, t, r));
                assert(renames_into(s, t));
            }
        },
        (TypeView::Var(x), _) => {
            lemma_same_unifier(unify_spec(a, b));
        },
        (_, TypeView::Var(y)) => {
            lemma_same_unifier(unify_spec(a, b));
        },
        (TypeView::Func(i1, o1), TypeView::Func(i2, o2)) => {
            lemma_smaller_arguments(a, b);
            lemma_unify_progress(a, b);
            lemma_unify_progress(b, a);
            lemma_unify_symmetric(*i1, *i2);
            lemma_unifier_mono(*i1, *i2);
            match unify_spec(*i1, *i2) {
                Ok(s1) => {
                    let t1 = unify_spec(*i2, *i1)->Ok_0;
                    assert(renames_into(s1, t1));
                    let r1 = choose|r: Renaming| r.is_bijection() && #[trigger] follows_by(s1, t1, r);
                    let a2 = o1.apply(s1);
                    let b2 = o2.apply(s1);
                    lemma_apply_mono(*o1, s1);
                    lemma_apply_mono(*o2, s1);
                    // The other order has the renamed results to unify.
                    assert(o1.apply(t1) == a2.renamed(r1));
                    assert(o2.apply(t1) == b2.renamed(r1));
                    lemma_unify_symmetric(a2, b2);
                    lemma_unify_renamed(b2, a2, r1);
                    match unify_spec(a2, b2) {
                        Ok(s2) => {
                            let back = unify_spec(b2, a2)->Ok_0;
                            assert(renames_into(s2, back));
                            let r2 = choose|r: Renaming|
                                r.is_bijection() && #[trigger] follows_by(s2, back, r);
                            let t2 = renamed_subst(back, r1);
                            let r = r1.after(r2);
                            assert(r.is_bijection());
                            let s = compose(s2, s1);
                            let t = compose(t2, t1);
                            assert forall|ty: TypeView| #[trigger]
                                ty.apply(t) == ty.apply(s).renamed(r) by {
                                lemma_apply_compose(t2, t1, ty);
                                lemma_apply_compose(s2, s1, ty);
                                let mid = ty.apply(s1);
                                assert(ty.apply(t1) == mid.renamed(r1));
                                lemma_renamed_apply(mid, back, r1);
                                assert(mid.apply(back) == mid.apply(s2).renamed(r2));
                                lemma_renamed_twice(mid.apply(s2), r1, r2);
                            }
                            assert(follows_by(s, t, r));
                        },
                        Err(_) => {},
                    }
                },
                Err(_) => {},
            }
        },
        (TypeView::Bool, TypeView::Bool) => {
            lemma_same_unifier(unify_spec(a, b));
        },
        (TypeView::Int, TypeView::Int) => {
            lemma_same_unifier(unify_spec(a, b));
        },
        _ => {},
    }
}

/// A result of unification is like itself.
pub proof fn lemma_same_unifier(result: Result<Map<Seq<char>, TypeView>, UnifyError>)
    ensures
        alike(result, result),
{
    match result {
        Ok(s) => {
            let id = Renaming::identity();
            assert(id.is_bijection());
            assert forall|ty: TypeView| #[trigger] ty.apply(s) == ty.apply(s).renamed(id) by {
                lemma_renamed_twice(ty.apply(s), id, id);
            }
            assert(follows_by(s, s, id));
            assert(renames_into(s, s));
        },
        Err(_) => {},
    }
}

} // verus!
